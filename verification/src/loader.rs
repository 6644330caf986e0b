//! Loading the in-memory store: node records are read in order, nodes
//! are created lazily the first time an id is referenced (which
//! tolerates forward references), self-parenting marks a root, and a
//! later record for the same id wins.  Depths are then computed and the
//! parent records are checked for cycles, and finally the
//! scientific-name rows are applied, each of which must reference a
//! known id.

use vstd::prelude::*;
use std::collections::HashMap;
use crate::errors::NcbiTaxonomyError;
use crate::file_taxonomy::{NcbiFileTaxonomy, TaxonNodeData, chain_from, has_id, idx_of,
    lemma_idx_of, lemma_idx_of_node, names_map, node_model, nodes_model, nodes_ok};
use crate::model::TaxonModel;
use crate::parser::{LineError, parse_name_line, parse_node_line, spec_name_line, spec_node_line};

verus! {

broadcast use vstd::std_specs::hash::group_hash_axioms;

// ---------------------------------------------------------------------------
// what the dump lines mean, record by record
// ---------------------------------------------------------------------------

/// The node records of the dump lines in order, or the index of the
/// first failing line with its failure.
pub open spec fn spec_node_records(lines: Seq<Seq<char>>) -> Result<
    Seq<(int, int, Seq<char>)>,
    (int, LineError),
>
    decreases lines.len(),
{
    if lines.len() == 0 {
        Ok(Seq::empty())
    } else {
        match spec_node_line(lines[0]) {
            Err(e) => Err((0, e)),
            Ok(r) => match spec_node_records(lines.drop_first()) {
                Err(p) => Err((p.0 + 1, p.1)),
                Ok(rest) => Ok(seq![r] + rest),
            },
        }
    }
}

/// Every id that the records mention: each record's own id, and its
/// parent id where that differs (a self-parent marks a root, not an
/// edge).
pub open spec fn referenced_set(recs: Seq<(int, int, Seq<char>)>) -> Set<int>
    decreases recs.len(),
{
    if recs.len() == 0 {
        Set::<int>::empty()
    } else {
        let s = referenced_set(recs.drop_last());
        let r = recs.last();
        if r.1 != r.0 {
            s.insert(r.0).insert(r.1)
        } else {
            s.insert(r.0)
        }
    }
}

pub proof fn lemma_referenced_finite(recs: Seq<(int, int, Seq<char>)>)
    ensures
        referenced_set(recs).finite(),
    decreases recs.len(),
{
    if recs.len() > 0 {
        lemma_referenced_finite(recs.drop_last());
    }
}

/// The effective parent of `id`: the parent id of the last record for
/// `id` whose parent differs from it, if any.
pub open spec fn spec_eff_parent(recs: Seq<(int, int, Seq<char>)>, id: int) -> Option<int>
    decreases recs.len(),
{
    if recs.len() == 0 {
        None
    } else {
        let r = recs.last();
        if r.0 == id && r.1 != id {
            Some(r.1)
        } else {
            spec_eff_parent(recs.drop_last(), id)
        }
    }
}

/// The rank of `id`: the rank of the last record for `id`, if any.
pub open spec fn spec_rank_of(recs: Seq<(int, int, Seq<char>)>, id: int) -> Option<Seq<char>>
    decreases recs.len(),
{
    if recs.len() == 0 {
        None
    } else {
        let r = recs.last();
        if r.0 == id {
            Some(r.2)
        } else {
            spec_rank_of(recs.drop_last(), id)
        }
    }
}

/// Whether the effective-parent walk from `id` reaches a root within
/// `fuel` steps.
pub open spec fn walk_ok(recs: Seq<(int, int, Seq<char>)>, id: int, fuel: nat) -> bool
    decreases fuel,
{
    match spec_eff_parent(recs, id) {
        None => true,
        Some(p) => fuel > 0 && walk_ok(recs, p, (fuel - 1) as nat),
    }
}

/// The parent records are acyclic: every referenced id reaches a root
/// in fewer steps than there are referenced ids.
pub open spec fn spec_chains_ok(recs: Seq<(int, int, Seq<char>)>) -> bool {
    forall|id: int| #[trigger]
        referenced_set(recs).contains(id) ==> walk_ok(
            recs,
            id,
            (referenced_set(recs).len() - 1) as nat,
        )
}

/// How a `names.dmp` line can spoil a load.
pub enum NameIssue {
    /// The line itself does not parse.
    Bad(LineError),
    /// A scientific-name row references an id absent from the forest.
    Unknown,
}

/// The first spoiled `names.dmp` line against the `known` ids, if any.
pub open spec fn first_name_issue(mls: Seq<Seq<char>>, known: Set<int>) -> Option<(int, NameIssue)>
    decreases mls.len(),
{
    if mls.len() == 0 {
        None
    } else {
        match spec_name_line(mls[0]) {
            Err(e) => Some((0, NameIssue::Bad(e))),
            Ok(None) => match first_name_issue(mls.drop_first(), known) {
                None => None,
                Some(p) => Some((p.0 + 1, p.1)),
            },
            Ok(Some(r)) => if !known.contains(r.0) {
                Some((0, NameIssue::Unknown))
            } else {
                match first_name_issue(mls.drop_first(), known) {
                    None => None,
                    Some(p) => Some((p.0 + 1, p.1)),
                }
            },
        }
    }
}

/// The `(id, scientific name)` pairs of the name lines, in order.
pub open spec fn spec_name_records(mls: Seq<Seq<char>>) -> Seq<(int, Seq<char>)>
    decreases mls.len(),
{
    if mls.len() == 0 {
        Seq::empty()
    } else {
        match spec_name_line(mls[0]) {
            Ok(Some(r)) => seq![r] + spec_name_records(mls.drop_first()),
            _ => spec_name_records(mls.drop_first()),
        }
    }
}

/// The name of `id`: from the last name record for `id`, if any.
pub open spec fn spec_name_of(nrecs: Seq<(int, Seq<char>)>, id: int) -> Option<Seq<char>>
    decreases nrecs.len(),
{
    if nrecs.len() == 0 {
        None
    } else if nrecs.last().0 == id {
        Some(nrecs.last().1)
    } else {
        spec_name_of(nrecs.drop_last(), id)
    }
}

/// The id carrying name `n`: from the last name record for `n`, if any.
pub open spec fn spec_name_id(nrecs: Seq<(int, Seq<char>)>, n: Seq<char>) -> Option<int>
    decreases nrecs.len(),
{
    if nrecs.len() == 0 {
        None
    } else if nrecs.last().1 == n {
        Some(nrecs.last().0)
    } else {
        spec_name_id(nrecs.drop_last(), n)
    }
}

/// How loading the two dump files turns out, checked in this order:
/// node lines in order, then the size bound, then the cycle check, then
/// the name lines in order.
pub enum LoadOutcome {
    /// The load succeeds.
    Success,
    /// The first failing `nodes.dmp` line and its failure.
    NodeIssue { line: int, err: LineError },
    /// More distinct ids than fit a 32-bit count.
    TooLarge,
    /// The parent records form a cycle.
    Cycle,
    /// The first failing `names.dmp` line and its failure.
    NameProblem { line: int, err: LineError },
    /// The first `names.dmp` row referencing an unknown id.
    NameUnknown { line: int },
}

/// The outcome of loading the given dump lines.
#[verifier::opaque]
pub open spec fn spec_load_outcome(nls: Seq<Seq<char>>, mls: Seq<Seq<char>>) -> LoadOutcome {
    match spec_node_records(nls) {
        Err(p) => LoadOutcome::NodeIssue { line: p.0, err: p.1 },
        Ok(recs) => if referenced_set(recs).len() > 0x7fff_ffff {
            LoadOutcome::TooLarge
        } else if !spec_chains_ok(recs) {
            LoadOutcome::Cycle
        } else {
            match first_name_issue(mls, referenced_set(recs)) {
                Some((j, NameIssue::Bad(e))) => LoadOutcome::NameProblem { line: j, err: e },
                Some((j, NameIssue::Unknown)) => LoadOutcome::NameUnknown { line: j },
                None => LoadOutcome::Success,
            }
        },
    }
}

// ---------------------------------------------------------------------------
// phase one: parsing the node lines
// ---------------------------------------------------------------------------

/// The record view of an executable record list.
pub open spec fn recs_view(s: Seq<(i32, i32, String)>) -> Seq<(int, int, Seq<char>)> {
    Seq::new(s.len(), |k: int| (s[k].0 as int, s[k].1 as int, s[k].2@))
}

/// Processing lines in order agrees with the head-first record spec.
proof fn lemma_node_records_split(s: Seq<Seq<char>>, pre: Seq<(int, int, Seq<char>)>)
    requires
        pre.len() <= s.len(),
        forall|k: int|
            0 <= k < pre.len() ==> spec_node_line(s[k]) == Ok::<_, LineError>(#[trigger] pre[k]),
    ensures
        match spec_node_records(s.skip(pre.len() as int)) {
            Ok(rest) => spec_node_records(s) == Ok::<_, (int, LineError)>(pre + rest),
            Err(p) => spec_node_records(s) == Err::<Seq<(int, int, Seq<char>)>, _>(
                (p.0 + pre.len(), p.1),
            ),
        },
    decreases pre.len(),
{
    if pre.len() == 0 {
        assert(s.skip(0) =~= s);
        match spec_node_records(s) {
            Ok(rest) => {
                assert(pre + rest =~= rest);
            },
            Err(_) => {},
        }
    } else {
        let s1 = s.drop_first();
        let pre1 = pre.drop_first();
        assert(forall|k: int|
            0 <= k < pre1.len() ==> spec_node_line(s1[k]) == Ok::<_, LineError>(
                #[trigger] pre1[k],
            ));
        lemma_node_records_split(s1, pre1);
        assert(s1.skip(pre1.len() as int) =~= s.skip(pre.len() as int));
        assert(spec_node_line(s[0]) == Ok::<_, LineError>(pre[0]));
        match spec_node_records(s.skip(pre.len() as int)) {
            Ok(rest) => {
                assert(spec_node_records(s1) == Ok::<_, (int, LineError)>(pre1 + rest));
                assert(seq![pre[0]] + (pre1 + rest) =~= pre + rest);
            },
            Err(_) => {},
        }
    }
}

/// Parses every `nodes.dmp` line into a record, stopping at the first
/// failure.
fn parse_nodes(lines: &Vec<String>) -> (r: Result<Vec<(i32, i32, String)>, NcbiTaxonomyError>)
    ensures
        match r {
            Ok(v) => spec_node_records(lines.deep_view()) == Ok::<_, (int, LineError)>(
                recs_view(v@),
            ),
            Err(e) => match spec_node_records(lines.deep_view()) {
                Err(p) => match (e, p.1) {
                    (NcbiTaxonomyError::NodeFileFormatError(t), LineError::Format) => t@
                        == lines.deep_view()[p.0],
                    (NcbiTaxonomyError::ParseIntError(t), LineError::ParseInt(f)) => t@ == f,
                    _ => false,
                },
                Ok(_) => false,
            },
        },
{
    let ghost nls = lines.deep_view();
    let n = lines.len();
    let mut out: Vec<(i32, i32, String)> = Vec::new();
    let mut j: usize = 0;
    while j < n
        invariant
            j <= n,
            n == nls.len(),
            nls == lines.deep_view(),
            out@.len() == j,
            forall|k: int|
                0 <= k < j ==> spec_node_line(nls[k]) == Ok::<_, LineError>(
                    #[trigger] recs_view(out@)[k],
                ),
        decreases n - j,
    {
        proof {
            assert(nls[j as int] == lines@[j as int]@);
        }
        match parse_node_line(lines[j].as_str()) {
            Ok(rec) => {
                let ghost out0 = out@;
                let ghost rec0 = rec;
                out.push(rec);
                proof {
                    assert forall|k: int|
                        0 <= k < j + 1 implies spec_node_line(nls[k]) == Ok::<_, LineError>(
                        recs_view(out@)[k],
                    ) by {
                        if k < j {
                            assert(out@[k] == out0[k]);
                            assert(recs_view(out@)[k] == recs_view(out0)[k]);
                        } else {
                            assert(recs_view(out@)[k] == (rec0.0 as int, rec0.1 as int, rec0.2@));
                        }
                    }
                }
            },
            Err(e) => {
                proof {
                    lemma_node_records_split(nls, recs_view(out@));
                    assert(nls.skip(j as int)[0] == nls[j as int]);
                    assert(nls.skip(j as int).drop_first() =~= nls.skip(j as int + 1));
                }
                return Err(e);
            },
        }
        j += 1;
    }
    proof {
        lemma_node_records_split(nls, recs_view(out@));
        assert(nls.skip(n as int) =~= Seq::<Seq<char>>::empty());
        match spec_node_records(nls) {
            Ok(rest) => {},
            Err(_) => {},
        }
    }
    Ok(out)
}

// ---------------------------------------------------------------------------
// phase two: building the arena
// ---------------------------------------------------------------------------

/// Arena and id index agree exactly.
pub(crate) open spec fn arena_ok(ns: Seq<TaxonNodeData>, ix: Map<i32, usize>) -> bool {
    &&& (forall|k: i32|
        ix.contains_key(k) ==> (#[trigger] ix[k]) < ns.len() && ns[ix[k] as int].id == k)
    &&& (forall|i: int|
        0 <= i < ns.len() ==> ix.contains_key((#[trigger] ns[i]).id) && ix[ns[i].id] as int == i)
    &&& (forall|i: int| 0 <= i < ns.len() ==> (#[trigger] ns[i]).id >= 0)
}

/// The invariant carried while the records are applied in order.
pub(crate) open spec fn build_inv(
    ns: Seq<TaxonNodeData>,
    ix: Map<i32, usize>,
    rv: Seq<(int, int, Seq<char>)>,
) -> bool {
    &&& arena_ok(ns, ix)
    &&& (forall|x: int| has_id(ns, x) <==> referenced_set(rv).contains(x))
    &&& ns.len() == referenced_set(rv).len()
    &&& (forall|i: int| 0 <= i < ns.len() ==> (#[trigger] ns[i]).parent < ns.len())
    &&& (forall|i: int|
        0 <= i < ns.len() ==> match spec_eff_parent(rv, (#[trigger] ns[i]).id as int) {
            None => ns[i].parent == i,
            Some(p) => ns[ns[i].parent as int].id as int == p && ns[i].parent as int != i,
        })
    &&& (forall|i: int|
        0 <= i < ns.len() ==> (match (#[trigger] ns[i]).rank {
            Some(s) => Some(s@),
            None => None::<Seq<char>>,
        }) == spec_rank_of(rv, ns[i].id as int))
    &&& (forall|i: int| 0 <= i < ns.len() ==> (#[trigger] ns[i]).name is None)
    &&& (forall|i: int| 0 <= i < ns.len() ==> (#[trigger] ns[i]).depth == 0)
}

/// Returns the handle of the node for `id`, creating a fresh root-like
/// node when the id is new.
fn ensure_node(nodes: &mut Vec<TaxonNodeData>, ix: &mut HashMap<i32, usize>, id: i32) -> (i: usize)
    requires
        arena_ok(old(nodes)@, old(ix)@),
        id >= 0,
    ensures
        arena_ok(final(nodes)@, final(ix)@),
        i < final(nodes)@.len(),
        final(nodes)@[i as int].id == id,
        old(nodes)@.len() <= final(nodes)@.len(),
        forall|j: int| 0 <= j < old(nodes)@.len() ==> final(nodes)@[j] == old(nodes)@[j],
        forall|x: int| has_id(final(nodes)@, x) <==> (has_id(old(nodes)@, x) || x == id as int),
        old(ix)@.contains_key(id) ==> final(nodes)@ == old(nodes)@ && i == old(ix)@[id],
        !old(ix)@.contains_key(id) ==> final(nodes)@.len() == old(nodes)@.len() + 1 && i
            == old(nodes)@.len() && final(nodes)@[i as int].parent == i && final(nodes)@[i as int].depth == 0
            && final(nodes)@[i as int].rank is None && final(nodes)@[i as int].name is None,
{
    let ghost ns0 = nodes@;
    match ix.get(&id) {
        Some(i) => {
            let idx = *i;
            proof {
                assert forall|x: int| has_id(nodes@, x) implies (has_id(ns0, x) || x
                    == id as int) by {}
                assert(has_id(nodes@, id as int));
            }
            idx
        },
        None => {
            let i = nodes.len();
            nodes.push(
                TaxonNodeData { id, parent: i, depth: 0, rank: None, name: None },
            );
            ix.insert(id, i);
            proof {
                assert forall|j: int| 0 <= j < ns0.len() implies nodes@[j] == ns0[j] by {}
                assert forall|x: int| has_id(nodes@, x) implies (has_id(ns0, x) || x
                    == id as int) by {
                    let w = choose|w: int|
                        0 <= w < nodes@.len() && (#[trigger] nodes@[w]).id as int == x;
                    if w < ns0.len() {
                        assert(ns0[w].id as int == x);
                    }
                }
                assert forall|x: int| has_id(ns0, x) || x == id as int implies has_id(
                    nodes@,
                    x,
                ) by {
                    if has_id(ns0, x) {
                        let w = choose|w: int|
                            0 <= w < ns0.len() && (#[trigger] ns0[w]).id as int == x;
                        assert(nodes@[w].id as int == x);
                    } else {
                        assert(nodes@[i as int].id as int == x);
                    }
                }
            }
            i
        },
    }
}

/// Stepping the record list by one record updates the derived
/// specifications pointwise.
proof fn lemma_step_specs(rv0: Seq<(int, int, Seq<char>)>, rec: (int, int, Seq<char>))
    ensures
        referenced_set(rv0.push(rec)) == (if rec.1 != rec.0 {
            referenced_set(rv0).insert(rec.0).insert(rec.1)
        } else {
            referenced_set(rv0).insert(rec.0)
        }),
        forall|x: int|
            #[trigger] spec_eff_parent(rv0.push(rec), x) == (if x == rec.0 && rec.1 != rec.0 {
                Some(rec.1)
            } else {
                spec_eff_parent(rv0, x)
            }),
        forall|x: int|
            #[trigger] spec_rank_of(rv0.push(rec), x) == (if x == rec.0 {
                Some(rec.2)
            } else {
                spec_rank_of(rv0, x)
            }),
{
    let rv1 = rv0.push(rec);
    assert(rv1.drop_last() =~= rv0);
    assert(rv1.last() == rec);
}

/// Two arenas with the same ids hold the same ids.
proof fn lemma_has_id_frame(a: Seq<TaxonNodeData>, b: Seq<TaxonNodeData>)
    requires
        a.len() == b.len(),
        forall|i: int| 0 <= i < a.len() ==> a[i].id == b[i].id,
    ensures
        forall|x: int| has_id(a, x) <==> has_id(b, x),
{
    assert forall|x: int| has_id(a, x) implies has_id(b, x) by {
        let w = choose|w: int| 0 <= w < a.len() && (#[trigger] a[w]).id as int == x;
        assert(b[w].id as int == x);
    }
    assert forall|x: int| has_id(b, x) implies has_id(a, x) by {
        let w = choose|w: int| 0 <= w < b.len() && (#[trigger] b[w]).id as int == x;
        assert(a[w].id as int == x);
    }
}

/// Applies one node record: creates the nodes it references and sets
/// the rank and, for a non-self parent, the parent edge.
#[verifier::rlimit(100)]
#[verifier::spinoff_prover]
fn apply_record(
    nodes: &mut Vec<TaxonNodeData>,
    ix: &mut HashMap<i32, usize>,
    id: i32,
    pid: i32,
    rank: String,
    Ghost(rv0): Ghost<Seq<(int, int, Seq<char>)>>,
) -> (r: ())
    requires
        id >= 0,
        pid >= 0,
        build_inv(old(nodes)@, old(ix)@, rv0),
    ensures
        build_inv(final(nodes)@, final(ix)@, rv0.push((id as int, pid as int, rank@))),
{
    let ghost ns0 = nodes@;
    let ghost rv1 = rv0.push((id as int, pid as int, rank@));
    proof {
        lemma_step_specs(rv0, (id as int, pid as int, rank@));
        lemma_referenced_finite(rv0);
    }
    let i0 = ensure_node(nodes, ix, id);
    let ghost ns_a = nodes@;
    let i1: usize = if pid != id {
        ensure_node(nodes, ix, pid)
    } else {
        i0
    };
    let ghost ns_mid = nodes@;
    proof {
        assert(nodes@[i0 as int].id == id);
        // the arena gained exactly the referenced ids of the new record
        assert forall|x: int| has_id(ns_mid, x) <==> referenced_set(rv1).contains(x) by {
            if pid != id {
                assert(has_id(ns_mid, x) <==> (has_id(ns_a, x) || x == pid as int));
                assert(has_id(ns_a, x) <==> (has_id(ns0, x) || x == id as int));
            } else {
                assert(has_id(ns_mid, x) <==> (has_id(ns0, x) || x == id as int));
            }
        }
        // and its size grew with the referenced count
        assert(ns_mid.len() == referenced_set(rv1).len()) by {
            assert(referenced_set(rv0).contains(id as int) <==> has_id(ns0, id as int));
            if pid != id {
                assert(referenced_set(rv0).contains(pid as int) <==> has_id(ns0, pid as int));
                assert(has_id(ns_a, pid as int) <==> (has_id(ns0, pid as int) || pid == id));
                assert(referenced_set(rv0).insert(id as int).len() == referenced_set(rv0).len() + (
                if referenced_set(rv0).contains(id as int) {
                    0int
                } else {
                    1int
                }));
                assert(referenced_set(rv0).insert(id as int).insert(pid as int).len()
                    == referenced_set(rv0).insert(id as int).len() + (if referenced_set(
                    rv0,
                ).insert(id as int).contains(pid as int) {
                    0int
                } else {
                    1int
                }));
            } else {
                assert(referenced_set(rv0).insert(id as int).len() == referenced_set(rv0).len() + (
                if referenced_set(rv0).contains(id as int) {
                    0int
                } else {
                    1int
                }));
            }
        }
    }
    nodes[i0].rank = Some(rank);
    if pid != id {
        nodes[i0].parent = i1;
    }
    proof {
        let ns2 = nodes@;
        assert(forall|j: int| 0 <= j < ns2.len() && j != i0 ==> ns2[j] == ns_mid[j]);
        assert(ns2[i0 as int].id == id);
        assert(ns2[i0 as int].depth == ns_mid[i0 as int].depth);
        assert(ns2[i0 as int].name == ns_mid[i0 as int].name);
        assert(ns2.len() == ns_mid.len());
        assert(forall|j: int| 0 <= j < ns2.len() ==> (#[trigger] ns2[j]).id == ns_mid[j].id);
        lemma_has_id_frame(ns2, ns_mid);
        // id index coherence survives: ids and positions unchanged
        assert forall|k: i32| ix@.contains_key(k) implies (#[trigger] ix@[k]) < ns2.len()
            && ns2[ix@[k] as int].id == k by {
            assert(ns_mid[ix@[k] as int].id == k);
        }
        assert forall|i: int| 0 <= i < ns2.len() implies ix@.contains_key((#[trigger] ns2[i]).id)
            && ix@[ns2[i].id] as int == i by {
            assert(ns_mid[i].id == ns2[i].id);
        }
        // only the node for `id` sits at handle `i0`
        assert forall|i: int| 0 <= i < ns2.len() && i != i0 implies ns2[i].id != id by {
            if ns2[i].id == id {
                assert(ix@[id] as int == i);
                assert(ix@[id] as int == i0 as int);
            }
        }
        if pid != id {
            assert(ns2[i1 as int].id == pid);
            assert(i1 as int != i0 as int);
        }
        // effective parents: the new record rules `id`, others keep theirs
        assert forall|i: int| 0 <= i < ns2.len() implies match spec_eff_parent(
            rv1,
            (#[trigger] ns2[i]).id as int,
        ) {
            None => ns2[i].parent == i,
            Some(p) => ns2[ns2[i].parent as int].id as int == p && ns2[i].parent as int != i,
        } by {
            if i == i0 as int {
                if pid != id {
                    assert(spec_eff_parent(rv1, id as int) == Some(pid as int));
                } else {
                    assert(spec_eff_parent(rv1, id as int) == spec_eff_parent(rv0, id as int));
                    assert(ns2[i].parent == ns_mid[i].parent);
                    if has_id(ns0, id as int) {
                        assert(ns_mid[i].parent == ns0[i].parent);
                        match spec_eff_parent(rv0, id as int) {
                            None => {},
                            Some(p) => {
                                assert(ns0[ns0[i].parent as int].id as int == p);
                                assert(ns2[ns0[i].parent as int].id == ns0[ns0[
                                    i].parent as int].id);
                            },
                        }
                    } else {
                        assert(spec_eff_parent(rv0, id as int) is None) by {
                            lemma_eff_parent_referenced(rv0, id as int);
                        }
                        assert(ns_mid[i].parent == i);
                    }
                }
            } else {
                assert(ns2[i].id != id);
                assert(spec_eff_parent(rv1, ns2[i].id as int) == spec_eff_parent(
                    rv0,
                    ns2[i].id as int,
                ));
                assert(ns2[i].parent == ns_mid[i].parent);
                if has_id(ns0, ns2[i].id as int) && i < ns0.len() {
                    assert(ns_mid[i] == ns0[i]);
                    match spec_eff_parent(rv0, ns2[i].id as int) {
                        None => {},
                        Some(p) => {
                            assert(ns0[ns0[i].parent as int].id as int == p);
                            assert(ns2[ns0[i].parent as int].id == ns0[ns0[i].parent as int].id);
                        },
                    }
                } else {
                    assert(i >= ns0.len());
                    assert(ns_mid[i].parent == i && ns_mid[i].rank is None);
                    assert(spec_eff_parent(rv0, ns2[i].id as int) is None) by {
                        lemma_eff_parent_referenced(rv0, ns2[i].id as int);
                        assert(!has_id(ns0, ns2[i].id as int));
                    }
                }
            }
        }
        // ranks: the new record rules `id`, others keep theirs
        assert forall|i: int| 0 <= i < ns2.len() implies (match (#[trigger] ns2[i]).rank {
            Some(s) => Some(s@),
            None => None::<Seq<char>>,
        }) == spec_rank_of(rv1, ns2[i].id as int) by {
            if i == i0 as int {
                assert(spec_rank_of(rv1, id as int) == Some(rank@));
            } else {
                assert(ns2[i].id != id);
                assert(spec_rank_of(rv1, ns2[i].id as int) == spec_rank_of(
                    rv0,
                    ns2[i].id as int,
                ));
                assert(ns2[i].rank == ns_mid[i].rank);
                if i < ns0.len() {
                    assert(ns_mid[i].rank == ns0[i].rank);
                } else {
                    assert(ns_mid[i].rank is None);
                    assert(spec_rank_of(rv0, ns2[i].id as int) is None) by {
                        lemma_rank_of_referenced(rv0, ns2[i].id as int);
                        assert(!has_id(ns0, ns2[i].id as int));
                    }
                }
            }
        }
    }
}

/// An id with an effective parent is referenced.
proof fn lemma_eff_parent_referenced(rv: Seq<(int, int, Seq<char>)>, id: int)
    ensures
        spec_eff_parent(rv, id) is Some ==> referenced_set(rv).contains(id),
    decreases rv.len(),
{
    if rv.len() > 0 {
        lemma_eff_parent_referenced(rv.drop_last(), id);
    }
}

/// An id with a rank is referenced.
proof fn lemma_rank_of_referenced(rv: Seq<(int, int, Seq<char>)>, id: int)
    ensures
        spec_rank_of(rv, id) is Some ==> referenced_set(rv).contains(id),
    decreases rv.len(),
{
    if rv.len() > 0 {
        lemma_rank_of_referenced(rv.drop_last(), id);
    }
}

/// Builds the arena and id index from the node records, in order.
fn build_arena(recs: &Vec<(i32, i32, String)>) -> (r: (Vec<TaxonNodeData>, HashMap<i32, usize>))
    requires
        forall|k: int| 0 <= k < recs@.len() ==> (#[trigger] recs@[k]).0 >= 0 && recs@[k].1 >= 0,
    ensures
        build_inv(r.0@, r.1@, recs_view(recs@)),
{
    let ghost rv = recs_view(recs@);
    let mut nodes: Vec<TaxonNodeData> = Vec::new();
    let mut ix: HashMap<i32, usize> = HashMap::new();
    proof {
        assert(rv.take(0) =~= Seq::<(int, int, Seq<char>)>::empty());
        assert forall|x: int| has_id(nodes@, x) <==> referenced_set(rv.take(0)).contains(x) by {
            if has_id(nodes@, x) {
                let w = choose|w: int|
                    0 <= w < nodes@.len() && (#[trigger] nodes@[w]).id as int == x;
            }
        }
    }
    let n = recs.len();
    let mut k: usize = 0;
    while k < n
        invariant
            k <= n,
            n == recs@.len(),
            rv == recs_view(recs@),
            forall|k2: int| 0 <= k2 < recs@.len() ==> (#[trigger] recs@[k2]).0 >= 0 && recs@[
                k2
            ].1 >= 0,
            build_inv(nodes@, ix@, rv.take(k as int)),
        decreases n - k,
    {
        let id = recs[k].0;
        let pid = recs[k].1;
        let rank = recs[k].2.clone();
        proof {
            assert(rv.take(k as int + 1) =~= rv.take(k as int).push(
                (id as int, pid as int, rank@),
            ));
        }
        apply_record(&mut nodes, &mut ix, id, pid, rank, Ghost(rv.take(k as int)));
        k += 1;
    }
    proof {
        assert(rv.take(n as int) =~= rv);
    }
    (nodes, ix)
}

// ---------------------------------------------------------------------------
// phase three: depths and the cycle check
// ---------------------------------------------------------------------------

/// How many parent steps lead from handle `i` to a root, within `fuel`.
pub(crate) open spec fn steps_from(ns: Seq<TaxonNodeData>, i: int, fuel: nat) -> Option<int>
    decreases fuel,
{
    if !(0 <= i < ns.len()) {
        None
    } else if ns[i].parent as int == i {
        Some(0)
    } else if fuel == 0 {
        None
    } else {
        match steps_from(ns, ns[i].parent as int, (fuel - 1) as nat) {
            None => None,
            Some(d) => Some(d + 1),
        }
    }
}

proof fn lemma_steps_mono(ns: Seq<TaxonNodeData>, i: int, f1: nat, f2: nat)
    requires
        f1 <= f2,
        steps_from(ns, i, f1) is Some,
    ensures
        steps_from(ns, i, f2) == steps_from(ns, i, f1),
    decreases f1,
{
    if 0 <= i < ns.len() && ns[i].parent as int != i {
        lemma_steps_mono(ns, ns[i].parent as int, (f1 - 1) as nat, (f2 - 1) as nat);
    }
}

proof fn lemma_steps_bound(ns: Seq<TaxonNodeData>, i: int, fuel: nat)
    ensures
        match steps_from(ns, i, fuel) {
            Some(d) => 0 <= d <= fuel,
            None => true,
        },
    decreases fuel,
{
    if 0 <= i < ns.len() && ns[i].parent as int != i && fuel > 0 {
        lemma_steps_bound(ns, ns[i].parent as int, (fuel - 1) as nat);
    }
}

/// Arenas with the same parent structure walk the same.
pub(crate) open spec fn same_parents(a: Seq<TaxonNodeData>, b: Seq<TaxonNodeData>) -> bool {
    &&& a.len() == b.len()
    &&& (forall|i: int|
        0 <= i < a.len() ==> (#[trigger] a[i]).parent == b[i].parent && a[i].id == b[i].id)
}

proof fn lemma_steps_frame(a: Seq<TaxonNodeData>, b: Seq<TaxonNodeData>, i: int, fuel: nat)
    requires
        same_parents(a, b),
    ensures
        steps_from(a, i, fuel) == steps_from(b, i, fuel),
    decreases fuel,
{
    if 0 <= i < a.len() && a[i].parent as int != i && fuel > 0 {
        lemma_steps_frame(a, b, a[i].parent as int, (fuel - 1) as nat);
    }
}

/// Assigns every node its depth, or reports a handle whose root-ward
/// walk does not finish (a parent cycle).
fn assign_depths(nodes: &mut Vec<TaxonNodeData>) -> (r: Result<(), usize>)
    requires
        forall|i: int| 0 <= i < old(nodes)@.len() ==> (#[trigger] old(nodes)@[i]).parent
            < old(nodes)@.len(),
    ensures
        final(nodes)@.len() == old(nodes)@.len(),
        forall|i: int|
            0 <= i < old(nodes)@.len() ==> (#[trigger] final(nodes)@[i]).id == old(nodes)@[i].id
                && final(nodes)@[i].parent == old(nodes)@[i].parent && final(nodes)@[i].rank
                == old(nodes)@[i].rank && final(nodes)@[i].name == old(nodes)@[i].name,
        match r {
            Ok(()) => forall|i: int|
                0 <= i < old(nodes)@.len() ==> steps_from(
                    old(nodes)@,
                    i,
                    (old(nodes)@.len() - 1) as nat,
                ) == Some(#[trigger] final(nodes)@[i].depth as int),
            Err(bad) => bad < old(nodes)@.len() && steps_from(
                old(nodes)@,
                bad as int,
                (old(nodes)@.len() - 1) as nat,
            ) is None,
        },
{
    let ghost ns0 = nodes@;
    let n = nodes.len();
    let mut i: usize = 0;
    while i < n
        invariant
            i <= n,
            n == nodes@.len(),
            n == ns0.len(),
            ns0 == old(nodes)@,
            forall|j: int| 0 <= j < n ==> (#[trigger] ns0[j]).parent < n,
            same_parents(nodes@, ns0),
            forall|j: int|
                0 <= j < n ==> (#[trigger] nodes@[j]).id == ns0[j].id && nodes@[j].parent
                    == ns0[j].parent && nodes@[j].rank == ns0[j].rank && nodes@[j].name
                    == ns0[j].name,
            forall|j: int|
                0 <= j < i ==> steps_from(ns0, j, (n - 1) as nat) == Some(
                    #[trigger] nodes@[j].depth as int,
                ),
        decreases n - i,
    {
        let mut cur: usize = i;
        let mut steps: usize = 0;
        while nodes[cur].parent != cur
            invariant
                i < n,
                n == nodes@.len(),
                n == ns0.len(),
                ns0 == old(nodes)@,
                forall|j: int| 0 <= j < n ==> (#[trigger] ns0[j]).parent < n,
                same_parents(nodes@, ns0),
                forall|j: int|
                    0 <= j < n ==> (#[trigger] nodes@[j]).id == ns0[j].id && nodes@[j].parent
                        == ns0[j].parent && nodes@[j].rank == ns0[j].rank && nodes@[j].name
                        == ns0[j].name,
                cur < n,
                steps <= n - 1,
                match steps_from(ns0, cur as int, (n - 1 - steps) as nat) {
                    None => steps_from(ns0, i as int, (n - 1) as nat) is None,
                    Some(d) => steps_from(ns0, i as int, (n - 1) as nat) == Some(d + steps),
                },
            decreases n - steps,
        {
            proof {
                assert(nodes@[cur as int].parent == ns0[cur as int].parent);
            }
            if steps == n - 1 {
                proof {
                    assert(ns0[cur as int].parent as int != cur as int);
                    assert(steps_from(ns0, cur as int, 0nat) is None);
                }
                return Err(i);
            }
            proof {
                let f = (n - 1 - steps) as nat;
                assert(ns0[cur as int].parent as int != cur as int);
                assert(steps_from(ns0, cur as int, f) == (match steps_from(
                    ns0,
                    ns0[cur as int].parent as int,
                    (f - 1) as nat,
                ) {
                    None => None::<int>,
                    Some(d) => Some(d + 1),
                }));
            }
            cur = nodes[cur].parent;
            steps += 1;
        }
        proof {
            assert(ns0[cur as int].parent as int == cur as int);
            assert(steps_from(ns0, cur as int, (n - 1 - steps) as nat) == Some(0int));
            assert(steps_from(ns0, i as int, (n - 1) as nat) == Some(steps as int));
        }
        let ghost before = nodes@;
        nodes[i].depth = steps;
        proof {
            assert(forall|j: int| 0 <= j < n && j != i ==> nodes@[j] == before[j]);
        }
        i += 1;
    }
    Ok(())
}

// ---------------------------------------------------------------------------
// phase four: the scientific names
// ---------------------------------------------------------------------------

/// The ids the arena holds, as a set.
pub(crate) open spec fn arena_ids(ns: Seq<TaxonNodeData>) -> Set<int> {
    Set::new(|x: int| has_id(ns, x))
}

/// Splitting the name lines at a clean prefix.
proof fn lemma_name_split(s: Seq<Seq<char>>, j: int, known: Set<int>)
    requires
        0 <= j <= s.len(),
        forall|k: int|
            0 <= k < j ==> match #[trigger] spec_name_line(s[k]) {
                Err(_) => false,
                Ok(None) => true,
                Ok(Some(r)) => known.contains(r.0),
            },
    ensures
        first_name_issue(s, known) == (match first_name_issue(s.skip(j), known) {
            None => None::<(int, NameIssue)>,
            Some(p) => Some((p.0 + j, p.1)),
        }),
        spec_name_records(s) == spec_name_records(s.take(j)) + spec_name_records(s.skip(j)),
    decreases j,
{
    if j == 0 {
        assert(s.skip(0) =~= s);
        assert(s.take(0) =~= Seq::<Seq<char>>::empty());
        assert(spec_name_records(s.take(0)) + spec_name_records(s) =~= spec_name_records(s));
    } else {
        let s1 = s.drop_first();
        assert(forall|k: int|
            0 <= k < j - 1 ==> match #[trigger] spec_name_line(s1[k]) {
                Err(_) => false,
                Ok(None) => true,
                Ok(Some(r)) => known.contains(r.0),
            });
        lemma_name_split(s1, j - 1, known);
        assert(s1.skip(j - 1) =~= s.skip(j));
        assert(s1.take(j - 1) =~= s.take(j).drop_first());
        match spec_name_line(s[0]) {
            Err(_) => {
                assert(false);
            },
            Ok(None) => {
                assert(spec_name_records(s.take(j)) == spec_name_records(s.take(j).drop_first()));
            },
            Ok(Some(r)) => {
                assert(spec_name_records(s.take(j)) == seq![r] + spec_name_records(
                    s.take(j).drop_first(),
                ));
                assert((seq![r] + spec_name_records(s1.take(j - 1))) + spec_name_records(
                    s.skip(j),
                ) =~= seq![r] + (spec_name_records(s1.take(j - 1)) + spec_name_records(s.skip(j))));
            },
        }
    }
}

/// Replaces the entry for `name` or appends one, keeping keys unique.
fn upsert_name(entries: &mut Vec<(String, i32)>, name: String, id: i32)
    requires
        forall|p: int, q: int|
            0 <= p < q < old(entries)@.len() ==> (#[trigger] old(entries)@[p]).0@ != (
            #[trigger] old(entries)@[q]).0@,
    ensures
        forall|p: int, q: int|
            0 <= p < q < final(entries)@.len() ==> (#[trigger] final(entries)@[p]).0@ != (
            #[trigger] final(entries)@[q]).0@,
        names_map(final(entries)@) == names_map(old(entries)@).insert(name@, id as int),
        forall|p: int|
            0 <= p < final(entries)@.len() ==> ((#[trigger] final(entries)@[p]).1 == id
                || (exists|q: int|
                0 <= q < old(entries)@.len() && (#[trigger] old(entries)@[q]).1
                    == final(entries)@[p].1)),
{
    let ghost e0 = entries@;
    proof {
        assert forall|a: int, b: int| 0 <= a < b < e0.len() implies (#[trigger] e0[a]).0@ != (
        #[trigger] e0[b]).0@ by {
            assert(old(entries)@[a] == e0[a]);
            assert(old(entries)@[b] == e0[b]);
        }
    }
    let n = entries.len();
    let mut p: usize = 0;
    while p < n
        invariant
            p <= n,
            n == entries@.len(),
            entries@ == e0,
            e0 == old(entries)@,
            forall|a: int, b: int|
                0 <= a < b < e0.len() ==> (#[trigger] e0[a]).0@ != (#[trigger] e0[b]).0@,
            forall|q: int| 0 <= q < p ==> (#[trigger] e0[q]).0@ != name@,
        decreases n - p,
    {
        if crate::text::str_eq(entries[p].0.as_str(), name.as_str()) {
            let ghost pp = p as int;
            entries[p].1 = id;
            proof {
                let e1 = entries@;
                assert(forall|q: int| 0 <= q < n && q != pp ==> e1[q] == e0[q]);
                assert(e1[pp].0 == e0[pp].0);
                assert(forall|q: int| 0 <= q < n ==> (#[trigger] e1[q]).0@ == e0[q].0@);
                assert(e0[pp].0@ == name@);
                // only position `pp` carries `name`
                assert forall|q: int| 0 <= q < n && q != pp implies (#[trigger] e0[q]).0@
                    != name@ by {
                    if q < pp {
                    } else {
                        assert(e0[pp].0@ != e0[q].0@);
                    }
                }
                assert forall|p2: int, q2: int|
                    0 <= p2 < q2 < e1.len() implies (#[trigger] e1[p2]).0@ != (
                #[trigger] e1[q2]).0@ by {
                    assert(e1[p2].0@ == e0[p2].0@);
                    assert(e1[q2].0@ == e0[q2].0@);
                }
                assert forall|nm: Seq<char>|
                    names_map(e1).contains_key(nm) <==> names_map(e0).insert(
                        name@,
                        id as int,
                    ).contains_key(nm) by {
                    if exists|q: int| 0 <= q < e1.len() && (#[trigger] e1[q]).0@ == nm {
                        let q = choose|q: int| 0 <= q < e1.len() && (#[trigger] e1[q]).0@ == nm;
                        assert(e0[q].0@ == nm);
                    }
                    if exists|q: int| 0 <= q < e0.len() && (#[trigger] e0[q]).0@ == nm {
                        let q = choose|q: int| 0 <= q < e0.len() && (#[trigger] e0[q]).0@ == nm;
                        assert(e1[q].0@ == nm);
                    }
                    if nm == name@ {
                        assert(e0[pp].0@ == nm);
                    }
                }
                assert forall|nm: Seq<char>| #[trigger]
                    names_map(e1).contains_key(nm) implies names_map(e1)[nm] == names_map(
                    e0,
                ).insert(name@, id as int)[nm] by {
                    let q = choose|q: int| 0 <= q < e1.len() && (#[trigger] e1[q]).0@ == nm;
                    if nm == name@ {
                        assert(q == pp) by {
                            if q != pp {
                                assert(e0[q].0@ != name@);
                                assert(e1[q].0@ == e0[q].0@);
                            }
                        }
                        assert(names_map(e1)[nm] == id as int);
                    } else {
                        assert(q != pp);
                        let q0 = choose|q0: int|
                            0 <= q0 < e0.len() && (#[trigger] e0[q0]).0@ == nm;
                        assert(q0 == q) by {
                            if q0 < q {
                                assert(e0[q0].0@ != e0[q].0@);
                            }
                            if q < q0 {
                                assert(e0[q].0@ != e0[q0].0@);
                            }
                        }
                        assert(names_map(e1)[nm] == e1[q].1 as int);
                        assert(names_map(e0)[nm] == e0[q].1 as int);
                        assert(e1[q].1 == e0[q].1);
                    }
                }
                assert(names_map(e1) =~= names_map(e0).insert(name@, id as int));
                assert forall|p2: int| 0 <= p2 < e1.len() implies ((#[trigger] e1[p2]).1 == id
                    || (exists|q: int| 0 <= q < e0.len() && (#[trigger] e0[q]).1 == e1[p2].1)) by {
                    if p2 != pp {
                        assert(e0[p2].1 == e1[p2].1);
                    }
                }
            }
            return ;
        }
        p += 1;
    }
    entries.push((name, id));
    proof {
        let e1 = entries@;
        assert(forall|q: int| 0 <= q < n ==> e1[q] == e0[q]);
        assert(e1[n as int].0@ == name@ && e1[n as int].1 == id);
        assert forall|p2: int, q2: int|
            0 <= p2 < q2 < e1.len() implies (#[trigger] e1[p2]).0@ != (#[trigger] e1[q2]).0@ by {
            if q2 == n as int {
                assert(e1[p2].0@ == e0[p2].0@);
                assert(e0[p2].0@ != name@);
            }
        }
        assert forall|nm: Seq<char>|
            names_map(e1).contains_key(nm) <==> names_map(e0).insert(
                name@,
                id as int,
            ).contains_key(nm) by {
            if exists|q: int| 0 <= q < e1.len() && (#[trigger] e1[q]).0@ == nm {
                let q = choose|q: int| 0 <= q < e1.len() && (#[trigger] e1[q]).0@ == nm;
                if q < n as int {
                    assert(e0[q].0@ == nm);
                }
            }
            if exists|q: int| 0 <= q < e0.len() && (#[trigger] e0[q]).0@ == nm {
                let q = choose|q: int| 0 <= q < e0.len() && (#[trigger] e0[q]).0@ == nm;
                assert(e1[q].0@ == nm);
            }
            if nm == name@ {
                assert(e1[n as int].0@ == nm);
            }
        }
        assert forall|nm: Seq<char>| #[trigger] names_map(e1).contains_key(nm) implies names_map(
            e1,
        )[nm] == names_map(e0).insert(name@, id as int)[nm] by {
            let q = choose|q: int| 0 <= q < e1.len() && (#[trigger] e1[q]).0@ == nm;
            if nm == name@ {
                assert(q == n as int) by {
                    if q != n as int {
                        assert(e0[q].0@ != name@);
                    }
                }
            } else {
                assert(q != n as int);
                assert(e0[q].0@ == nm);
                let q0 = choose|q0: int| 0 <= q0 < e0.len() && (#[trigger] e0[q0]).0@ == nm;
                assert(q0 == q) by {
                    if q0 != q {
                        assert(e0[q0].0@ != e0[q].0@);
                    }
                }
            }
        }
        assert(names_map(e1) =~= names_map(e0).insert(name@, id as int));
    }
}

/// Applies the scientific-name rows to the arena and builds the name
/// index; every row must reference a known id.
#[verifier::rlimit(100)]
#[verifier::spinoff_prover]
fn apply_names(
    nodes: &mut Vec<TaxonNodeData>,
    ix: &HashMap<i32, usize>,
    name_lines: &Vec<String>,
) -> (r: Result<Vec<(String, i32)>, NcbiTaxonomyError>)
    requires
        arena_ok(old(nodes)@, ix@),
        forall|i: int| 0 <= i < old(nodes)@.len() ==> (#[trigger] old(nodes)@[i]).name is None,
    ensures
        final(nodes)@.len() == old(nodes)@.len(),
        forall|i: int|
            0 <= i < old(nodes)@.len() ==> (#[trigger] final(nodes)@[i]).id == old(nodes)@[i].id
                && final(nodes)@[i].parent == old(nodes)@[i].parent && final(nodes)@[i].depth
                == old(nodes)@[i].depth && final(nodes)@[i].rank == old(nodes)@[i].rank,
        ({
            let mls = name_lines.deep_view();
            let known = arena_ids(old(nodes)@);
            match r {
                Ok(entries) => ({
                    let nrecs = spec_name_records(mls);
                    &&& first_name_issue(mls, known) is None
                    &&& (forall|i: int|
                        0 <= i < final(nodes)@.len() ==> (match (#[trigger] final(nodes)@[i]).name {
                            Some(s) => Some(s@),
                            None => None::<Seq<char>>,
                        }) == spec_name_of(nrecs, final(nodes)@[i].id as int))
                    &&& (forall|a: int, b: int|
                        0 <= a < b < entries@.len() ==> (#[trigger] entries@[a]).0@ != (
                        #[trigger] entries@[b]).0@)
                    &&& (forall|p: int|
                        0 <= p < entries@.len() ==> ix@.contains_key((#[trigger] entries@[p]).1))
                    &&& (forall|n: Seq<char>|
                        names_map(entries@).contains_key(n) <==> spec_name_id(nrecs, n) is Some)
                    &&& (forall|n: Seq<char>| #[trigger]
                        names_map(entries@).contains_key(n) ==> spec_name_id(nrecs, n) == Some(
                            names_map(entries@)[n],
                        ))
                }),
                Err(e) => match first_name_issue(mls, known) {
                    Some(pr) => match (e, pr.1) {
                        (
                            NcbiTaxonomyError::NodeFileFormatError(t),
                            NameIssue::Bad(LineError::Format),
                        ) => t@ == mls[pr.0],
                        (
                            NcbiTaxonomyError::ParseIntError(t),
                            NameIssue::Bad(LineError::ParseInt(f)),
                        ) => t@ == f,
                        (NcbiTaxonomyError::IntegrityError(t), NameIssue::Unknown) => t@ == mls[
                            pr.0
                        ],
                        _ => false,
                    },
                    None => false,
                },
            }
        }),
{
    let ghost ns0 = old(nodes)@;
    let ghost mls = name_lines.deep_view();
    let ghost known = arena_ids(ns0);
    let ghost mut nrecs: Seq<(int, Seq<char>)> = Seq::empty();
    let mut entries: Vec<(String, i32)> = Vec::new();
    let m = name_lines.len();
    let mut j: usize = 0;
    proof {
        assert(mls.take(0) =~= Seq::<Seq<char>>::empty());
        assert(names_map(entries@) =~= Map::<Seq<char>, int>::empty());
    }
    while j < m
        invariant
            j <= m,
            m == mls.len(),
            mls == name_lines.deep_view(),
            ns0 == old(nodes)@,
            known == arena_ids(ns0),
            arena_ok(ns0, ix@),
            nodes@.len() == ns0.len(),
            forall|i: int|
                0 <= i < ns0.len() ==> (#[trigger] nodes@[i]).id == ns0[i].id && nodes@[i].parent
                    == ns0[i].parent && nodes@[i].depth == ns0[i].depth && nodes@[i].rank
                    == ns0[i].rank,
            nrecs == spec_name_records(mls.take(j as int)),
            forall|k: int|
                0 <= k < j ==> match #[trigger] spec_name_line(mls[k]) {
                    Err(_) => false,
                    Ok(None) => true,
                    Ok(Some(r)) => known.contains(r.0),
                },
            forall|i: int|
                0 <= i < nodes@.len() ==> (match (#[trigger] nodes@[i]).name {
                    Some(s) => Some(s@),
                    None => None::<Seq<char>>,
                }) == spec_name_of(nrecs, nodes@[i].id as int),
            forall|a: int, b: int|
                0 <= a < b < entries@.len() ==> (#[trigger] entries@[a]).0@ != (
                #[trigger] entries@[b]).0@,
            forall|p: int| 0 <= p < entries@.len() ==> ix@.contains_key((#[trigger] entries@[p]).1),
            forall|n: Seq<char>|
                names_map(entries@).contains_key(n) <==> spec_name_id(nrecs, n) is Some,
            forall|n: Seq<char>| #[trigger]
                names_map(entries@).contains_key(n) ==> spec_name_id(nrecs, n) == Some(
                    names_map(entries@)[n],
                ),
        decreases m - j,
    {
        proof {
            assert(mls[j as int] == name_lines@[j as int]@);
            lemma_name_split(mls, j as int, known);
            assert(mls.skip(j as int)[0] == mls[j as int]);
            assert(mls.skip(j as int).drop_first() =~= mls.skip(j as int + 1));
            assert(mls.take(j as int + 1).take(j as int) =~= mls.take(j as int));
            assert(mls.take(j as int + 1).skip(j as int) =~= seq![mls[j as int]]);
            lemma_name_split(mls.take(j as int + 1), j as int, known);
        }
        match parse_name_line(name_lines[j].as_str()) {
            Err(e) => {
                return Err(e);
            },
            Ok(None) => {
                proof {
                    let single = seq![mls[j as int]];
                    assert(single.len() == 1);
                    assert(single[0] == mls[j as int]);
                    assert(spec_name_line(single[0]) == Ok::<Option<(int, Seq<char>)>, LineError>(
                        None,
                    ));
                    assert(single.drop_first() =~= Seq::<Seq<char>>::empty());
                    assert(spec_name_records(single) == spec_name_records(single.drop_first()));
                    assert(spec_name_records(single) =~= Seq::<(int, Seq<char>)>::empty());
                    assert(nrecs + spec_name_records(single) =~= nrecs);
                    assert(spec_name_records(mls.take(j as int + 1)) =~= nrecs);
                }
            },
            Ok(Some((id, nm))) => {
                match ix.get(&id) {
                    None => {
                        proof {
                            assert(!has_id(ns0, id as int)) by {
                                if has_id(ns0, id as int) {
                                    let w = choose|w: int|
                                        0 <= w < ns0.len() && (#[trigger] ns0[w]).id as int
                                            == id as int;
                                    assert(ix@.contains_key(ns0[w].id));
                                }
                            }
                            assert(!known.contains(id as int));
                        }
                        return Err(NcbiTaxonomyError::IntegrityError(name_lines[j].clone()));
                    },
                    Some(iref) => {
                        let idx = *iref;
                        proof {
                            assert(ns0[idx as int].id == id);
                            assert(has_id(ns0, id as int));
                            assert(known.contains(id as int));
                            let single = seq![mls[j as int]];
                            assert(single.drop_first() =~= Seq::<Seq<char>>::empty());
                            assert(spec_name_records(single.drop_first())
                                =~= Seq::<(int, Seq<char>)>::empty());
                            assert(spec_name_records(single) =~= seq![(id as int, nm@)]);
                            assert(nrecs + seq![(id as int, nm@)] =~= nrecs.push(
                                (id as int, nm@),
                            ));
                            assert(spec_name_records(mls.take(j as int + 1)) == nrecs.push(
                                (id as int, nm@),
                            ));
                            assert(nrecs.push((id as int, nm@)).drop_last() =~= nrecs);
                        }
                        let ghost nrecs1 = nrecs.push((id as int, nm@));
                        let nm2 = nm.clone();
                        let ghost before = nodes@;
                        nodes[idx].name = Some(nm);
                        proof {
                            assert(forall|i: int|
                                0 <= i < nodes@.len() && i != idx ==> nodes@[i] == before[i]);
                            assert forall|i: int|
                                0 <= i < nodes@.len() implies (match (#[trigger] nodes@[i]).name {
                                Some(s) => Some(s@),
                                None => None::<Seq<char>>,
                            }) == spec_name_of(nrecs1, nodes@[i].id as int) by {
                                if i == idx as int {
                                    assert(spec_name_of(nrecs1, id as int) == Some(nm@));
                                } else {
                                    assert(nodes@[i].id == ns0[i].id);
                                    assert(nodes@[i].id != id) by {
                                        if nodes@[i].id == id {
                                            assert(ix@[id] as int == i);
                                            assert(ix@[id] == idx);
                                        }
                                    }
                                    assert(spec_name_of(nrecs1, nodes@[i].id as int)
                                        == spec_name_of(nrecs, nodes@[i].id as int));
                                }
                            }
                        }
                        let ghost ents0 = entries@;
                        upsert_name(&mut entries, nm2, id);
                        proof {
                            assert(names_map(entries@) == names_map(ents0).insert(
                                nm@,
                                id as int,
                            ));
                            assert forall|n: Seq<char>|
                                names_map(entries@).contains_key(n) <==> spec_name_id(
                                    nrecs1,
                                    n,
                                ) is Some by {
                                if n == nm@ {
                                } else {
                                    assert(spec_name_id(nrecs1, n) == spec_name_id(nrecs, n));
                                }
                            }
                            assert forall|n: Seq<char>| #[trigger]
                                names_map(entries@).contains_key(n) implies spec_name_id(
                                nrecs1,
                                n,
                            ) == Some(names_map(entries@)[n]) by {
                                if n == nm@ {
                                    assert(names_map(entries@)[n] == id as int);
                                } else {
                                    assert(spec_name_id(nrecs1, n) == spec_name_id(nrecs, n));
                                    assert(names_map(entries@)[n] == names_map(ents0)[n]);
                                }
                            }
                        }
                        proof {
                            nrecs = nrecs1;
                        }
                    },
                }
            },
        }
        j += 1;
    }
    proof {
        lemma_name_split(mls, m as int, known);
        assert(mls.skip(m as int) =~= Seq::<Seq<char>>::empty());
        assert(mls.take(m as int) =~= mls);
    }
    Ok(entries)
}

/// What a successfully loaded store holds: its taxa are exactly the
/// referenced ids; each taxon's rank and name come from the last record
/// naming it; each taxon's ancestor chain starts at its effective
/// parent and continues with that parent's chain; and the name index
/// maps each loaded name to the id of the last row carrying it.
pub open spec fn spec_loaded_ok(
    m: Map<int, TaxonModel>,
    names: Map<Seq<char>, int>,
    recs: Seq<(int, int, Seq<char>)>,
    nrecs: Seq<(int, Seq<char>)>,
) -> bool {
    &&& (forall|id: int| m.contains_key(id) <==> referenced_set(recs).contains(id))
    &&& (forall|id: int| #[trigger] m.contains_key(id) ==> m[id].rank == spec_rank_of(recs, id))
    &&& (forall|id: int| #[trigger] m.contains_key(id) ==> m[id].name == spec_name_of(nrecs, id))
    &&& (forall|id: int| #[trigger]
        m.contains_key(id) ==> match spec_eff_parent(recs, id) {
            None => m[id].ancestors.len() == 0,
            Some(p) => m.contains_key(p) && m[id].ancestors == seq![p] + m[p].ancestors,
        })
    &&& (forall|n: Seq<char>| names.contains_key(n) <==> spec_name_id(nrecs, n) is Some)
    &&& (forall|n: Seq<char>| #[trigger]
        names.contains_key(n) ==> Some(names[n]) == spec_name_id(nrecs, n))
}

// ---------------------------------------------------------------------------
// the constructor
// ---------------------------------------------------------------------------

/// A reported bad line lies within the input.
proof fn lemma_node_records_err_bounds(nls: Seq<Seq<char>>)
    ensures
        match spec_node_records(nls) {
            Ok(_) => true,
            Err(p) => 0 <= p.0 < nls.len(),
        },
    decreases nls.len(),
{
    if nls.len() > 0 {
        lemma_node_records_err_bounds(nls.drop_first());
    }
}

/// A reported bad name line lies within the input.
proof fn lemma_name_issue_bounds(mls: Seq<Seq<char>>, known: Set<int>)
    ensures
        match first_name_issue(mls, known) {
            None => true,
            Some(p) => 0 <= p.0 < mls.len(),
        },
    decreases mls.len(),
{
    if mls.len() > 0 {
        lemma_name_issue_bounds(mls.drop_first(), known);
    }
}

/// Parsed records carry ids within the 32-bit range.
proof fn lemma_records_bounds(nls: Seq<Seq<char>>, rv: Seq<(int, int, Seq<char>)>)
    requires
        spec_node_records(nls) == Ok::<_, (int, LineError)>(rv),
    ensures
        forall|k: int|
            0 <= k < rv.len() ==> 0 <= (#[trigger] rv[k]).0 <= 0x7fff_ffff && 0 <= rv[k].1
                <= 0x7fff_ffff,
    decreases nls.len(),
{
    if nls.len() > 0 {
        match spec_node_line(nls[0]) {
            Err(_) => {},
            Ok(r) => {
                match spec_node_records(nls.drop_first()) {
                    Err(_) => {},
                    Ok(rest) => {
                        lemma_records_bounds(nls.drop_first(), rest);
                        let fs = crate::text::spec_split_fields(nls[0]);
                        assert(crate::codec::spec_parse_id(fs[0]) == Some(r.0));
                        assert(crate::codec::spec_parse_id(fs[1]) == Some(r.1));
                        crate::codec::lemma_digits_val_nonneg(fs[0]);
                        crate::codec::lemma_digits_val_nonneg(fs[1]);
                        assert(rv =~= seq![r] + rest);
                        assert(forall|k: int| 1 <= k < rv.len() ==> rv[k] == rest[k - 1]);
                    },
                }
            },
        }
    }
}

/// The arena walk and the record walk agree node by node.
proof fn lemma_steps_walk(
    ns: Seq<TaxonNodeData>,
    rv: Seq<(int, int, Seq<char>)>,
    i: int,
    fuel: nat,
)
    requires
        0 <= i < ns.len(),
        forall|j: int| 0 <= j < ns.len() ==> (#[trigger] ns[j]).parent < ns.len(),
        forall|j: int|
            0 <= j < ns.len() ==> match spec_eff_parent(rv, (#[trigger] ns[j]).id as int) {
                None => ns[j].parent == j,
                Some(p) => ns[ns[j].parent as int].id as int == p && ns[j].parent as int != j,
            },
    ensures
        walk_ok(rv, ns[i].id as int, fuel) <==> steps_from(ns, i, fuel) is Some,
    decreases fuel,
{
    match spec_eff_parent(rv, ns[i].id as int) {
        None => {},
        Some(p) => {
            if fuel > 0 {
                lemma_steps_walk(ns, rv, ns[i].parent as int, (fuel - 1) as nat);
            }
        },
    }
}

/// Depths computed by the fuel walk are consistent with the parents.
proof fn lemma_depths_consistent(ns: Seq<TaxonNodeData>)
    requires
        forall|i: int| 0 <= i < ns.len() ==> (#[trigger] ns[i]).parent < ns.len(),
        forall|i: int|
            0 <= i < ns.len() ==> steps_from(ns, i, (ns.len() - 1) as nat) == Some(
                (#[trigger] ns[i]).depth as int,
            ),
    ensures
        forall|i: int| 0 <= i < ns.len() ==> ((#[trigger] ns[i]).parent == i <==> ns[i].depth == 0),
        forall|i: int|
            0 <= i < ns.len() && ns[i].parent != i ==> (#[trigger] ns[i]).depth == ns[
                ns[i].parent as int
            ].depth + 1,
        forall|i: int| 0 <= i < ns.len() ==> (#[trigger] ns[i]).depth < ns.len(),
{
    let fuel = (ns.len() - 1) as nat;
    assert forall|i: int| 0 <= i < ns.len() implies ((#[trigger] ns[i]).parent == i <==> ns[
        i
    ].depth == 0) && (ns[i].parent != i ==> ns[i].depth == ns[ns[i].parent as int].depth + 1) && ns[
        i
    ].depth < ns.len() by {
        lemma_steps_bound(ns, i, fuel);
        if ns[i].parent as int == i {
            assert(steps_from(ns, i, fuel) == Some(0int));
        } else {
            let p = ns[i].parent as int;
            assert(fuel > 0) by {
                if fuel == 0 {
                    assert(steps_from(ns, i, fuel) is None);
                }
            }
            assert(steps_from(ns, p, (fuel - 1) as nat) == Some(ns[i].depth - 1));
            lemma_steps_mono(ns, p, (fuel - 1) as nat, fuel);
            assert(steps_from(ns, p, fuel) == Some(ns[p].depth as int));
            assert(ns[i].depth == ns[p].depth + 1);
        }
    }
}

/// In a coherent arena no two nodes share an id.
proof fn lemma_arena_unique(ns: Seq<TaxonNodeData>, ixm: Map<i32, usize>)
    requires
        arena_ok(ns, ixm),
    ensures
        forall|i: int, j: int|
            0 <= i < ns.len() && 0 <= j < ns.len() && i != j ==> ns[i].id != ns[j].id,
{
    assert forall|i: int, j: int|
        0 <= i < ns.len() && 0 <= j < ns.len() && i != j implies ns[i].id != ns[j].id by {
        if ns[i].id == ns[j].id {
            assert(ixm[ns[i].id] as int == i);
            assert(ixm[ns[j].id] as int == j);
        }
    }
}

/// A loaded arena answers for exactly the records it was loaded from.
#[verifier::rlimit(100)]
#[verifier::spinoff_prover]
proof fn lemma_loaded(
    ns: Seq<TaxonNodeData>,
    ixm: Map<i32, usize>,
    entries: Seq<(String, i32)>,
    rv: Seq<(int, int, Seq<char>)>,
    nrecs: Seq<(int, Seq<char>)>,
)
    requires
        nodes_ok(ns),
        arena_ok(ns, ixm),
        forall|x: int| has_id(ns, x) <==> referenced_set(rv).contains(x),
        forall|i: int|
            0 <= i < ns.len() ==> match spec_eff_parent(rv, (#[trigger] ns[i]).id as int) {
                None => ns[i].parent == i,
                Some(p) => ns[ns[i].parent as int].id as int == p && ns[i].parent as int != i,
            },
        forall|i: int|
            0 <= i < ns.len() ==> (match (#[trigger] ns[i]).rank {
                Some(s) => Some(s@),
                None => None::<Seq<char>>,
            }) == spec_rank_of(rv, ns[i].id as int),
        forall|i: int|
            0 <= i < ns.len() ==> (match (#[trigger] ns[i]).name {
                Some(s) => Some(s@),
                None => None::<Seq<char>>,
            }) == spec_name_of(nrecs, ns[i].id as int),
        forall|n: Seq<char>| names_map(entries).contains_key(n) <==> spec_name_id(nrecs, n) is Some,
        forall|n: Seq<char>| #[trigger]
            names_map(entries).contains_key(n) ==> spec_name_id(nrecs, n) == Some(
                names_map(entries)[n],
            ),
    ensures
        spec_loaded_ok(nodes_model(ns), names_map(entries), rv, nrecs),
{
    let m = nodes_model(ns);
    assert(forall|id: int| m.contains_key(id) <==> referenced_set(rv).contains(id));
    assert forall|id: int| #[trigger] m.contains_key(id) implies m[id].rank == spec_rank_of(
        rv,
        id,
    ) by {
        let i = idx_of(ns, id);
        lemma_idx_of(ns, id);
        assert(m[id] == node_model(ns, i));
    }
    assert forall|id: int| #[trigger] m.contains_key(id) implies m[id].name == spec_name_of(
        nrecs,
        id,
    ) by {
        let i = idx_of(ns, id);
        lemma_idx_of(ns, id);
        assert(m[id] == node_model(ns, i));
    }
    assert forall|id: int| #[trigger] m.contains_key(id) implies (match spec_eff_parent(rv, id) {
        None => m[id].ancestors.len() == 0,
        Some(p) => m.contains_key(p) && m[id].ancestors == seq![p] + m[p].ancestors,
    }) by {
        let i = idx_of(ns, id);
        lemma_idx_of(ns, id);
        assert(m[id] == node_model(ns, i));
        match spec_eff_parent(rv, id) {
            None => {
                assert(ns[i].parent as int == i);
                assert(chain_from(ns, i) =~= Seq::<int>::empty());
            },
            Some(p) => {
                let pi = ns[i].parent as int;
                assert(ns[pi].id as int == p && pi != i);
                assert(chain_from(ns, i) == seq![p] + chain_from(ns, pi));
                lemma_idx_of_node(ns, pi);
                assert(has_id(ns, p));
                assert(m.contains_key(p));
                assert(m[p] == node_model(ns, pi));
                assert(m[p].ancestors == chain_from(ns, pi));
            },
        }
    }
}

/// After the depth pass the records are provably acyclic and the arena
/// still answers for exactly the referenced ids.
#[verifier::rlimit(100)]
#[verifier::spinoff_prover]
proof fn lemma_after_depths(
    ns1: Seq<TaxonNodeData>,
    ns2: Seq<TaxonNodeData>,
    ixm: Map<i32, usize>,
    rv: Seq<(int, int, Seq<char>)>,
)
    requires
        build_inv(ns1, ixm, rv),
        ns2.len() == ns1.len(),
        forall|i: int|
            0 <= i < ns1.len() ==> (#[trigger] ns2[i]).id == ns1[i].id && ns2[i].parent == ns1[
                i
            ].parent && ns2[i].rank == ns1[i].rank && ns2[i].name == ns1[i].name,
        forall|i: int|
            0 <= i < ns1.len() ==> steps_from(ns1, i, (ns1.len() - 1) as nat) == Some(
                (#[trigger] ns2[i]).depth as int,
            ),
    ensures
        spec_chains_ok(rv),
        arena_ok(ns2, ixm),
        arena_ids(ns2) == referenced_set(rv),
{
    assert forall|id: int| #[trigger] referenced_set(rv).contains(id) implies walk_ok(
        rv,
        id,
        (referenced_set(rv).len() - 1) as nat,
    ) by {
        assert(has_id(ns1, id));
        let w = choose|w: int| 0 <= w < ns1.len() && (#[trigger] ns1[w]).id as int == id;
        lemma_steps_walk(ns1, rv, w, (ns1.len() - 1) as nat);
        assert(steps_from(ns1, w, (ns1.len() - 1) as nat) == Some(ns2[w].depth as int));
    }
    assert(spec_chains_ok(rv));
    assert forall|k: i32| ixm.contains_key(k) implies (#[trigger] ixm[k]) < ns2.len() && ns2[
        ixm[k] as int
    ].id == k by {
        assert(ns1[ixm[k] as int].id == k);
    }
    assert forall|i: int| 0 <= i < ns2.len() implies ixm.contains_key((#[trigger] ns2[i]).id)
        && ixm[ns2[i].id] as int == i by {
        assert(ns1[i].id == ns2[i].id);
    }
    assert(arena_ok(ns2, ixm));
    lemma_has_id_frame(ns2, ns1);
    assert(arena_ids(ns2) =~= referenced_set(rv));
}

/// After the three phases the final arena is a well-formed store that
/// answers for the loaded records.
#[verifier::rlimit(100)]
#[verifier::spinoff_prover]
proof fn lemma_finalize(
    ns1: Seq<TaxonNodeData>,
    ns2: Seq<TaxonNodeData>,
    ns3: Seq<TaxonNodeData>,
    ixm: Map<i32, usize>,
    entries: Seq<(String, i32)>,
    rv: Seq<(int, int, Seq<char>)>,
    nrecs: Seq<(int, Seq<char>)>,
)
    requires
        build_inv(ns1, ixm, rv),
        ns1.len() <= 0x7fff_ffff,
        ns2.len() == ns1.len(),
        forall|i: int|
            0 <= i < ns1.len() ==> (#[trigger] ns2[i]).id == ns1[i].id && ns2[i].parent == ns1[
                i
            ].parent && ns2[i].rank == ns1[i].rank && ns2[i].name == ns1[i].name,
        forall|i: int|
            0 <= i < ns1.len() ==> steps_from(ns1, i, (ns1.len() - 1) as nat) == Some(
                (#[trigger] ns2[i]).depth as int,
            ),
        ns3.len() == ns2.len(),
        forall|i: int|
            0 <= i < ns2.len() ==> (#[trigger] ns3[i]).id == ns2[i].id && ns3[i].parent == ns2[
                i
            ].parent && ns3[i].depth == ns2[i].depth && ns3[i].rank == ns2[i].rank,
        forall|i: int|
            0 <= i < ns3.len() ==> (match (#[trigger] ns3[i]).name {
                Some(ss) => Some(ss@),
                None => None::<Seq<char>>,
            }) == spec_name_of(nrecs, ns3[i].id as int),
        forall|n: Seq<char>| names_map(entries).contains_key(n) <==> spec_name_id(nrecs, n) is Some,
        forall|n: Seq<char>| #[trigger]
            names_map(entries).contains_key(n) ==> spec_name_id(nrecs, n) == Some(
                names_map(entries)[n],
            ),
    ensures
        nodes_ok(ns3),
        arena_ok(ns3, ixm),
        spec_chains_ok(rv),
        spec_loaded_ok(nodes_model(ns3), names_map(entries), rv, nrecs),
{
    // the records are acyclic: every referenced id has a node whose walk ends
    assert forall|id: int| #[trigger] referenced_set(rv).contains(id) implies walk_ok(
        rv,
        id,
        (referenced_set(rv).len() - 1) as nat,
    ) by {
        assert(has_id(ns1, id));
        let w = choose|w: int| 0 <= w < ns1.len() && (#[trigger] ns1[w]).id as int == id;
        lemma_steps_walk(ns1, rv, w, (ns1.len() - 1) as nat);
        assert(steps_from(ns1, w, (ns1.len() - 1) as nat) == Some(ns2[w].depth as int));
    }
    assert(spec_chains_ok(rv));
    // depth consistency transfers from the walk facts to the final arena
    assert(same_parents(ns2, ns1));
    assert forall|i: int| 0 <= i < ns2.len() implies steps_from(ns2, i, (ns2.len() - 1) as nat)
        == Some((#[trigger] ns2[i]).depth as int) by {
        lemma_steps_frame(ns2, ns1, i, (ns2.len() - 1) as nat);
    }
    lemma_depths_consistent(ns2);
    // index coherence on the final arena
    assert forall|k: i32| ixm.contains_key(k) implies (#[trigger] ixm[k]) < ns3.len() && ns3[
        ixm[k] as int
    ].id == k by {
        assert(ns1[ixm[k] as int].id == k);
        assert(ns2[ixm[k] as int].id == k);
    }
    assert forall|i: int| 0 <= i < ns3.len() implies ixm.contains_key((#[trigger] ns3[i]).id)
        && ixm[ns3[i].id] as int == i by {
        assert(ns2[i].id == ns3[i].id && ns1[i].id == ns2[i].id);
    }
    assert(arena_ok(ns3, ixm));
    lemma_arena_unique(ns3, ixm);
    assert(nodes_ok(ns3)) by {
        assert(forall|i: int|
            0 <= i < ns3.len() ==> (#[trigger] ns3[i]).parent == ns1[i].parent && ns3[i].depth
                == ns2[i].depth);
        assert(forall|i: int| 0 <= i < ns3.len() ==> (#[trigger] ns3[i]).parent < ns3.len());
        assert(forall|i: int| 0 <= i < ns3.len() ==> (#[trigger] ns3[i]).id >= 0);
        assert forall|i: int| 0 <= i < ns3.len() implies ((#[trigger] ns3[i]).parent == i <==> ns3[
            i
        ].depth == 0) by {
            assert(ns3[i].parent == ns2[i].parent && ns3[i].depth == ns2[i].depth);
        }
        assert forall|i: int| 0 <= i < ns3.len() implies #[trigger] crate::file_taxonomy::depth_linked(
            ns3,
            i,
        ) by {
            reveal(crate::file_taxonomy::depth_linked);
            if ns3[i].parent as int != i {
                assert(ns2[i].parent == ns3[i].parent && ns3[i].depth == ns2[i].depth);
                assert(ns3[ns3[i].parent as int].depth == ns2[ns2[i].parent as int].depth);
            }
        }
        assert forall|i: int| 0 <= i < ns3.len() implies (#[trigger] ns3[i]).depth < ns3.len() by {
            assert(ns3[i].depth == ns2[i].depth);
        }
    }
    // the record-level facts transfer to the final arena
    lemma_has_id_frame(ns3, ns2);
    lemma_has_id_frame(ns2, ns1);
    assert forall|i: int| 0 <= i < ns3.len() implies match spec_eff_parent(
        rv,
        (#[trigger] ns3[i]).id as int,
    ) {
        None => ns3[i].parent == i,
        Some(p) => ns3[ns3[i].parent as int].id as int == p && ns3[i].parent as int != i,
    } by {
        assert(ns3[i].id == ns1[i].id && ns3[i].parent == ns1[i].parent);
        match spec_eff_parent(rv, ns1[i].id as int) {
            None => {},
            Some(p) => {
                assert(ns1[ns1[i].parent as int].id as int == p);
                assert(ns3[ns1[i].parent as int].id == ns1[ns1[i].parent as int].id);
            },
        }
    }
    assert forall|i: int| 0 <= i < ns3.len() implies (match (#[trigger] ns3[i]).rank {
        Some(ss) => Some(ss@),
        None => None::<Seq<char>>,
    }) == spec_rank_of(rv, ns3[i].id as int) by {
        assert(ns3[i].rank == ns1[i].rank && ns3[i].id == ns1[i].id);
    }
    lemma_loaded(ns3, ixm, entries, rv, nrecs);
}

impl NcbiFileTaxonomy {
    /// Builds the in-memory store from the lines of `nodes.dmp` and
    /// `names.dmp`.
    ///
    /// Succeeds exactly when every node line parses, the distinct ids
    /// fit a 32-bit count, the parent records are acyclic, every name
    /// line parses, and every scientific-name row references a known
    /// id; the store then holds exactly what the records say (see
    /// `spec_loaded_ok`).  Otherwise the first failure is reported:
    /// `NodeFileFormatError` holds the offending line,
    /// `ParseIntError` the offending field, and `IntegrityError` a
    /// description of the size, cycle, or unknown-id defect.
    #[verifier::rlimit(100)]
    #[verifier::spinoff_prover]
    pub fn from_dump_lines(node_lines: &Vec<String>, name_lines: &Vec<String>) -> (r: Result<
        NcbiFileTaxonomy,
        NcbiTaxonomyError,
    >)
        ensures
            ({
                let nls = node_lines.deep_view();
                let mls = name_lines.deep_view();
                match r {
                    Ok(t) => {
                        &&& t.inv()
                        &&& spec_load_outcome(nls, mls) is Success
                        &&& (spec_node_records(nls) matches Ok(recs) && spec_loaded_ok(
                            t.spec_model(),
                            t.spec_names(),
                            recs,
                            spec_name_records(mls),
                        ))
                    },
                    Err(e) => match spec_load_outcome(nls, mls) {
                        LoadOutcome::Success => false,
                        LoadOutcome::NodeIssue { line, err } => match (e, err) {
                            (NcbiTaxonomyError::NodeFileFormatError(t2), LineError::Format) => 0
                                <= line < nls.len() && t2@ == nls[line],
                            (
                                NcbiTaxonomyError::ParseIntError(t2),
                                LineError::ParseInt(f),
                            ) => t2@ == f,
                            _ => false,
                        },
                        LoadOutcome::TooLarge => e matches NcbiTaxonomyError::IntegrityError(t2)
                            && t2@ == "the taxonomy holds more taxa than fit a 32-bit count"@,
                        LoadOutcome::Cycle => e matches NcbiTaxonomyError::IntegrityError(t2)
                            && t2@ == "the taxonomy parent records form a cycle"@,
                        LoadOutcome::NameProblem { line, err } => match (e, err) {
                            (NcbiTaxonomyError::NodeFileFormatError(t2), LineError::Format) => 0
                                <= line < mls.len() && t2@ == mls[line],
                            (
                                NcbiTaxonomyError::ParseIntError(t2),
                                LineError::ParseInt(f),
                            ) => t2@ == f,
                            _ => false,
                        },
                        LoadOutcome::NameUnknown { line } => e
                            matches NcbiTaxonomyError::IntegrityError(t2) && 0 <= line < mls.len()
                            && t2@ == mls[line],
                    },
                }
            }),
    {
        let ghost nls = node_lines.deep_view();
        let ghost mls = name_lines.deep_view();
        let recs = match parse_nodes(node_lines) {
            Ok(v) => v,
            Err(e) => {
                proof {
                    reveal(spec_load_outcome);
                    lemma_node_records_err_bounds(nls);
                }
                return Err(e);
            },
        };
        let ghost rv = recs_view(recs@);
        proof {
            lemma_records_bounds(nls, rv);
            assert forall|k: int|
                0 <= k < recs@.len() implies (#[trigger] recs@[k]).0 >= 0 && recs@[k].1 >= 0 by {
                assert(rv[k] == (recs@[k].0 as int, recs@[k].1 as int, recs@[k].2@));
            }
        }
        let pair = build_arena(&recs);
        let mut nodes = pair.0;
        let ix = pair.1;

        if nodes.len() > 0x7fff_ffff {
            proof {
                reveal(spec_load_outcome);
                assert(referenced_set(rv).len() > 0x7fff_ffff);
            }
            return Err(
                NcbiTaxonomyError::IntegrityError(
                    "the taxonomy holds more taxa than fit a 32-bit count".to_owned(),
                ),
            );
        }
        let ghost ns1 = nodes@;
        match assign_depths(&mut nodes) {
            Err(bad) => {
                proof {
                    reveal(spec_load_outcome);
                    lemma_steps_walk(ns1, rv, bad as int, (ns1.len() - 1) as nat);
                    assert(has_id(ns1, ns1[bad as int].id as int));
                    assert(referenced_set(rv).contains(ns1[bad as int].id as int));
                    assert(!spec_chains_ok(rv));
                }
                return Err(
                    NcbiTaxonomyError::IntegrityError(
                        "the taxonomy parent records form a cycle".to_owned(),
                    ),
                );
            },
            Ok(_u) => {},
        }
        let ghost ns2 = nodes@;
        proof {
            lemma_after_depths(ns1, ns2, ix@, rv);
            lemma_name_issue_bounds(mls, arena_ids(ns2));
        }
        let entries = match apply_names(&mut nodes, &ix, name_lines) {
            Ok(v) => v,
            Err(e) => {
                proof {
                    reveal(spec_load_outcome);
                }
                return Err(e);
            },
        };
        let ghost ns3 = nodes@;
        let t = NcbiFileTaxonomy { nodes, id_index: ix, name_index: entries };
        proof {
            lemma_finalize(ns1, ns2, ns3, ix@, entries@, rv, spec_name_records(mls));
            assert(t.index_wf());
            assert(t.names_wf());
            t.lemma_assemble();
            assert(t.spec_model() == nodes_model(ns3));
            assert(t.spec_names() == names_map(entries@));
            assert(first_name_issue(mls, referenced_set(rv)) is None) by {
                assert(first_name_issue(mls, arena_ids(ns2)) is None);
            }
            assert(spec_load_outcome(nls, mls) is Success) by {
                reveal(spec_load_outcome);
            }
        }
        Ok(t)
    }
}

} // verus!
