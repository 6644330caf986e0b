//! The in-memory taxonomy store: an arena-owned forest built from the
//! `nodes.dmp` / `names.dmp` dump files.
//!
//! Nodes live in an arena vector and are addressed by stable integer
//! handles; each node stores its parent handle (its own handle for a
//! root) and its depth, so root-ward walks are plain handle chasing and
//! provably terminate.  Lookup indices are rebuilt in full on load and
//! never mutated afterwards.

use vstd::prelude::*;
use std::collections::HashMap;
use crate::distance::{RankClass, chain_view, chain_with_ranks, distance_walk, is_canonical_rank,
    rank_class_of, rank_is_canonical};
use crate::codec::{format_ancestry, spec_join_ids};
use crate::model::{TaxonModel, model_wf, model_node_ok, spec_is_descendant};
use crate::models::NewTaxon;
use vstd::pervasive::unreached;

verus! {

broadcast use vstd::std_specs::hash::group_hash_axioms;

/// One arena node of the forest.
pub(crate) struct TaxonNodeData {
    /// The taxon id this node stands for.
    pub(crate) id: i32,
    /// The arena handle of the parent; a root points at itself.
    pub(crate) parent: usize,
    /// Distance to the root of this node's tree; `0` for a root.
    pub(crate) depth: usize,
    /// The rank label from `nodes.dmp`, when one was loaded.
    pub(crate) rank: Option<String>,
    /// The scientific name from `names.dmp`, when one was loaded.
    pub(crate) name: Option<String>,
}

/// The arena invariant: parents in range, ids non-negative and unique,
/// and depths consistent with the parent pointers (which makes every
/// root-ward walk terminate).
/// A non-root node sits one level below its parent.
#[verifier::opaque]
pub(crate) open spec fn depth_linked(ns: Seq<TaxonNodeData>, i: int) -> bool {
    ns[i].parent != i ==> ns[i].depth == ns[ns[i].parent as int].depth + 1
}

pub(crate) open spec fn nodes_ok(ns: Seq<TaxonNodeData>) -> bool {
    &&& ns.len() <= 0x7fff_ffff
    &&& (forall|i: int| 0 <= i < ns.len() ==> (#[trigger] ns[i]).parent < ns.len())
    &&& (forall|i: int| 0 <= i < ns.len() ==> (#[trigger] ns[i]).id >= 0)
    &&& (forall|i: int| 0 <= i < ns.len() ==> ((#[trigger] ns[i]).parent == i <==> ns[i].depth
        == 0))
    &&& (forall|i: int| 0 <= i < ns.len() ==> #[trigger] depth_linked(ns, i))
    &&& (forall|i: int| 0 <= i < ns.len() ==> (#[trigger] ns[i]).depth < ns.len())
    &&& (forall|i: int, j: int|
        0 <= i < ns.len() && 0 <= j < ns.len() && i != j ==> ns[i].id != ns[j].id)
}

/// The depth step of a non-root node, extracted from the invariant.
pub(crate) proof fn lemma_depth_linked(ns: Seq<TaxonNodeData>, i: int)
    requires
        nodes_ok(ns),
        0 <= i < ns.len(),
        ns[i].parent as int != i,
    ensures
        ns[i].depth == ns[ns[i].parent as int].depth + 1,
{
    assert(depth_linked(ns, i));
    reveal(depth_linked);
}

/// A node's chain is exactly as long as the node is deep.
pub(crate) proof fn lemma_chain_len(ns: Seq<TaxonNodeData>, i: int)
    requires
        nodes_ok(ns),
        0 <= i < ns.len(),
    ensures
        chain_from(ns, i).len() == ns[i].depth,
    decreases ns[i].depth,
{
    let p = ns[i].parent as int;
    if p != i {
        lemma_depth_linked(ns, i);
        lemma_chain_len(ns, p);
    }
}

/// Whether some arena node carries taxon id `id`.
pub(crate) open spec fn has_id(ns: Seq<TaxonNodeData>, id: int) -> bool {
    exists|i: int| 0 <= i < ns.len() && (#[trigger] ns[i]).id as int == id
}

/// The arena handle of the node carrying taxon id `id`.
pub(crate) open spec fn idx_of(ns: Seq<TaxonNodeData>, id: int) -> int {
    choose|i: int| 0 <= i < ns.len() && (#[trigger] ns[i]).id as int == id
}

pub(crate) proof fn lemma_idx_of(ns: Seq<TaxonNodeData>, id: int)
    requires
        has_id(ns, id),
    ensures
        0 <= idx_of(ns, id) < ns.len(),
        ns[idx_of(ns, id)].id as int == id,
{
}

/// With unique ids, the handle of a node's id is the node itself.
pub(crate) proof fn lemma_idx_of_node(ns: Seq<TaxonNodeData>, i: int)
    requires
        nodes_ok(ns),
        0 <= i < ns.len(),
    ensures
        has_id(ns, ns[i].id as int),
        idx_of(ns, ns[i].id as int) == i,
{
    assert(has_id(ns, ns[i].id as int));
    lemma_idx_of(ns, ns[i].id as int);
    let j = idx_of(ns, ns[i].id as int);
    if i != j {
        assert(ns[i].id != ns[j].id);
    }
}

/// The ancestor-id chain of the node at handle `i`, nearest first.
pub(crate) open spec fn chain_from(ns: Seq<TaxonNodeData>, i: int) -> Seq<int>
    decreases ns[i].depth,
    when nodes_ok(ns) && 0 <= i < ns.len()
    via chain_from_decreases
{
    let p = ns[i].parent as int;
    if p == i {
        Seq::<int>::empty()
    } else {
        seq![ns[p].id as int] + chain_from(ns, p)
    }
}

#[via_fn]
proof fn chain_from_decreases(ns: Seq<TaxonNodeData>, i: int) {
    let p = ns[i].parent as int;
    if p != i {
        lemma_depth_linked(ns, i);
    }
}

/// The model entry for the node at handle `i`.
pub(crate) open spec fn node_model(ns: Seq<TaxonNodeData>, i: int) -> TaxonModel {
    TaxonModel {
        ancestors: chain_from(ns, i),
        name: match ns[i].name {
            Some(s) => Some(s@),
            None => None,
        },
        rank: match ns[i].rank {
            Some(s) => Some(s@),
            None => None,
        },
    }
}

/// The abstract taxonomy of an arena.
pub(crate) open spec fn nodes_model(ns: Seq<TaxonNodeData>) -> Map<int, TaxonModel> {
    Map::new(|id: int| has_id(ns, id), |id: int| node_model(ns, idx_of(ns, id)))
}

/// The name index as a map, later entries having replaced earlier ones.
pub(crate) open spec fn names_map(entries: Seq<(String, i32)>) -> Map<Seq<char>, int> {
    Map::new(
        |n: Seq<char>| exists|p: int| 0 <= p < entries.len() && (#[trigger] entries[p]).0@ == n,
        |n: Seq<char>|
            entries[choose|p: int|
                0 <= p < entries.len() && (#[trigger] entries[p]).0@ == n].1 as int,
    )
}

/// The in-memory taxonomy store.
pub struct NcbiFileTaxonomy {
    /// The arena of nodes.
    pub(crate) nodes: Vec<TaxonNodeData>,
    /// Taxon id to arena handle.
    pub(crate) id_index: HashMap<i32, usize>,
    /// Scientific name to taxon id; keys are unique, the later-loaded
    /// entry having replaced the earlier on a collision.
    pub(crate) name_index: Vec<(String, i32)>,
}

impl NcbiFileTaxonomy {
    /// The id index agrees exactly with the arena.
    pub(crate) open spec fn index_wf(&self) -> bool {
        &&& (forall|k: i32|
            self.id_index@.contains_key(k) ==> (#[trigger] self.id_index@[k]) < self.nodes@.len()
                && self.nodes@[self.id_index@[k] as int].id == k)
        &&& (forall|i: int|
            0 <= i < self.nodes@.len() ==> self.id_index@.contains_key(
                (#[trigger] self.nodes@[i]).id,
            ) && self.id_index@[self.nodes@[i].id] as int == i)
    }

    /// Name-index keys are unique and point at known ids.
    pub(crate) open spec fn names_wf(&self) -> bool {
        &&& (forall|p: int, q: int|
            0 <= p < q < self.name_index@.len() ==> (#[trigger] self.name_index@[p]).0@ != (
            #[trigger] self.name_index@[q]).0@)
        &&& (forall|p: int|
            0 <= p < self.name_index@.len() ==> self.id_index@.contains_key(
                (#[trigger] self.name_index@[p]).1,
            ))
    }

    /// The store invariant: arena, id index and name index coherent.
    pub closed spec fn inv(&self) -> bool {
        &&& nodes_ok(self.nodes@)
        &&& self.index_wf()
        &&& self.names_wf()
    }

    /// The abstract taxonomy this store answers for.
    pub closed spec fn spec_model(&self) -> Map<int, TaxonModel> {
        nodes_model(self.nodes@)
    }

    /// The name index as a map.
    pub closed spec fn spec_names(&self) -> Map<Seq<char>, int> {
        names_map(self.name_index@)
    }

    /// The taxon id held by arena handle `i`, when the handle is live.
    pub closed spec fn spec_node_id(&self, i: int) -> Option<int> {
        if 0 <= i < self.nodes@.len() {
            Some(self.nodes@[i].id as int)
        } else {
            None
        }
    }

    /// The invariant and the abstract views, assembled from the parts
    /// the loader establishes.
    pub(crate) proof fn lemma_assemble(&self)
        requires
            nodes_ok(self.nodes@),
            self.index_wf(),
            self.names_wf(),
        ensures
            self.inv(),
            self.spec_model() == nodes_model(self.nodes@),
            self.spec_names() == names_map(self.name_index@),
    {
    }

    /// A well-formed arena models a well-formed taxonomy.
    pub proof fn lemma_inv_model_wf(&self)
        requires
            self.inv(),
        ensures
            model_wf(self.spec_model()),
            forall|n: Seq<char>| #[trigger]
                self.spec_names().contains_key(n) ==> self.spec_model().contains_key(
                    self.spec_names()[n],
                ),
    {
        let ns = self.nodes@;
        let m = self.spec_model();
        assert forall|id: int| #[trigger] m.contains_key(id) implies model_node_ok(m, id) by {
            let i = idx_of(ns, id);
            lemma_idx_of(ns, id);
            let p = ns[i].parent as int;
            if p != i {
                let anc = m[id].ancestors;
                assert(anc == seq![ns[p].id as int] + chain_from(ns, p));
                assert(anc[0] == ns[p].id as int);
                lemma_idx_of_node(ns, p);
                assert(m.contains_key(ns[p].id as int));
                assert(m[ns[p].id as int].ancestors == chain_from(ns, p));
                assert(anc.drop_first() =~= chain_from(ns, p));
            } else {
                assert(m[id].ancestors =~= Seq::<int>::empty());
            }
            crate::model::lemma_node_ok_fold(m, id);
        }
        assert forall|n: Seq<char>| #[trigger]
            self.spec_names().contains_key(n) implies self.spec_model().contains_key(
            self.spec_names()[n],
        ) by {
            let entries = self.name_index@;
            let p = choose|p: int| 0 <= p < entries.len() && (#[trigger] entries[p]).0@ == n;
            assert(self.id_index@.contains_key(entries[p].1));
            let i = self.id_index@[entries[p].1] as int;
            assert(ns[i].id == entries[p].1);
            assert(has_id(ns, entries[p].1 as int));
        }
    }

    /// The arena handle of a taxon id, when the taxonomy knows it.
    pub(crate) fn lookup(&self, taxid: i32) -> (r: Option<usize>)
        requires
            self.inv(),
        ensures
            match r {
                Some(i) => {
                    &&& i < self.nodes@.len()
                    &&& self.nodes@[i as int].id == taxid
                    &&& self.spec_model().contains_key(taxid as int)
                    &&& idx_of(self.nodes@, taxid as int) == i as int
                },
                None => !self.spec_model().contains_key(taxid as int),
            },
    {
        match self.id_index.get(&taxid) {
            Some(i) => {
                let idx = *i;
                proof {
                    lemma_idx_of_node(self.nodes@, idx as int);
                }
                Some(idx)
            },
            None => {
                proof {
                    if has_id(self.nodes@, taxid as int) {
                        let i = idx_of(self.nodes@, taxid as int);
                        lemma_idx_of(self.nodes@, taxid as int);
                        assert(self.id_index@.contains_key(self.nodes@[i].id));
                    }
                }
                None
            },
        }
    }

    /// The id held by the name-index entry matching `name`, if any.
    pub(crate) fn name_lookup(&self, name: &str) -> (r: Option<i32>)
        requires
            self.inv(),
        ensures
            match r {
                Some(v) => self.spec_names().contains_key(name@) && self.spec_names()[name@]
                    == v as int,
                None => !self.spec_names().contains_key(name@),
            },
    {
        let ghost entries = self.name_index@;
        let n = self.name_index.len();
        let mut p: usize = 0;
        while p < n
            invariant
                p <= n,
                n == self.name_index@.len(),
                entries == self.name_index@,
                self.inv(),
                forall|q: int| 0 <= q < p ==> (#[trigger] entries[q]).0@ != name@,
            decreases n - p,
        {
            if crate::text::str_eq(self.name_index[p].0.as_str(), name) {
                proof {
                    assert(entries[p as int].0@ == name@);
                    let q = choose|q: int|
                        0 <= q < entries.len() && (#[trigger] entries[q]).0@ == name@;
                    if q != p as int {
                        assert(entries[q].0@ != entries[p as int].0@);
                    }
                }
                return Some(self.name_index[p].1);
            }
            p += 1;
        }
        proof {
            if self.spec_names().contains_key(name@) {
                let q = choose|q: int|
                    0 <= q < entries.len() && (#[trigger] entries[q]).0@ == name@;
                assert(entries[q].0@ != name@);
            }
        }
        None
    }

    /// The arena handle for a taxon id; `None` for an unknown id.
    pub fn get_node_by_id(&self, id: i32) -> (r: Option<usize>)
        requires
            self.inv(),
        ensures
            match r {
                Some(i) => self.spec_node_id(i as int) == Some(id as int)
                    && self.spec_model().contains_key(id as int),
                None => !self.spec_model().contains_key(id as int),
            },
    {
        self.lookup(id)
    }

    /// The ancestor chain of the node at handle `i`, nearest first, each
    /// ancestor paired with its rank class.
    #[verifier::rlimit(100)]
    #[verifier::spinoff_prover]
    pub(crate) fn ranked_chain(&self, i: usize) -> (r: Vec<(i32, RankClass)>)
        requires
            self.inv(),
            i < self.nodes@.len(),
        ensures
            chain_view(r@) == chain_with_ranks(
                self.spec_model(),
                self.nodes@[i as int].id as int,
            ),
            r@.len() <= 0x7fff_ffff,
            forall|k: int| 0 <= k < r@.len() ==> 0 <= (#[trigger] r@[k]).0,
    {
        let ghost ns = self.nodes@;
        let ghost m = self.spec_model();
        let ghost id0: int = ns[i as int].id as int;
        proof {
            lemma_idx_of_node(ns, i as int);
            lemma_chain_len(ns, i as int);
        }
        let ghost chain: Seq<int> = chain_from(ns, i as int);
        let mut out: Vec<(i32, RankClass)> = Vec::new();
        let ghost mut idxs: Seq<int> = Seq::empty();
        let mut cur: usize = i;
        proof {
            assert(chain.skip(0) =~= chain);
        }
        while self.nodes[cur].parent != cur
            invariant
                nodes_ok(ns),
                cur < ns.len(),
                ns == self.nodes@,
                chain == chain_from(ns, i as int),
                out@.len() <= chain.len(),
                idxs.len() == out@.len(),
                chain.skip(out@.len() as int) == chain_from(ns, cur as int),
                forall|k: int| 0 <= k < out@.len() ==> 0 <= (#[trigger] out@[k]).0,
                forall|k: int|
                    0 <= k < out@.len() ==> 0 <= #[trigger] idxs[k] < ns.len() && ns[idxs[k]].id
                        as int == chain[k] && (#[trigger] out@[k]).0 == ns[idxs[k]].id && out@[k].1
                        == (match ns[idxs[k]].rank {
                        Some(s) => if is_canonical_rank(s@) {
                            RankClass::Canonical
                        } else {
                            RankClass::Other
                        },
                        None => RankClass::Missing,
                    }),
            decreases ns[cur as int].depth,
        {
            let ghost olen = out@.len() as int;
            let p = self.nodes[cur].parent;
            proof {
                lemma_depth_linked(ns, cur as int);
                assert(chain_from(ns, cur as int) == seq![ns[p as int].id as int] + chain_from(
                    ns,
                    p as int,
                ));
                assert(chain.skip(olen)[0] == ns[p as int].id as int);
                assert(chain[olen] == ns[p as int].id as int);
            }
            let pid = self.nodes[p].id;
            let rc = match &self.nodes[p].rank {
                Some(s) => {
                    if rank_is_canonical(s.as_str()) {
                        RankClass::Canonical
                    } else {
                        RankClass::Other
                    }
                },
                None => RankClass::Missing,
            };
            out.push((pid, rc));
            proof {
                idxs = idxs.push(p as int);
                assert(chain.skip(olen + 1) =~= chain.skip(olen).drop_first());
                assert(chain.skip(out@.len() as int) == chain_from(ns, p as int));
            }
            cur = p;
        }
        proof {
            assert(chain_from(ns, cur as int) =~= Seq::<int>::empty());
            assert(out@.len() == chain.len());
            lemma_idx_of_node(ns, i as int);
            assert(m.contains_key(id0));
            assert(m[id0].ancestors == chain);
            assert forall|k: int| 0 <= k < chain.len() implies chain_view(out@)[k]
                == chain_with_ranks(m, id0)[k] by {
                lemma_idx_of_node(ns, idxs[k]);
                assert(m.contains_key(chain[k]));
                assert(m[chain[k]] == node_model(ns, idxs[k]));
                assert(rank_class_of(m, chain[k]) == out@[k].1);
            }
            assert(chain_view(out@) =~= chain_with_ranks(m, id0));
        }
        out
    }

    /// Whether `anc` lies on the root-ward walk from handle `i`.
    pub(crate) fn is_descendant_idx(&self, i: usize, anc: i32) -> (r: bool)
        requires
            self.inv(),
            i < self.nodes@.len(),
        ensures
            r == chain_from(self.nodes@, i as int).contains(anc as int),
    {
        let ghost ns = self.nodes@;
        let ghost chain: Seq<int> = chain_from(ns, i as int);
        let ghost mut seen: Seq<int> = Seq::empty();
        let mut cur: usize = i;
        proof {
            assert(chain =~= seen + chain_from(ns, cur as int));
        }
        while self.nodes[cur].parent != cur
            invariant
                nodes_ok(ns),
                cur < ns.len(),
                ns == self.nodes@,
                chain == chain_from(ns, i as int),
                chain == seen + chain_from(ns, cur as int),
                !seen.contains(anc as int),
            decreases ns[cur as int].depth,
        {
            let p = self.nodes[cur].parent;
            proof {
                lemma_depth_linked(ns, cur as int);
                assert(chain_from(ns, cur as int) == seq![ns[p as int].id as int] + chain_from(
                    ns,
                    p as int,
                ));
            }
            if self.nodes[p].id == anc {
                proof {
                    assert(chain[seen.len() as int] == anc as int);
                    assert(chain.contains(anc as int));
                }
                return true;
            }
            proof {
                let e: int = ns[p as int].id as int;
                let seen2 = seen + seq![e];
                assert(!seen2.contains(anc as int)) by {
                    if seen2.contains(anc as int) {
                        let k = choose|k: int| 0 <= k < seen2.len() && seen2[k] == anc as int;
                        if k < seen.len() {
                            assert(seen[k] == anc as int);
                        } else {
                            assert(e == anc as int);
                        }
                    }
                }
                seen = seen2;
                assert(chain =~= seen + chain_from(ns, p as int));
            }
            cur = p;
        }
        proof {
            assert(chain_from(ns, cur as int) =~= Seq::<int>::empty());
            assert(chain =~= seen);
        }
        false
    }

    /// The taxon id held by an arena handle; `None` for a dead handle.
    pub fn get_id_by_node(&self, node_id: usize) -> (r: Option<i32>)
        requires
            self.inv(),
        ensures
            match r {
                Some(v) => self.spec_node_id(node_id as int) == Some(v as int),
                None => self.spec_node_id(node_id as int) is None,
            },
    {
        if node_id < self.nodes.len() {
            Some(self.nodes[node_id].id)
        } else {
            None
        }
    }
}

/// One exported record speaks for one taxon of the model: the ancestry
/// column joins the ancestor ids oldest-first (absent for a root), and
/// name and rank are the taxon's.
#[verifier::opaque]
pub open spec fn spec_export_rec_ok(m: Map<int, TaxonModel>, rec: NewTaxon) -> bool {
    let id = rec.id as int;
    &&& m.contains_key(id)
    &&& (match rec.ancestry {
        None => m[id].ancestors.len() == 0,
        Some(s) => m[id].ancestors.len() > 0 && s@ == spec_join_ids(m[id].ancestors.reverse()),
    })
    &&& Some(rec.name@) == m[id].name
    &&& (match rec.rank {
        Some(s) => Some(s@),
        None => None::<Seq<char>>,
    }) == m[id].rank
}

impl NcbiFileTaxonomy {
    /// Walks the forest once and emits one persisted record per taxon:
    /// id, the `/`-joined root-to-parent ancestry (absent for a root),
    /// name and rank.  Every taxon must carry a name, as the persisted
    /// schema requires one per row.
    #[verifier::rlimit(100)]
    #[verifier::spinoff_prover]
    pub fn export_records(&self) -> (r: Vec<NewTaxon>)
        requires
            self.inv(),
            forall|id: int| #[trigger]
                self.spec_model().contains_key(id) ==> self.spec_model()[id].name is Some,
        ensures
            ({
                let m = self.spec_model();
                &&& (forall|k: int| 0 <= k < r@.len() ==> spec_export_rec_ok(m, #[trigger] r@[k]))
                &&& (forall|id: int| #[trigger]
                    m.contains_key(id) ==> exists|k: int|
                        0 <= k < r@.len() && (#[trigger] r@[k]).id as int == id)
                &&& (forall|k1: int, k2: int|
                    0 <= k1 < r@.len() && 0 <= k2 < r@.len() && k1 != k2 ==> r@[k1].id != r@[
                        k2
                    ].id)
            }),
    {
        let ghost ns = self.nodes@;
        let ghost m = self.spec_model();
        proof {
            self.lemma_inv_model_wf();
        }
        let n = self.nodes.len();
        let mut out: Vec<NewTaxon> = Vec::new();
        let mut i: usize = 0;
        while i < n
            invariant
                i <= n,
                n == ns.len(),
                ns == self.nodes@,
                m == self.spec_model(),
                self.inv(),
                model_wf(m),
                forall|id: int| #[trigger] m.contains_key(id) ==> m[id].name is Some,
                out@.len() == i,
                forall|k: int| 0 <= k < i ==> (#[trigger] out@[k]).id == ns[k].id,
                forall|k: int| 0 <= k < i ==> spec_export_rec_ok(m, #[trigger] out@[k]),
            decreases n - i,
        {
            proof {
                lemma_idx_of_node(ns, i as int);
                assert(m.contains_key(ns[i as int].id as int));
                assert(m[ns[i as int].id as int] == node_model(ns, i as int));
                assert(ns[i as int].name is Some);
            }
            let rec = self.export_one(i);
            out.push(rec);
            i += 1;
        }
        proof {
            assert forall|id: int| #[trigger] m.contains_key(id) implies exists|k: int|
                0 <= k < out@.len() && (#[trigger] out@[k]).id as int == id by {
                assert(has_id(ns, id));
                let w = choose|w: int| 0 <= w < ns.len() && (#[trigger] ns[w]).id as int == id;
                assert(out@[w].id as int == id);
            }
        }
        out
    }

    /// The persisted record for the node at handle `i`.
    #[verifier::rlimit(100)]
    #[verifier::spinoff_prover]
    fn export_one(&self, i: usize) -> (rec: NewTaxon)
        requires
            self.inv(),
            i < self.nodes@.len(),
            self.nodes@[i as int].name is Some,
        ensures
            spec_export_rec_ok(self.spec_model(), rec),
            rec.id == self.nodes@[i as int].id,
    {
        let ghost ns = self.nodes@;
        let ghost m = self.spec_model();
        let ghost id0: int = ns[i as int].id as int;
        proof {
            lemma_idx_of_node(ns, i as int);
            assert(m.contains_key(id0));
            assert(m[id0] == node_model(ns, i as int));
        }
        let ranked = self.ranked_chain(i);
        let ghost chain: Seq<int> = m[id0].ancestors;
        proof {
            assert(chain_view(ranked@).len() == ranked@.len());
            assert(chain_with_ranks(m, id0).len() == chain.len());
            assert forall|k: int| 0 <= k < ranked@.len() implies (#[trigger] ranked@[k]).0 as int
                == chain[k] by {
                assert(chain_view(ranked@)[k].0 == ranked@[k].0 as int);
                assert(chain_view(ranked@)[k] == chain_with_ranks(m, id0)[k]);
                assert(chain_with_ranks(m, id0)[k].0 == chain[k]);
            }
        }
        let cl = ranked.len();
        let mut rev: Vec<i32> = Vec::new();
        let mut j: usize = cl;
        while j > 0
            invariant
                j <= cl,
                cl == ranked@.len(),
                chain.len() == cl,
                rev@.len() == cl - j,
                forall|k: int| 0 <= k < ranked@.len() ==> 0 <= (#[trigger] ranked@[k]).0,
                forall|k: int| 0 <= k < ranked@.len() ==> (#[trigger] ranked@[k]).0 as int
                    == chain[k],
                forall|k: int| 0 <= k < rev@.len() ==> 0 <= (#[trigger] rev@[k]) && rev@[k] as int
                    == chain[cl - 1 - k],
            decreases j,
        {
            j -= 1;
            let e = ranked[j].0;
            rev.push(e);
        }
        proof {
            assert(rev@.map_values(|x: i32| x as int) =~= chain.reverse());
            assert(forall|k: int| 0 <= k < rev@.len() ==> 0 <= #[trigger] rev@[k]);
        }
        let ancestry: Option<String> = if rev.len() == 0 {
            None
        } else {
            Some(format_ancestry(&rev))
        };
        let name: String = match &self.nodes[i].name {
            Some(s) => s.clone(),
            None => {
                proof {
                    assert(false);
                }
                unreached()
            },
        };
        let rank: Option<String> = match &self.nodes[i].rank {
            Some(s) => Some(s.clone()),
            None => None,
        };
        let rec = NewTaxon { id: self.nodes[i].id, ancestry, name, rank };
        proof {
            reveal(spec_export_rec_ok);
            assert(rec.id as int == id0);
            assert(m.contains_key(id0));
            assert(Some(rec.name@) == m[id0].name);
            assert((match rec.rank {
                Some(ss) => Some(ss@),
                None => None::<Seq<char>>,
            }) == m[id0].rank);
            if rec.ancestry is Some {
                let ss = rec.ancestry->Some_0;
                assert(chain.len() > 0);
                assert(ss@ == spec_join_ids(rev@.map_values(|x: i32| x as int)));
                assert(rev@.map_values(|x: i32| x as int) == chain.reverse());
            } else {
                assert(m[id0].ancestors.len() == 0);
            }
            assert(spec_export_rec_ok(m, rec));
        }
        rec
    }

    /// The ids of the subtree rooted at `from`: the taxon itself and
    /// every taxon descending from it, each exactly once, in arena
    /// order; `None` for an unknown id.
    #[verifier::rlimit(100)]
    #[verifier::spinoff_prover]
    pub fn traversal(&self, from: i32) -> (r: Option<Vec<i32>>)
        requires
            self.inv(),
        ensures
            match r {
                Some(v) => {
                    &&& self.spec_model().contains_key(from as int)
                    &&& (forall|k1: int, k2: int|
                        0 <= k1 < v@.len() && 0 <= k2 < v@.len() && k1 != k2 ==> v@[k1] != v@[k2])
                    &&& (forall|k: int|
                        0 <= k < v@.len() ==> ((#[trigger] v@[k]) == from || spec_is_descendant(
                            self.spec_model(),
                            v@[k] as int,
                            from as int,
                        )))
                    &&& (forall|x: i32|
                        (x == from || spec_is_descendant(
                            self.spec_model(),
                            x as int,
                            from as int,
                        )) ==> v@.contains(x))
                },
                None => !self.spec_model().contains_key(from as int),
            },
    {
        let ghost ns = self.nodes@;
        let ghost m = self.spec_model();
        match self.lookup(from) {
            None => None,
            Some(_) => {
                let n = self.nodes.len();
                let mut out: Vec<i32> = Vec::new();
                let mut i: usize = 0;
                while i < n
                    invariant
                        i <= n,
                        n == ns.len(),
                        ns == self.nodes@,
                        m == self.spec_model(),
                        self.inv(),
                        m.contains_key(from as int),
                        forall|k1: int, k2: int|
                            0 <= k1 < out@.len() && 0 <= k2 < out@.len() && k1 != k2 ==> out@[k1]
                                != out@[k2],
                        forall|k: int|
                            0 <= k < out@.len() ==> ((#[trigger] out@[k]) == from
                                || spec_is_descendant(m, out@[k] as int, from as int)),
                        forall|j: int|
                            0 <= j < i ==> ((ns[j].id == from || spec_is_descendant(
                                m,
                                (#[trigger] ns[j]).id as int,
                                from as int,
                            )) <==> out@.contains(ns[j].id)),
                        forall|k: int|
                            0 <= k < out@.len() ==> exists|j: int|
                                0 <= j < i && (#[trigger] out@[k]) == ns[j].id,
                    decreases n - i,
                {
                    let nid = self.nodes[i].id;
                    let ghost out0 = out@;
                    proof {
                        lemma_idx_of_node(ns, i as int);
                        assert(m.contains_key(nid as int));
                        assert(m[nid as int].ancestors == chain_from(ns, i as int));
                    }
                    if nid == from || self.is_descendant_idx(i, from) {
                        proof {
                            assert(!out0.contains(nid)) by {
                                if out0.contains(nid) {
                                    let k = choose|k: int|
                                        0 <= k < out0.len() && out0[k] == nid;
                                    let j = choose|j: int|
                                        0 <= j < i && (#[trigger] out0[k]) == ns[j].id;
                                    assert(ns[j].id == ns[i as int].id);
                                }
                            }
                        }
                        out.push(nid);
                    }
                    proof {
                        assert forall|j: int|
                            0 <= j < i + 1 implies ((ns[j].id == from || spec_is_descendant(
                            m,
                            (#[trigger] ns[j]).id as int,
                            from as int,
                        )) <==> out@.contains(ns[j].id)) by {
                            if j < i {
                                assert(out0.contains(ns[j].id) ==> out@.contains(ns[j].id)) by {
                                    if out0.contains(ns[j].id) {
                                        let k = choose|k: int|
                                            0 <= k < out0.len() && out0[k] == ns[j].id;
                                        assert(out@[k] == ns[j].id);
                                    }
                                }
                                assert(out@.contains(ns[j].id) ==> (ns[j].id == from
                                    || spec_is_descendant(m, ns[j].id as int, from as int))) by {
                                    if out@.contains(ns[j].id) {
                                        let k = choose|k: int|
                                            0 <= k < out@.len() && out@[k] == ns[j].id;
                                    }
                                }
                            } else {
                                if ns[j].id == from || spec_is_descendant(
                                    m,
                                    ns[j].id as int,
                                    from as int,
                                ) {
                                    assert(out@[out@.len() - 1] == ns[j].id);
                                    assert(out@.contains(ns[j].id));
                                } else {
                                    if out@.contains(ns[j].id) {
                                        let k = choose|k: int|
                                            0 <= k < out@.len() && out@[k] == ns[j].id;
                                        assert(k < out0.len() ==> (out0[k] == from
                                            || spec_is_descendant(
                                            m,
                                            out0[k] as int,
                                            from as int,
                                        )));
                                    }
                                }
                            }
                        }
                    }
                    i += 1;
                }
                proof {
                    assert forall|x: i32|
                        (x == from || spec_is_descendant(m, x as int, from as int)) implies
                        out@.contains(x) by {
                        assert(m.contains_key(x as int));
                        assert(has_id(ns, x as int));
                        let w = choose|w: int|
                            0 <= w < ns.len() && (#[trigger] ns[w]).id as int == x as int;
                        assert(ns[w].id == x);
                        assert(out@.contains(ns[w].id));
                    }
                }
                Some(out)
            },
        }
    }
}

impl crate::interface::NcbiTaxonomy for NcbiFileTaxonomy {
    open spec fn model(&self) -> Map<int, TaxonModel> {
        self.spec_model()
    }

    open spec fn names(&self) -> Map<Seq<char>, int> {
        self.spec_names()
    }

    open spec fn wf(&self) -> bool {
        self.inv()
    }

    proof fn lemma_model_wf(&self) {
        self.lemma_inv_model_wf();
    }

    fn contains_id(&self, taxid: i32) -> (r: bool) {
        match self.lookup(taxid) {
            Some(_) => true,
            None => false,
        }
    }

    fn contains_name(&self, name: &str) -> (r: bool) {
        match self.name_lookup(name) {
            Some(_) => true,
            None => false,
        }
    }

    fn is_descendant(&self, name: &str, ancestor_name: &str) -> (r: bool) {
        let id = match self.name_lookup(name) {
            Some(id) => id,
            None => {
                return false;
            },
        };
        let ancestor_id = match self.name_lookup(ancestor_name) {
            Some(id) => id,
            None => {
                return false;
            },
        };
        self.is_descendant_taxid(id, ancestor_id)
    }

    fn is_descendant_taxid(&self, taxid: i32, ancestor_taxid: i32) -> (r: bool) {
        let i = match self.lookup(taxid) {
            Some(i) => i,
            None => {
                return false;
            },
        };
        match self.lookup(ancestor_taxid) {
            Some(_) => {},
            None => {
                return false;
            },
        };
        let r = self.is_descendant_idx(i, ancestor_taxid);
        proof {
            assert(self.spec_model()[taxid as int].ancestors == chain_from(
                self.nodes@,
                i as int,
            ));
        }
        r
    }

    fn get_name_by_id(&self, taxid: i32) -> (r: Option<String>) {
        match self.lookup(taxid) {
            Some(i) => {
                match &self.nodes[i].name {
                    Some(s) => Some(s.clone()),
                    None => None,
                }
            },
            None => None,
        }
    }

    fn get_id_by_name(&self, name: &str) -> (r: Option<i32>) {
        self.name_lookup(name)
    }

    fn get_distance_to_common_ancestor_taxid(
        &self,
        taxid1: i32,
        taxid2: i32,
        only_canonical: bool,
    ) -> (r: Option<i32>) {
        let ghost m = self.spec_model();
        if taxid1 == taxid2 {
            return Some(0i32);
        }
        let i1 = match self.lookup(taxid1) {
            Some(i) => i,
            None => {
                return None;
            },
        };
        let i2 = match self.lookup(taxid2) {
            Some(i) => i,
            None => {
                return None;
            },
        };
        let rc1 = match &self.nodes[i1].rank {
            Some(s) => {
                if rank_is_canonical(s.as_str()) {
                    RankClass::Canonical
                } else {
                    RankClass::Other
                }
            },
            None => RankClass::Missing,
        };
        proof {
            lemma_idx_of_node(self.nodes@, i1 as int);
            assert(m[taxid1 as int] == node_model(self.nodes@, i1 as int));
            assert(rc1 == rank_class_of(m, taxid1 as int));
        }
        let chain1 = self.ranked_chain(i1);
        let chain2 = self.ranked_chain(i2);
        distance_walk(taxid1, rc1, &chain1, taxid2, &chain2, only_canonical)
    }

    fn get_distance_to_common_ancestor(
        &self,
        name1: &str,
        name2: &str,
        only_canonical: bool,
    ) -> (r: Option<i32>) {
        let taxid1 = match self.name_lookup(name1) {
            Some(id) => id,
            None => {
                return None;
            },
        };
        let taxid2 = match self.name_lookup(name2) {
            Some(id) => id,
            None => {
                return None;
            },
        };
        self.get_distance_to_common_ancestor_taxid(taxid1, taxid2, only_canonical)
    }
}

} // verus!
