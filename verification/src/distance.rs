//! The nearest-common-ancestor distance algorithm, shared by both stores.
//!
//! The algorithm walks the first taxon's ancestor chain root-ward,
//! recording each landmark's accumulated distance, then walks the second
//! taxon's chain until it meets a recorded landmark.  Under the canonical
//! filter only taxa of the eight canonical ranks count as landmarks or
//! increment distance; a taxon with no rank data aborts the walk with "no
//! value".  Each store hands the walk its chains as plain values, so one
//! verified implementation serves both backends.

use vstd::prelude::*;
use crate::model::TaxonModel;
use crate::text::str_eq;

verus! {

/// How a taxon's rank stands to the canonical filter.
#[derive(Clone, Copy, Debug, PartialEq, Eq, Structural)]
pub enum RankClass {
    /// No rank data: the walk cannot pass this taxon.
    Missing,
    /// One of the eight canonical ranks.
    Canonical,
    /// Rank data present but not canonical.
    Other,
}

/// True when `r` is one of the eight canonical rank labels.
pub open spec fn is_canonical_rank(r: Seq<char>) -> bool {
    ||| r == "superkingdom"@
    ||| r == "kingdom"@
    ||| r == "phylum"@
    ||| r == "class"@
    ||| r == "order"@
    ||| r == "family"@
    ||| r == "genus"@
    ||| r == "species"@
}

/// Whether `r` is one of the eight canonical rank labels.
pub fn rank_is_canonical(r: &str) -> (b: bool)
    ensures
        b == is_canonical_rank(r@),
{
    str_eq(r, "superkingdom") || str_eq(r, "kingdom") || str_eq(r, "phylum") || str_eq(r, "class")
        || str_eq(r, "order") || str_eq(r, "family") || str_eq(r, "genus") || str_eq(
        r,
        "species",
    )
}

/// The rank class of `id` in model `m`.
pub open spec fn rank_class_of(m: Map<int, TaxonModel>, id: int) -> RankClass {
    if !m.contains_key(id) {
        RankClass::Missing
    } else {
        match m[id].rank {
            None => RankClass::Missing,
            Some(r) => if is_canonical_rank(r) {
                RankClass::Canonical
            } else {
                RankClass::Other
            },
        }
    }
}

/// Whether a landmark of class `rc` counts under the given filter.
pub open spec fn rank_passes(rc: RankClass, only_canonical: bool) -> bool {
    !only_canonical || rc is Canonical
}

/// Outcome of walking the first taxon's chain.
pub enum UpOutcome {
    /// The second taxon was met after `dist` counted steps.
    Found { dist: int },
    /// A taxon without rank data was met first.
    MissingRank,
    /// The chain ended; `keys` are the recorded landmarks.
    Exhausted { keys: Set<int> },
}

/// Outcome of walking the second taxon's chain against the landmarks.
pub enum JoinOutcome {
    /// Landmark `anc` was met after `dist` counted steps.
    Found { dist: int, anc: int },
    /// A taxon without rank data was met first.
    MissingRank,
    /// The chain ended without meeting a landmark.
    NotFound,
}

/// Walks the first chain looking for `target`, counting filtered steps
/// from `d` and recording passed landmarks into `keys`.
pub open spec fn walk_up(
    chain: Seq<(int, RankClass)>,
    target: int,
    oc: bool,
    d: int,
    keys: Set<int>,
) -> UpOutcome
    decreases chain.len(),
{
    if chain.len() == 0 {
        UpOutcome::Exhausted { keys }
    } else {
        let (a, rc) = chain[0];
        if rc is Missing {
            UpOutcome::MissingRank
        } else if rank_passes(rc, oc) {
            if a == target {
                UpOutcome::Found { dist: d + 1 }
            } else {
                walk_up(chain.drop_first(), target, oc, d + 1, keys.insert(a))
            }
        } else {
            walk_up(chain.drop_first(), target, oc, d, keys)
        }
    }
}

/// Walks the second chain, counting filtered steps from `d`, until a
/// recorded landmark is met.
pub open spec fn walk_join(
    chain: Seq<(int, RankClass)>,
    keys: Set<int>,
    oc: bool,
    d: int,
) -> JoinOutcome
    decreases chain.len(),
{
    if chain.len() == 0 {
        JoinOutcome::NotFound
    } else {
        let (a, rc) = chain[0];
        if rc is Missing {
            JoinOutcome::MissingRank
        } else if rank_passes(rc, oc) {
            if keys.contains(a) {
                JoinOutcome::Found { dist: d + 1, anc: a }
            } else {
                walk_join(chain.drop_first(), keys, oc, d + 1)
            }
        } else {
            walk_join(chain.drop_first(), keys, oc, d)
        }
    }
}

/// The distance and common-ancestor id computed from the two taxa's
/// chains, their ids, and the first taxon's own rank class.
pub open spec fn spec_lca_chains(
    id1: int,
    rc1: RankClass,
    chain1: Seq<(int, RankClass)>,
    id2: int,
    chain2: Seq<(int, RankClass)>,
    oc: bool,
) -> Option<(int, int)> {
    if id1 == id2 {
        Some((0, id1))
    } else if rc1 is Missing {
        None
    } else {
        let keys0 = if rank_passes(rc1, oc) {
            Set::empty().insert(id1)
        } else {
            Set::empty()
        };
        match walk_up(chain1, id2, oc, 0, keys0) {
            UpOutcome::Found { dist } => Some((dist, id2)),
            UpOutcome::MissingRank => None,
            UpOutcome::Exhausted { keys } => match walk_join(chain2, keys, oc, 0) {
                JoinOutcome::Found { dist, anc } => Some((dist, anc)),
                JoinOutcome::MissingRank => None,
                JoinOutcome::NotFound => None,
            },
        }
    }
}

/// The ancestor chain of `id` paired with each ancestor's rank class.
pub open spec fn chain_with_ranks(m: Map<int, TaxonModel>, id: int) -> Seq<(int, RankClass)> {
    Seq::new(m[id].ancestors.len(), |i: int| (m[id].ancestors[i], rank_class_of(m, m[id].ancestors[i])))
}

/// The distance and common-ancestor id for two taxa of model `m`: `None`
/// when either id is unknown, when rank data is missing on a walked
/// chain, or when the chains share no (filtered) landmark.
pub open spec fn spec_lca(m: Map<int, TaxonModel>, id1: int, id2: int, oc: bool) -> Option<
    (int, int),
> {
    if id1 == id2 {
        Some((0, id1))
    } else if !m.contains_key(id1) || !m.contains_key(id2) {
        None
    } else {
        spec_lca_chains(
            id1,
            rank_class_of(m, id1),
            chain_with_ranks(m, id1),
            id2,
            chain_with_ranks(m, id2),
            oc,
        )
    }
}

/// The distance alone.
pub open spec fn spec_lca_distance(m: Map<int, TaxonModel>, id1: int, id2: int, oc: bool) -> Option<
    int,
> {
    match spec_lca(m, id1, id2, oc) {
        Some(p) => Some(p.0),
        None => None,
    }
}

/// The distance alone, at the chain level.
pub open spec fn spec_lca_chains_distance(
    id1: int,
    rc1: RankClass,
    chain1: Seq<(int, RankClass)>,
    id2: int,
    chain2: Seq<(int, RankClass)>,
    oc: bool,
) -> Option<int> {
    match spec_lca_chains(id1, rc1, chain1, id2, chain2, oc) {
        Some(p) => Some(p.0),
        None => None,
    }
}

// ---------------------------------------------------------------------------
// executable walk, shared by both stores
// ---------------------------------------------------------------------------

/// The set of ids recorded in a scratch list.
pub open spec fn seq_int_set(s: Seq<i32>) -> Set<int> {
    Set::new(|y: int| exists|i: int| 0 <= i < s.len() && s[i] as int == y)
}

proof fn lemma_seq_int_set_push(s: Seq<i32>, x: i32)
    ensures
        seq_int_set(s.push(x)) =~= seq_int_set(s).insert(x as int),
{
    assert forall|y: int| seq_int_set(s.push(x)).contains(y) implies seq_int_set(s).insert(
        x as int,
    ).contains(y) by {
        let i = choose|i: int| 0 <= i < s.push(x).len() && s.push(x)[i] as int == y;
        if i < s.len() {
            assert(s[i] as int == y);
        }
    }
    assert forall|y: int| seq_int_set(s).insert(x as int).contains(y) implies seq_int_set(
        s.push(x),
    ).contains(y) by {
        if y == x as int {
            assert(s.push(x)[s.len() as int] as int == y);
        } else {
            let i = choose|i: int| 0 <= i < s.len() && s[i] as int == y;
            assert(s.push(x)[i] as int == y);
        }
    }
}

fn scratch_contains(v: &Vec<i32>, x: i32) -> (r: bool)
    ensures
        r == seq_int_set(v@).contains(x as int),
{
    let mut i: usize = 0;
    while i < v.len()
        invariant
            0 <= i <= v@.len(),
            forall|k: int| 0 <= k < i ==> v@[k] != x,
        decreases v@.len() - i,
    {
        if v[i] == x {
            return true;
        }
        i += 1;
    }
    assert(!seq_int_set(v@).contains(x as int)) by {
        if seq_int_set(v@).contains(x as int) {
            let k = choose|k: int| 0 <= k < v@.len() && v@[k] as int == x as int;
            assert(v@[k] == x);
        }
    }
    false
}

/// The chain view of an executable ranked chain.
pub open spec fn chain_view(s: Seq<(i32, RankClass)>) -> Seq<(int, RankClass)> {
    Seq::new(s.len(), |i: int| (s[i].0 as int, s[i].1))
}

/// Outcome of the executable first walk.
enum UpResult {
    Found(i32),
    MissingRank,
    Exhausted,
}

/// Outcome of the executable second walk: distance and ancestor met.
enum JoinResult {
    Found(i32, i32),
    MissingRank,
    NotFound,
}

/// Walks the first taxon's chain looking for `target`, pushing each
/// recorded landmark onto `recorded`.
fn run_walk_up(
    chain: &Vec<(i32, RankClass)>,
    target: i32,
    oc: bool,
    recorded: &mut Vec<i32>,
) -> (r: UpResult)
    requires
        chain@.len() <= 0x7fff_ffff,
    ensures
        match r {
            UpResult::Found(dd) => walk_up(
                chain_view(chain@),
                target as int,
                oc,
                0,
                seq_int_set(old(recorded)@),
            ) == (UpOutcome::Found { dist: dd as int }),
            UpResult::MissingRank => walk_up(
                chain_view(chain@),
                target as int,
                oc,
                0,
                seq_int_set(old(recorded)@),
            ) is MissingRank,
            UpResult::Exhausted => walk_up(
                chain_view(chain@),
                target as int,
                oc,
                0,
                seq_int_set(old(recorded)@),
            ) == (UpOutcome::Exhausted { keys: seq_int_set(final(recorded)@) }),
        },
{
    let ghost c = chain_view(chain@);
    let ghost keys0 = seq_int_set(recorded@);
    proof {
        assert(c.skip(0) =~= c);
    }
    let n = chain.len();
    let mut d: i32 = 0;
    let mut i: usize = 0;
    while i < n
        invariant
            i <= n,
            n == chain@.len() <= 0x7fff_ffff,
            0 <= d <= i,
            c == chain_view(chain@),
            keys0 == seq_int_set(old(recorded)@),
            walk_up(c, target as int, oc, 0, keys0) == walk_up(
                c.skip(i as int),
                target as int,
                oc,
                d as int,
                seq_int_set(recorded@),
            ),
        decreases n - i,
    {
        let (a, rc) = chain[i];
        proof {
            assert(c.skip(i as int).len() == n - i);
            assert(c.skip(i as int)[0] == (a as int, rc));
            assert(c.skip(i as int).drop_first() =~= c.skip(i as int + 1));
        }
        match rc {
            RankClass::Missing => {
                assert(walk_up(c.skip(i as int), target as int, oc, d as int, seq_int_set(
                    recorded@,
                )) is MissingRank);
                return UpResult::MissingRank;
            },
            _ => {
                if !oc || matches!(rc, RankClass::Canonical) {
                    d += 1;
                    if a == target {
                        assert(walk_up(c.skip(i as int), target as int, oc, d as int - 1,
                            seq_int_set(recorded@)) == (UpOutcome::Found { dist: d as int }));
                        return UpResult::Found(d);
                    }
                    proof {
                        lemma_seq_int_set_push(recorded@, a);
                    }
                    recorded.push(a);
                }
            },
        }
        i += 1;
    }
    proof {
        assert(c.skip(n as int) =~= Seq::<(int, RankClass)>::empty());
    }
    UpResult::Exhausted
}

/// Walks the second taxon's chain until a recorded landmark is met.
fn run_walk_join(chain: &Vec<(i32, RankClass)>, recorded: &Vec<i32>, oc: bool) -> (r: JoinResult)
    requires
        chain@.len() <= 0x7fff_ffff,
    ensures
        match r {
            JoinResult::Found(dd, aa) => walk_join(chain_view(chain@), seq_int_set(recorded@), oc, 0)
                == (JoinOutcome::Found { dist: dd as int, anc: aa as int }),
            JoinResult::MissingRank => walk_join(
                chain_view(chain@),
                seq_int_set(recorded@),
                oc,
                0,
            ) is MissingRank,
            JoinResult::NotFound => walk_join(
                chain_view(chain@),
                seq_int_set(recorded@),
                oc,
                0,
            ) is NotFound,
        },
{
    let ghost c = chain_view(chain@);
    let ghost keys = seq_int_set(recorded@);
    proof {
        assert(c.skip(0) =~= c);
    }
    let n = chain.len();
    let mut d: i32 = 0;
    let mut i: usize = 0;
    while i < n
        invariant
            i <= n,
            n == chain@.len() <= 0x7fff_ffff,
            0 <= d <= i,
            c == chain_view(chain@),
            keys == seq_int_set(recorded@),
            walk_join(c, keys, oc, 0) == walk_join(c.skip(i as int), keys, oc, d as int),
        decreases n - i,
    {
        let (a, rc) = chain[i];
        proof {
            assert(c.skip(i as int).len() == n - i);
            assert(c.skip(i as int)[0] == (a as int, rc));
            assert(c.skip(i as int).drop_first() =~= c.skip(i as int + 1));
        }
        match rc {
            RankClass::Missing => {
                assert(walk_join(c.skip(i as int), keys, oc, d as int) is MissingRank);
                return JoinResult::MissingRank;
            },
            _ => {
                if !oc || matches!(rc, RankClass::Canonical) {
                    d += 1;
                    if scratch_contains(recorded, a) {
                        assert(walk_join(c.skip(i as int), keys, oc, d as int - 1)
                            == (JoinOutcome::Found { dist: d as int, anc: a as int }));
                        return JoinResult::Found(d, a);
                    }
                }
            },
        }
        i += 1;
    }
    proof {
        assert(c.skip(n as int) =~= Seq::<(int, RankClass)>::empty());
    }
    JoinResult::NotFound
}

/// Computes the distance to the nearest common ancestor from the two
/// taxa's ranked chains, exactly as the chain-level specification says.
pub fn distance_walk(
    id1: i32,
    rc1: RankClass,
    chain1: &Vec<(i32, RankClass)>,
    id2: i32,
    chain2: &Vec<(i32, RankClass)>,
    only_canonical: bool,
) -> (r: Option<i32>)
    requires
        chain1@.len() <= 0x7fff_ffff,
        chain2@.len() <= 0x7fff_ffff,
    ensures
        ({
            let lcad = spec_lca_chains_distance(
                id1 as int,
                rc1,
                chain_view(chain1@),
                id2 as int,
                chain_view(chain2@),
                only_canonical,
            );
            match r {
                Some(d) => lcad == Some(d as int),
                None => lcad is None,
            }
        }),
{
    let ghost lca = spec_lca_chains(
        id1 as int,
        rc1,
        chain_view(chain1@),
        id2 as int,
        chain_view(chain2@),
        only_canonical,
    );
    if id1 == id2 {
        assert(lca == Some((0int, id1 as int)));
        return Some(0i32);
    }
    if matches!(rc1, RankClass::Missing) {
        return None;
    }
    let mut recorded: Vec<i32> = Vec::new();
    proof {
        assert(seq_int_set(Seq::<i32>::empty()) =~= Set::<int>::empty());
    }
    if !only_canonical || matches!(rc1, RankClass::Canonical) {
        proof {
            lemma_seq_int_set_push(recorded@, id1);
        }
        recorded.push(id1);
    }
    let ghost keys0: Set<int> = if rank_passes(rc1, only_canonical) {
        Set::empty().insert(id1 as int)
    } else {
        Set::empty()
    };
    proof {
        assert(seq_int_set(recorded@) =~= keys0);
    }
    match run_walk_up(chain1, id2, only_canonical, &mut recorded) {
        UpResult::Found(d) => {
            assert(lca == Some((d as int, id2 as int)));
            Some(d)
        },
        UpResult::MissingRank => None,
        UpResult::Exhausted => {
            match run_walk_join(chain2, &recorded, only_canonical) {
                JoinResult::Found(d, a) => {
                    assert(lca == Some((d as int, a as int)));
                    Some(d)
                },
                JoinResult::MissingRank => None,
                JoinResult::NotFound => None,
            }
        },
    }
}

} // verus!
