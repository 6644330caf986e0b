//! Laws of the query interface, proved once over the shared model so
//! they hold of both stores.

use vstd::prelude::*;
use crate::distance::{RankClass, UpOutcome, JoinOutcome, chain_with_ranks, rank_class_of,
    rank_passes, spec_lca, spec_lca_chains, spec_lca_distance, walk_join, walk_up};
use crate::model::{TaxonModel, lemma_no_self_ancestor, model_wf, spec_is_descendant};

verus! {

/// The distance from any taxon to its own nearest common ancestor is
/// zero, known id or not, under either filter.
pub proof fn lemma_distance_to_self(m: Map<int, TaxonModel>, x: int, only_canonical: bool)
    ensures
        spec_lca_distance(m, x, x, only_canonical) == Some(0int),
{
}

/// No taxon of a well-formed taxonomy is its own descendant.
pub proof fn lemma_not_own_descendant(m: Map<int, TaxonModel>, x: int)
    requires
        model_wf(m),
    ensures
        !spec_is_descendant(m, x, x),
{
    if m.contains_key(x) {
        lemma_no_self_ancestor(m, x);
    }
}

/// The first walk under the canonical filter can only do what the
/// unfiltered walk also does: find the target, or end with a subset of
/// the unfiltered landmarks.
proof fn lemma_walk_up_monotone(
    c: Seq<(int, RankClass)>,
    t: int,
    d1: int,
    d2: int,
    k1: Set<int>,
    k2: Set<int>,
)
    requires
        k1.subset_of(k2),
    ensures
        match walk_up(c, t, true, d1, k1) {
            UpOutcome::Found { .. } => walk_up(c, t, false, d2, k2) is Found,
            UpOutcome::MissingRank => true,
            UpOutcome::Exhausted { keys: kt } => match walk_up(c, t, false, d2, k2) {
                UpOutcome::Found { .. } => true,
                UpOutcome::MissingRank => false,
                UpOutcome::Exhausted { keys: kf } => kt.subset_of(kf),
            },
        },
    decreases c.len(),
{
    if c.len() > 0 {
        let (a, rc) = c[0];
        match rc {
            RankClass::Missing => {},
            RankClass::Canonical => {
                if a != t {
                    lemma_walk_up_monotone(
                        c.drop_first(),
                        t,
                        d1 + 1,
                        d2 + 1,
                        k1.insert(a),
                        k2.insert(a),
                    );
                }
            },
            RankClass::Other => {
                if a != t {
                    lemma_walk_up_monotone(c.drop_first(), t, d1, d2 + 1, k1, k2.insert(a));
                }
            },
        }
    }
}

/// A landmark the filtered second walk meets, the unfiltered walk also
/// meets, given at least the same landmarks to look for.
proof fn lemma_walk_join_monotone(
    c: Seq<(int, RankClass)>,
    k1: Set<int>,
    k2: Set<int>,
    d1: int,
    d2: int,
)
    requires
        k1.subset_of(k2),
        walk_join(c, k1, true, d1) is Found,
    ensures
        walk_join(c, k2, false, d2) is Found,
    decreases c.len(),
{
    if c.len() > 0 {
        let (a, rc) = c[0];
        match rc {
            RankClass::Missing => {},
            RankClass::Canonical => {
                if !k1.contains(a) {
                    if !k2.contains(a) {
                        lemma_walk_join_monotone(c.drop_first(), k1, k2, d1 + 1, d2 + 1);
                    }
                }
            },
            RankClass::Other => {
                if !k2.contains(a) {
                    lemma_walk_join_monotone(c.drop_first(), k1, k2, d1, d2 + 1);
                }
            },
        }
    }
}

/// Canonical filtering changes the distance, never creates an answer:
/// whenever the canonical-only walk finds a common ancestor, the
/// unfiltered walk finds one too.
pub proof fn lemma_canonical_filter_monotone(m: Map<int, TaxonModel>, a: int, b: int)
    ensures
        spec_lca_distance(m, a, b, true) is Some ==> spec_lca_distance(m, a, b, false) is Some,
{
    if a == b {
        return ;
    }
    if !m.contains_key(a) || !m.contains_key(b) {
        return ;
    }
    let rc1 = rank_class_of(m, a);
    if rc1 is Missing {
        return ;
    }
    let c1 = chain_with_ranks(m, a);
    let c2 = chain_with_ranks(m, b);
    let k1: Set<int> = if rank_passes(rc1, true) {
        Set::empty().insert(a)
    } else {
        Set::empty()
    };
    let k2: Set<int> = Set::empty().insert(a);
    assert(k1.subset_of(k2));
    lemma_walk_up_monotone(c1, b, 0, 0, k1, k2);
    match walk_up(c1, b, true, 0, k1) {
        UpOutcome::Found { .. } => {},
        UpOutcome::MissingRank => {},
        UpOutcome::Exhausted { keys: kt } => {
            match walk_up(c1, b, false, 0, k2) {
                UpOutcome::Found { .. } => {},
                UpOutcome::MissingRank => {},
                UpOutcome::Exhausted { keys: kf } => {
                    match walk_join(c2, kt, true, 0) {
                        JoinOutcome::Found { .. } => {
                            lemma_walk_join_monotone(c2, kt, kf, 0, 0);
                        },
                        _ => {},
                    }
                },
            }
        },
    }
}

/// A found target lies on the walked chain with a passing rank: the
/// witness position is returned.
proof fn lemma_walk_up_found_at(
    c: Seq<(int, RankClass)>,
    t: int,
    oc: bool,
    d: int,
    k: Set<int>,
) -> (j: int)
    requires
        walk_up(c, t, oc, d, k) is Found,
    ensures
        0 <= j < c.len(),
        c[j].0 == t,
        rank_passes(c[j].1, oc),
    decreases c.len(),
{
    let (a, rc) = c[0];
    if !(rc is Missing) && rank_passes(rc, oc) && a == t {
        0
    } else {
        let j = lemma_walk_up_found_at(c.drop_first(), t, oc, if rank_passes(rc, oc) {
            d + 1
        } else {
            d
        }, if rank_passes(rc, oc) {
            k.insert(a)
        } else {
            k
        },);
        j + 1
    }
}

/// An exhausted first walk saw no passing occurrence of the target, and
/// its landmarks are the starting ones plus the passing chain entries.
proof fn lemma_walk_up_exhausted(
    c: Seq<(int, RankClass)>,
    t: int,
    oc: bool,
    d: int,
    k: Set<int>,
    ks: Set<int>,
)
    requires
        walk_up(c, t, oc, d, k) == (UpOutcome::Exhausted { keys: ks }),
    ensures
        forall|i: int| 0 <= i < c.len() ==> !((#[trigger] c[i]).0 == t && rank_passes(c[i].1, oc)),
        forall|x: int| #[trigger]
            ks.contains(x) <==> (k.contains(x) || (exists|i: int|
                0 <= i < c.len() && (#[trigger] c[i]).0 == x && rank_passes(c[i].1, oc))),
    decreases c.len(),
{
    if c.len() == 0 {
        assert forall|x: int|
            #[trigger] ks.contains(x) <==> (k.contains(x) || (exists|i: int|
                0 <= i < c.len() && (#[trigger] c[i]).0 == x && rank_passes(c[i].1, oc))) by {}
    } else {
        let (a, rc) = c[0];
        let c1 = c.drop_first();
        if rc is Missing {
            // the walk would have stopped: contradicts exhaustion
            assert(false);
        } else {
            let krec: Set<int> = if rank_passes(rc, oc) {
                k.insert(a)
            } else {
                k
            };
            if rank_passes(rc, oc) {
                assert(a != t);
            }
            lemma_walk_up_exhausted(c1, t, oc, if rank_passes(rc, oc) {
                d + 1
            } else {
                d
            }, krec, ks);
            assert forall|i: int|
                0 <= i < c.len() implies !((#[trigger] c[i]).0 == t && rank_passes(
                c[i].1,
                oc,
            )) by {
                if i > 0 {
                    assert(c1[i - 1] == c[i]);
                }
            }
            assert forall|x: int| #[trigger]
                ks.contains(x) <==> (k.contains(x) || (exists|i: int|
                    0 <= i < c.len() && (#[trigger] c[i]).0 == x && rank_passes(c[i].1, oc))) by {
                if ks.contains(x) {
                    if !k.contains(x) {
                        if krec.contains(x) {
                            // only the head insert can have added it
                            assert(rank_passes(rc, oc) && x == a);
                            assert(c[0].0 == x && rank_passes(c[0].1, oc));
                        } else {
                            let i = choose|i: int|
                                0 <= i < c1.len() && (#[trigger] c1[i]).0 == x && rank_passes(
                                    c1[i].1,
                                    oc,
                                );
                            assert(c[i + 1].0 == x && rank_passes(c[i + 1].1, oc));
                        }
                    }
                }
                if !ks.contains(x) {
                    assert(!krec.contains(x));
                    assert(!k.contains(x));
                    if exists|i: int|
                        0 <= i < c.len() && (#[trigger] c[i]).0 == x && rank_passes(c[i].1, oc) {
                        let i = choose|i: int|
                            0 <= i < c.len() && (#[trigger] c[i]).0 == x && rank_passes(
                                c[i].1,
                                oc,
                            );
                        if i == 0 {
                            assert(krec.contains(x));
                        } else {
                            assert(c1[i - 1].0 == x && rank_passes(c1[i - 1].1, oc));
                        }
                        assert(false);
                    }
                }
            }
        }
    }
}

/// The landmark the second walk meets is the first passing chain entry
/// among the landmarks: the witness position is returned.
proof fn lemma_walk_join_found_at(c: Seq<(int, RankClass)>, k: Set<int>, oc: bool, d: int) -> (j:
    int)
    requires
        walk_join(c, k, oc, d) is Found,
    ensures
        0 <= j < c.len(),
        (match walk_join(c, k, oc, d) {
            JoinOutcome::Found { anc, .. } => anc,
            _ => 0,
        }) == c[j].0,
        rank_passes(c[j].1, oc),
        k.contains(c[j].0),
        forall|i: int|
            0 <= i < j ==> !(rank_passes((#[trigger] c[i]).1, oc) && k.contains(c[i].0)),
    decreases c.len(),
{
    let (a, rc) = c[0];
    if !(rc is Missing) && rank_passes(rc, oc) && k.contains(a) {
        0
    } else {
        let j = lemma_walk_join_found_at(c.drop_first(), k, oc, if rank_passes(rc, oc) {
            d + 1
        } else {
            d
        },);
        assert forall|i: int|
            0 <= i < j + 1 implies !(rank_passes((#[trigger] c[i]).1, oc) && k.contains(
            c[i].0,
        )) by {
            if i > 0 {
                assert(c.drop_first()[i - 1] == c[i]);
            }
        }
        j + 1
    }
}

/// The two directions of the distance query step toward the same
/// common ancestor: whatever `only_canonical` says, when both
/// directions find an ancestor it is one and the same taxon (the
/// distances themselves may differ, each being counted along its own
/// walk).
#[verifier::rlimit(100)]
#[verifier::spinoff_prover]
pub proof fn lemma_common_ancestor_symmetric(m: Map<int, TaxonModel>, a: int, b: int, oc: bool)
    requires
        model_wf(m),
    ensures
        match (spec_lca(m, a, b, oc), spec_lca(m, b, a, oc)) {
            (Some(p1), Some(p2)) => p1.1 == p2.1,
            _ => true,
        },
{
    if a == b {
        return ;
    }
    if !m.contains_key(a) || !m.contains_key(b) {
        return ;
    }
    let rca = rank_class_of(m, a);
    let rcb = rank_class_of(m, b);
    if rca is Missing || rcb is Missing {
        return ;
    }
    let anc_a = m[a].ancestors;
    let anc_b = m[b].ancestors;
    let c1 = chain_with_ranks(m, a);
    let c2 = chain_with_ranks(m, b);
    assert(c1.len() == anc_a.len() && c2.len() == anc_b.len());
    assert(forall|i: int|
        0 <= i < c1.len() ==> (#[trigger] c1[i]).0 == anc_a[i] && c1[i].1 == rank_class_of(
            m,
            anc_a[i],
        ));
    assert(forall|i: int|
        0 <= i < c2.len() ==> (#[trigger] c2[i]).0 == anc_b[i] && c2[i].1 == rank_class_of(
            m,
            anc_b[i],
        ));
    crate::model::lemma_chain_no_duplicates(m, a);
    crate::model::lemma_chain_no_duplicates(m, b);
    let k1: Set<int> = if rank_passes(rca, oc) {
        Set::empty().insert(a)
    } else {
        Set::empty()
    };
    let k2: Set<int> = if rank_passes(rcb, oc) {
        Set::empty().insert(b)
    } else {
        Set::empty()
    };
    let o1 = walk_up(c1, b, oc, 0, k1);
    let o2 = walk_up(c2, a, oc, 0, k2);
    match (o1, o2) {
        (UpOutcome::MissingRank, _) => {},
        (_, UpOutcome::MissingRank) => {},
        (UpOutcome::Found { .. }, UpOutcome::Found { .. }) => {
            // each taxon would be a strict ancestor of the other
            let jb = lemma_walk_up_found_at(c1, b, oc, 0, k1);
            let ja = lemma_walk_up_found_at(c2, a, oc, 0, k2);
            assert(anc_a.contains(b)) by {
                assert(anc_a[jb] == b);
            }
            assert(anc_b.contains(a)) by {
                assert(anc_b[ja] == a);
            }
            crate::model::lemma_ancestor_antisymmetric(m, a, b);
        },
        (UpOutcome::Found { .. }, UpOutcome::Exhausted { keys: ks2 }) => {
            // the first direction met `b` itself; show the second walk
            // joins at `b` too
            match walk_join(c1, ks2, oc, 0) {
                JoinOutcome::Found { .. } => {
                    let jb = lemma_walk_up_found_at(c1, b, oc, 0, k1);
                    lemma_walk_up_exhausted(c2, a, oc, 0, k2, ks2);
                    let jy = lemma_walk_join_found_at(c1, ks2, oc, 0);
                    let y = c1[jy].0;
                    assert(rank_passes(rank_class_of(m, b), oc)) by {
                        assert(c1[jb].1 == rank_class_of(m, b));
                    }
                    assert(ks2.contains(b)) by {
                        assert(k2.contains(b));
                    }
                    assert(jy <= jb);
                    if jy < jb {
                        assert(y != b) by {
                            if y == b {
                                assert(anc_a[jy] == anc_a[jb]);
                            }
                        }
                        // y stands below b on a's chain yet on b's chain
                        assert(anc_b.contains(y)) by {
                            if !k2.contains(y) {
                                let iy = choose|i: int|
                                    0 <= i < c2.len() && (#[trigger] c2[i]).0 == y && rank_passes(
                                        c2[i].1,
                                        oc,
                                    );
                                assert(anc_b[iy] == y);
                            }
                        }
                        crate::model::lemma_chain_suffix(m, a, jy);
                        assert(m[y].ancestors == anc_a.skip(jy + 1));
                        assert(m[y].ancestors.contains(b)) by {
                            assert(anc_a.skip(jy + 1)[jb - jy - 1] == b);
                        }
                        crate::model::lemma_ancestor_antisymmetric(m, b, y);
                    }
                    assert(y == b);
                },
                _ => {},
            }
        },
        (UpOutcome::Exhausted { keys: ks1 }, UpOutcome::Found { .. }) => {
            match walk_join(c2, ks1, oc, 0) {
                JoinOutcome::Found { .. } => {
                    let ja = lemma_walk_up_found_at(c2, a, oc, 0, k2);
                    lemma_walk_up_exhausted(c1, b, oc, 0, k1, ks1);
                    let jx = lemma_walk_join_found_at(c2, ks1, oc, 0);
                    let x = c2[jx].0;
                    assert(rank_passes(rank_class_of(m, a), oc)) by {
                        assert(c2[ja].1 == rank_class_of(m, a));
                    }
                    assert(ks1.contains(a)) by {
                        assert(k1.contains(a));
                    }
                    assert(jx <= ja);
                    if jx < ja {
                        assert(x != a) by {
                            if x == a {
                                assert(anc_b[jx] == anc_b[ja]);
                            }
                        }
                        assert(anc_a.contains(x)) by {
                            if !k1.contains(x) {
                                let ix = choose|i: int|
                                    0 <= i < c1.len() && (#[trigger] c1[i]).0 == x && rank_passes(
                                        c1[i].1,
                                        oc,
                                    );
                                assert(anc_a[ix] == x);
                            }
                        }
                        crate::model::lemma_chain_suffix(m, b, jx);
                        assert(m[x].ancestors == anc_b.skip(jx + 1));
                        assert(m[x].ancestors.contains(a)) by {
                            assert(anc_b.skip(jx + 1)[ja - jx - 1] == a);
                        }
                        crate::model::lemma_ancestor_antisymmetric(m, a, x);
                    }
                    assert(x == a);
                },
                _ => {},
            }
        },
        (UpOutcome::Exhausted { keys: ks1 }, UpOutcome::Exhausted { keys: ks2 }) => {
            match (walk_join(c2, ks1, oc, 0), walk_join(c1, ks2, oc, 0)) {
                (JoinOutcome::Found { .. }, JoinOutcome::Found { .. }) => {
                    lemma_walk_up_exhausted(c1, b, oc, 0, k1, ks1);
                    lemma_walk_up_exhausted(c2, a, oc, 0, k2, ks2);
                    let jx = lemma_walk_join_found_at(c2, ks1, oc, 0);
                    let jy = lemma_walk_join_found_at(c1, ks2, oc, 0);
                    let x = c2[jx].0;
                    let y = c1[jy].0;
                    // neither meeting point is one of the two taxa
                    assert(x != a) by {
                        if x == a {
                            assert(c2[jx].0 == a && rank_passes(c2[jx].1, oc));
                        }
                    }
                    assert(y != b) by {
                        if y == b {
                            assert(c1[jy].0 == b && rank_passes(c1[jy].1, oc));
                        }
                    }
                    // so each lies on both chains, with a passing rank
                    assert(ks1.contains(x));
                    assert(!k1.contains(x));
                    assert(exists|i: int|
                        0 <= i < c1.len() && (#[trigger] c1[i]).0 == x && rank_passes(
                            c1[i].1,
                            oc,
                        ));
                    let ix = choose|i: int|
                        0 <= i < c1.len() && (#[trigger] c1[i]).0 == x && rank_passes(
                            c1[i].1,
                            oc,
                        );
                    assert(ks2.contains(y));
                    assert(!k2.contains(y));
                    assert(exists|i: int|
                        0 <= i < c2.len() && (#[trigger] c2[i]).0 == y && rank_passes(
                            c2[i].1,
                            oc,
                        ));
                    let iy = choose|i: int|
                        0 <= i < c2.len() && (#[trigger] c2[i]).0 == y && rank_passes(
                            c2[i].1,
                            oc,
                        );
                    assert(0 <= ix < c1.len() && c1[ix].0 == x && rank_passes(c1[ix].1, oc));
                    assert(0 <= iy < c2.len() && c2[iy].0 == y && rank_passes(c2[iy].1, oc));
                    // each walk meets its landmark first
                    assert(ks1.contains(y)) by {
                        assert(c1[jy].0 == y && rank_passes(c1[jy].1, oc));
                    }
                    assert(ks2.contains(x)) by {
                        assert(c2[jx].0 == x && rank_passes(c2[jx].1, oc));
                    }
                    assert(jx <= iy) by {
                        if iy < jx {
                            assert(!(rank_passes(c2[iy].1, oc) && ks1.contains(c2[iy].0)));
                        }
                    }
                    assert(jy <= ix) by {
                        if ix < jy {
                            assert(!(rank_passes(c1[ix].1, oc) && ks2.contains(c1[ix].0)));
                        }
                    }
                    if x != y {
                        assert(jy < ix) by {
                            if jy == ix {
                                assert(c1[jy].0 == c1[ix].0);
                            }
                        }
                        assert(jx < iy) by {
                            if jx == iy {
                                assert(c2[jx].0 == c2[iy].0);
                            }
                        }
                        crate::model::lemma_chain_suffix(m, a, jy);
                        assert(m[y].ancestors == anc_a.skip(jy + 1));
                        assert(m[y].ancestors.contains(x)) by {
                            assert(anc_a.skip(jy + 1)[ix - jy - 1] == x);
                        }
                        crate::model::lemma_chain_suffix(m, b, jx);
                        assert(m[x].ancestors == anc_b.skip(jx + 1));
                        assert(m[x].ancestors.contains(y)) by {
                            assert(anc_b.skip(jx + 1)[iy - jx - 1] == y);
                        }
                        crate::model::lemma_ancestor_antisymmetric(m, x, y);
                    }
                    assert(x == y);
                },
                _ => {},
            }
        },
    }
}

} // verus!
