//! The mathematical model shared by the two taxonomy stores: a finite map
//! from taxon id to the taxon's ancestor chain (nearest ancestor first),
//! optional scientific name, and optional rank.  Both stores prove their
//! queries against this one model, which is what makes them
//! interchangeable.

use vstd::prelude::*;

verus! {

/// What the model records of one taxon.
pub struct TaxonModel {
    /// The ids on the root-ward walk from this taxon, nearest first
    /// (parent, grandparent, ..., root).  Empty for a root.
    pub ancestors: Seq<int>,
    /// The scientific name, when one was loaded.
    pub name: Option<Seq<char>>,
    /// The rank label, when one was loaded.
    pub rank: Option<Seq<char>>,
}

/// The chain of one taxon is coherent with its parent's chain.
#[verifier::opaque]
pub open spec fn model_node_ok(m: Map<int, TaxonModel>, id: int) -> bool {
    m[id].ancestors.len() > 0 ==> {
        &&& m.contains_key(m[id].ancestors[0])
        &&& m[m[id].ancestors[0]].ancestors == m[id].ancestors.drop_first()
    }
}

/// Well-formedness of a taxonomy model: every recorded ancestor chain is
/// the parent followed by the parent's own chain.
pub open spec fn model_wf(m: Map<int, TaxonModel>) -> bool {
    forall|id: int| #[trigger] m.contains_key(id) ==> model_node_ok(m, id)
}

/// `id` descends from `anc`: both are known and `anc` lies on `id`'s
/// root-ward walk (a taxon is not its own descendant).
pub open spec fn spec_is_descendant(m: Map<int, TaxonModel>, id: int, anc: int) -> bool {
    &&& m.contains_key(id)
    &&& m.contains_key(anc)
    &&& m[id].ancestors.contains(anc)
}

/// One taxon's coherence, unfolded.
pub proof fn lemma_node_ok_unfold(m: Map<int, TaxonModel>, id: int)
    requires
        model_wf(m),
        m.contains_key(id),
        m[id].ancestors.len() > 0,
    ensures
        m.contains_key(m[id].ancestors[0]),
        m[m[id].ancestors[0]].ancestors == m[id].ancestors.drop_first(),
{
    assert(model_node_ok(m, id));
    reveal(model_node_ok);
}

/// One taxon's coherence, folded from its parts.
pub proof fn lemma_node_ok_fold(m: Map<int, TaxonModel>, id: int)
    requires
        m[id].ancestors.len() > 0 ==> m.contains_key(m[id].ancestors[0]) && m[m[
            id
        ].ancestors[0]].ancestors == m[id].ancestors.drop_first(),
    ensures
        model_node_ok(m, id),
{
    reveal(model_node_ok);
}

/// In a well-formed model, the chain of the `k`-th ancestor of `id` is
/// the rest of `id`'s chain after position `k`.
pub proof fn lemma_chain_suffix(m: Map<int, TaxonModel>, id: int, k: int)
    requires
        model_wf(m),
        m.contains_key(id),
        0 <= k < m[id].ancestors.len(),
    ensures
        m.contains_key(m[id].ancestors[k]),
        m[m[id].ancestors[k]].ancestors == m[id].ancestors.skip(k + 1),
    decreases k,
{
    if k == 0 {
        lemma_node_ok_unfold(m, id);
        assert(m[id].ancestors.drop_first() =~= m[id].ancestors.skip(1));
    } else {
        lemma_chain_suffix(m, id, k - 1);
        let p = m[id].ancestors[k - 1];
        assert(m[p].ancestors == m[id].ancestors.skip(k));
        assert(m[p].ancestors.len() > 0);
        assert(m[p].ancestors[0] == m[id].ancestors[k]);
        lemma_node_ok_unfold(m, p);
        assert(m[m[p].ancestors[0]].ancestors == m[p].ancestors.drop_first());
        assert(m[p].ancestors.drop_first() =~= m[id].ancestors.skip(k + 1));
    }
}

/// In a well-formed model, two taxa cannot be ancestors of one another,
/// and no taxon is its own ancestor.
pub proof fn lemma_ancestor_antisymmetric(m: Map<int, TaxonModel>, x: int, y: int)
    requires
        model_wf(m),
        m.contains_key(x),
        m.contains_key(y),
        m[x].ancestors.contains(y),
    ensures
        !m[y].ancestors.contains(x),
        m[y].ancestors.len() < m[x].ancestors.len(),
{
    let k = m[x].ancestors.index_of(y);
    lemma_chain_suffix(m, x, k);
    assert(m[y].ancestors == m[x].ancestors.skip(k + 1));
    assert(m[y].ancestors.len() == m[x].ancestors.len() - k - 1);
    if m[y].ancestors.contains(x) {
        let j = m[y].ancestors.index_of(x);
        lemma_chain_suffix(m, y, j);
        assert(m[x].ancestors.len() <= m[y].ancestors.len() - j - 1);
    }
}

/// In a well-formed model, no taxon lies on its own ancestor chain.
pub proof fn lemma_no_self_ancestor(m: Map<int, TaxonModel>, id: int)
    requires
        model_wf(m),
        m.contains_key(id),
    ensures
        !m[id].ancestors.contains(id),
{
    if m[id].ancestors.contains(id) {
        lemma_ancestor_antisymmetric(m, id, id);
    }
}

/// In a well-formed model, an ancestor chain never repeats an id.
pub proof fn lemma_chain_no_duplicates(m: Map<int, TaxonModel>, id: int)
    requires
        model_wf(m),
        m.contains_key(id),
    ensures
        m[id].ancestors.no_duplicates(),
{
    let anc = m[id].ancestors;
    assert forall|i: int, j: int| 0 <= i < j < anc.len() implies anc[i] != anc[j] by {
        lemma_chain_suffix(m, id, i);
        if anc[i] == anc[j] {
            assert(m[anc[i]].ancestors == anc.skip(i + 1));
            assert(anc.skip(i + 1)[j - i - 1] == anc[j]);
            assert(m[anc[i]].ancestors.contains(anc[j]));
            lemma_ancestor_antisymmetric(m, anc[i], anc[j]);
        }
    }
}

} // verus!
