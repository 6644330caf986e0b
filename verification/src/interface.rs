//! The common query interface implemented by both taxonomy stores.
//!
//! Collaborators hold a store only through this trait and cannot tell
//! which backend answered a query: every method's contract is stated
//! over the store's abstract model, and each implementation proves the
//! same contracts.

use vstd::prelude::*;
use crate::distance::spec_lca_distance;
use crate::model::{TaxonModel, model_wf, spec_is_descendant};

verus! {

/// Lookup operations over a loaded taxonomy.
///
/// Unknown ids and names are absence, never failure: they yield `false`
/// or `None`.
pub trait NcbiTaxonomy {
    /// The abstract taxonomy this store answers for: id to ancestors,
    /// name and rank.
    spec fn model(&self) -> Map<int, TaxonModel>;

    /// The scientific-name index: name to id.  When two taxa were
    /// loaded with the same name, the later one wins.
    spec fn names(&self) -> Map<Seq<char>, int>;

    /// The store's internal invariant, established by its constructor.
    spec fn wf(&self) -> bool;

    /// A well-formed store models a well-formed taxonomy, and indexes
    /// only known taxa by name.
    proof fn lemma_model_wf(&self)
        requires
            self.wf(),
        ensures
            model_wf(self.model()),
            forall|n: Seq<char>| #[trigger]
                self.names().contains_key(n) ==> self.model().contains_key(self.names()[n]),
    ;

    /// Whether the taxonomy knows the id.
    fn contains_id(&self, taxid: i32) -> (r: bool)
        requires
            self.wf(),
        ensures
            r == self.model().contains_key(taxid as int),
    ;

    /// Whether some taxon carries this scientific name.
    fn contains_name(&self, name: &str) -> (r: bool)
        requires
            self.wf(),
        ensures
            r == self.names().contains_key(name@),
    ;

    /// Whether the taxon named `name` descends from the taxon named
    /// `ancestor_name`; `false` when either name is unknown.
    fn is_descendant(&self, name: &str, ancestor_name: &str) -> (r: bool)
        requires
            self.wf(),
        ensures
            r == {
                &&& self.names().contains_key(name@)
                &&& self.names().contains_key(ancestor_name@)
                &&& spec_is_descendant(
                    self.model(),
                    self.names()[name@],
                    self.names()[ancestor_name@],
                )
            },
    ;

    /// Whether `taxid` descends from `ancestor_taxid`; `false` when
    /// either id is unknown, and `false` for the taxon itself.
    fn is_descendant_taxid(&self, taxid: i32, ancestor_taxid: i32) -> (r: bool)
        requires
            self.wf(),
        ensures
            r == spec_is_descendant(self.model(), taxid as int, ancestor_taxid as int),
    ;

    /// The scientific name of `taxid`, if the taxonomy knows one.
    fn get_name_by_id(&self, taxid: i32) -> (r: Option<String>)
        requires
            self.wf(),
        ensures
            match r {
                Some(s) => self.model().contains_key(taxid as int) && self.model()[
                    taxid as int
                ].name == Some(s@),
                None => !self.model().contains_key(taxid as int) || self.model()[
                    taxid as int
                ].name is None,
            },
    ;

    /// The id carrying scientific name `name`, if any.
    fn get_id_by_name(&self, name: &str) -> (r: Option<i32>)
        requires
            self.wf(),
        ensures
            match r {
                Some(v) => self.names().contains_key(name@) && self.names()[name@] == v as int,
                None => !self.names().contains_key(name@),
            },
    ;

    /// The number of filtered steps to the nearest common ancestor of
    /// the two ids: `0` when they are equal, the steps from `taxid1` up
    /// to `taxid2` when the latter is a (filtered) ancestor of the
    /// former, and otherwise the steps from `taxid2` up to the first
    /// shared (filtered) ancestor.  `None` when either id is unknown,
    /// when rank data is missing along a walked chain, or when no
    /// shared ancestor is found.
    fn get_distance_to_common_ancestor_taxid(
        &self,
        taxid1: i32,
        taxid2: i32,
        only_canonical: bool,
    ) -> (r: Option<i32>)
        requires
            self.wf(),
        ensures
            match r {
                Some(d) => spec_lca_distance(
                    self.model(),
                    taxid1 as int,
                    taxid2 as int,
                    only_canonical,
                ) == Some(d as int),
                None => spec_lca_distance(
                    self.model(),
                    taxid1 as int,
                    taxid2 as int,
                    only_canonical,
                ) is None,
            },
    ;

    /// The same distance, addressing the two taxa by name; `None` when
    /// either name is unknown.
    fn get_distance_to_common_ancestor(
        &self,
        name1: &str,
        name2: &str,
        only_canonical: bool,
    ) -> (r: Option<i32>)
        requires
            self.wf(),
        ensures
            match r {
                Some(d) => {
                    &&& self.names().contains_key(name1@)
                    &&& self.names().contains_key(name2@)
                    &&& spec_lca_distance(
                        self.model(),
                        self.names()[name1@],
                        self.names()[name2@],
                        only_canonical,
                    ) == Some(d as int)
                },
                None => {
                    ||| !self.names().contains_key(name1@)
                    ||| !self.names().contains_key(name2@)
                    ||| spec_lca_distance(
                        self.model(),
                        self.names()[name1@],
                        self.names()[name2@],
                        only_canonical,
                    ) is None
                },
            },
    ;
}

} // verus!
