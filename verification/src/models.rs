//! The persisted record shapes of the taxonomy table: one row per
//! taxon, with the materialized ancestor path.

use vstd::prelude::*;

verus! {

/// A row of the persisted taxonomy table.
pub struct Taxon {
    /// The taxon id; unique over the table.
    pub id: i32,
    /// The ancestor-id path from the root down to the immediate parent,
    /// oldest first, joined with `/`; `None` for a root.
    pub ancestry: Option<String>,
    /// The scientific name.
    pub name: String,
    /// The rank label, when one was loaded.
    pub rank: Option<String>,
}

/// A row to be inserted into the persisted taxonomy table, as the
/// exporter emits it.
pub struct NewTaxon {
    /// The taxon id.
    pub id: i32,
    /// The ancestor-id path, oldest first, joined with `/`; `None` for
    /// a root.
    pub ancestry: Option<String>,
    /// The scientific name.
    pub name: String,
    /// The rank label, when one was loaded.
    pub rank: Option<String>,
}

impl NewTaxon {
    /// The same record as a queryable row.
    pub fn into_taxon(self) -> (r: Taxon)
        ensures
            r.id == self.id,
            r.ancestry == self.ancestry,
            r.name == self.name,
            r.rank == self.rank,
    {
        Taxon { id: self.id, ancestry: self.ancestry, name: self.name, rank: self.rank }
    }
}

} // verus!
