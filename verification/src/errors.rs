//! Failure taxonomy for loading and querying the taxonomy stores.

use vstd::prelude::*;

verus! {

/// Errors raised while loading a taxonomy or validating a persisted table.
///
/// Unknown ids and names in lookups are never errors: the query interface
/// reports those as `None` / `false`.
#[derive(Debug)]
pub enum NcbiTaxonomyError {
    /// A dump file or the persisted table could not be read; the payload
    /// describes the failed operation.  Only the surrounding application
    /// performs I/O, so only it constructs this variant.
    Io(String),
    /// A dump line lacks the minimum expected field count; the payload is
    /// the offending line.
    NodeFileFormatError(String),
    /// A field expected to hold a non-negative integer does not; the
    /// payload is the offending field.
    ParseIntError(String),
    /// The data contradicts itself: a `names.dmp` row references an id
    /// absent from the forest, or a persisted table breaks the
    /// materialized-path invariants.  The payload describes the defect.
    IntegrityError(String),
}

impl NcbiTaxonomyError {
    /// A short human-readable description of the error.
    pub fn describe(&self) -> (r: String)
        ensures
            r@ == self.spec_describe(),
    {
        match self {
            NcbiTaxonomyError::Io(s) => join_msg("I/O error: ", s),
            NcbiTaxonomyError::NodeFileFormatError(s) => join_msg("format error in dump line: ", s),
            NcbiTaxonomyError::ParseIntError(s) => join_msg(
                "failed to parse integer from string: ",
                s,
            ),
            NcbiTaxonomyError::IntegrityError(s) => join_msg("data integrity error: ", s),
        }
    }

    /// What `describe` returns for each variant.
    pub open spec fn spec_describe(&self) -> Seq<char> {
        match self {
            NcbiTaxonomyError::Io(s) => "I/O error: "@ + s@,
            NcbiTaxonomyError::NodeFileFormatError(s) => "format error in dump line: "@ + s@,
            NcbiTaxonomyError::ParseIntError(s) => "failed to parse integer from string: "@ + s@,
            NcbiTaxonomyError::IntegrityError(s) => "data integrity error: "@ + s@,
        }
    }
}

fn join_msg(prefix: &str, detail: &String) -> (r: String)
    ensures
        r@ == prefix@ + detail@,
{
    let mut r = prefix.to_owned();
    r.append(detail.as_str());
    r
}

} // verus!
