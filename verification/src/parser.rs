//! The dump parser: turns single lines of `nodes.dmp` and `names.dmp`
//! into records.  Fields are separated by `"\t|\t"`; the trailing
//! pipe-tab artifact of the NCBI format lands in a field beyond the ones
//! read here and is thereby tolerated.

use vstd::prelude::*;
use crate::codec::{parse_id, spec_parse_id};
use crate::errors::NcbiTaxonomyError;
use crate::text::{spec_split_fields, spec_starts_with, split_fields, str_starts_with};

verus! {

/// How one dump line fails.
pub enum LineError {
    /// Fewer fields than the line must have.
    Format,
    /// This field does not hold a non-negative 32-bit integer.
    ParseInt(Seq<char>),
}

/// What parsing a `nodes.dmp` line yields: taxon id, parent id and rank
/// label, or the first failure.
pub open spec fn spec_node_line(l: Seq<char>) -> Result<(int, int, Seq<char>), LineError> {
    let fs = spec_split_fields(l);
    if fs.len() < 3 {
        Err(LineError::Format)
    } else {
        match spec_parse_id(fs[0]) {
            None => Err(LineError::ParseInt(fs[0])),
            Some(id) => match spec_parse_id(fs[1]) {
                None => Err(LineError::ParseInt(fs[1])),
                Some(pid) => Ok((id, pid, fs[2])),
            },
        }
    }
}

/// What parsing a `names.dmp` line yields: the id and scientific name
/// for a scientific-name row (the unique-name field, when non-empty,
/// overrides the name field), `None` for any other row, or the first
/// failure.
pub open spec fn spec_name_line(l: Seq<char>) -> Result<Option<(int, Seq<char>)>, LineError> {
    let fs = spec_split_fields(l);
    if fs.len() < 4 {
        Err(LineError::Format)
    } else if !spec_starts_with(fs[3], "scientific name"@) {
        Ok(None)
    } else {
        match spec_parse_id(fs[0]) {
            None => Err(LineError::ParseInt(fs[0])),
            Some(id) => Ok(Some((id, if fs[2].len() > 0 { fs[2] } else { fs[1] }))),
        }
    }
}

/// Parses one `nodes.dmp` line into `(taxon id, parent id, rank)`.
///
/// Fails with `NodeFileFormatError` holding the line when fewer than
/// three fields are present, and with `ParseIntError` holding the
/// offending field when an id field is not a non-negative 32-bit
/// integer.
pub fn parse_node_line(l: &str) -> (r: Result<(i32, i32, String), NcbiTaxonomyError>)
    ensures
        match r {
            Ok((id, pid, rank)) => spec_node_line(l@) == Ok::<_, LineError>(
                (id as int, pid as int, rank@),
            ),
            Err(e) => match e {
                NcbiTaxonomyError::NodeFileFormatError(s) => spec_node_line(l@) == Err::<
                    (int, int, Seq<char>),
                    _,
                >(LineError::Format) && s@ == l@,
                NcbiTaxonomyError::ParseIntError(s) => spec_node_line(l@) == Err::<
                    (int, int, Seq<char>),
                    _,
                >(LineError::ParseInt(s@)),
                _ => false,
            },
        },
{
    let fields = split_fields(l);
    if fields.len() < 3 {
        return Err(NcbiTaxonomyError::NodeFileFormatError(l.to_owned()));
    }
    proof {
        assert(fields@[0]@ == spec_split_fields(l@)[0]);
        assert(fields@[1]@ == spec_split_fields(l@)[1]);
        assert(fields@[2]@ == spec_split_fields(l@)[2]);
    }
    let id = match parse_id(fields[0].as_str()) {
        Some(v) => v,
        None => {
            return Err(NcbiTaxonomyError::ParseIntError(fields[0].clone()));
        },
    };
    let pid = match parse_id(fields[1].as_str()) {
        Some(v) => v,
        None => {
            return Err(NcbiTaxonomyError::ParseIntError(fields[1].clone()));
        },
    };
    let rank = fields[2].clone();
    Ok((id, pid, rank))
}

/// Parses one `names.dmp` line: `Ok(Some((id, name)))` for a
/// scientific-name row, `Ok(None)` for any other row.
///
/// Fails with `NodeFileFormatError` holding the line when fewer than
/// four fields are present, and with `ParseIntError` holding the id
/// field of a scientific-name row that is not a non-negative 32-bit
/// integer.
pub fn parse_name_line(l: &str) -> (r: Result<Option<(i32, String)>, NcbiTaxonomyError>)
    ensures
        match r {
            Ok(Some((id, name))) => spec_name_line(l@) == Ok::<_, LineError>(
                Some((id as int, name@)),
            ),
            Ok(None) => spec_name_line(l@) == Ok::<Option<(int, Seq<char>)>, LineError>(None),
            Err(e) => match e {
                NcbiTaxonomyError::NodeFileFormatError(s) => spec_name_line(l@) == Err::<
                    Option<(int, Seq<char>)>,
                    _,
                >(LineError::Format) && s@ == l@,
                NcbiTaxonomyError::ParseIntError(s) => spec_name_line(l@) == Err::<
                    Option<(int, Seq<char>)>,
                    _,
                >(LineError::ParseInt(s@)),
                _ => false,
            },
        },
{
    let fields = split_fields(l);
    if fields.len() < 4 {
        return Err(NcbiTaxonomyError::NodeFileFormatError(l.to_owned()));
    }
    proof {
        assert(fields@[0]@ == spec_split_fields(l@)[0]);
        assert(fields@[1]@ == spec_split_fields(l@)[1]);
        assert(fields@[2]@ == spec_split_fields(l@)[2]);
        assert(fields@[3]@ == spec_split_fields(l@)[3]);
    }
    if !str_starts_with(fields[3].as_str(), "scientific name") {
        return Ok(None);
    }
    let id = match parse_id(fields[0].as_str()) {
        Some(v) => v,
        None => {
            return Err(NcbiTaxonomyError::ParseIntError(fields[0].clone()));
        },
    };
    let name = if !fields[2].as_str().is_empty() {
        fields[2].clone()
    } else {
        fields[1].clone()
    };
    proof {
        if spec_split_fields(l@)[2].len() > 0 {
            assert(name@ == spec_split_fields(l@)[2]);
        } else {
            assert(name@ == spec_split_fields(l@)[1]);
        }
    }
    Ok(Some((id, name)))
}

} // verus!
