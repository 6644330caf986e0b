//! Verified text utilities: comparison, prefix tests, and splitting on
//! the `"\t|\t"` field separator of the NCBI dump format and on a single
//! separator character.

use vstd::prelude::*;

verus! {

// ---------------------------------------------------------------------------
// comparison and prefixes
// ---------------------------------------------------------------------------

/// True when `s` begins with `prefix`.
pub open spec fn spec_starts_with(s: Seq<char>, prefix: Seq<char>) -> bool {
    prefix.len() <= s.len() && s.subrange(0, prefix.len() as int) == prefix
}

/// Character-wise string equality.
pub fn str_eq(a: &str, b: &str) -> (r: bool)
    ensures
        r == (a@ == b@),
{
    let x = a.to_owned();
    let y = b.to_owned();
    x == y
}

/// Whether `s` begins with `prefix`.
pub fn str_starts_with(s: &str, prefix: &str) -> (r: bool)
    ensures
        r == spec_starts_with(s@, prefix@),
{
    let n = s.unicode_len();
    let p = prefix.unicode_len();
    if p > n {
        return false;
    }
    let head = s.substring_char(0, p);
    str_eq(head, prefix)
}

// ---------------------------------------------------------------------------
// splitting on the three-character separator "\t|\t"
// ---------------------------------------------------------------------------

/// True when the field separator occupies positions `i..i + 3` of `s`.
pub open spec fn sep_at(s: Seq<char>, i: int) -> bool {
    &&& 0 <= i
    &&& i + 3 <= s.len()
    &&& s[i] == '\t'
    &&& s[i + 1] == '|'
    &&& s[i + 2] == '\t'
}

/// The position of the first separator at or after `i`, if any.
pub open spec fn find_sep_from(s: Seq<char>, i: int) -> Option<int>
    decreases s.len() - i,
{
    if i < 0 || i + 3 > s.len() {
        None
    } else if sep_at(s, i) {
        Some(i)
    } else {
        find_sep_from(s, i + 1)
    }
}

pub proof fn lemma_find_sep_from(s: Seq<char>, i: int)
    requires
        0 <= i,
    ensures
        match find_sep_from(s, i) {
            Some(j) => i <= j && sep_at(s, j) && (forall|k: int| i <= k < j ==> !sep_at(s, k)),
            None => forall|k: int| i <= k ==> !sep_at(s, k),
        },
    decreases s.len() - i,
{
    if i + 3 > s.len() {
    } else if sep_at(s, i) {
    } else {
        lemma_find_sep_from(s, i + 1);
    }
}

/// The fields of `s` from position `start` on: the segments around each
/// separator occurrence, in order.
pub open spec fn spec_fields_from(s: Seq<char>, start: int) -> Seq<Seq<char>>
    decreases s.len() - start,
    when 0 <= start <= s.len()
    via spec_fields_from_decreases
{
    match find_sep_from(s, start) {
        None => seq![s.subrange(start, s.len() as int)],
        Some(i) => seq![s.subrange(start, i)] + spec_fields_from(s, i + 3),
    }
}

#[via_fn]
proof fn spec_fields_from_decreases(s: Seq<char>, start: int) {
    lemma_find_sep_from(s, start);
}

/// The fields of a dump line: the segments around each `"\t|\t"`.
pub open spec fn spec_split_fields(s: Seq<char>) -> Seq<Seq<char>> {
    spec_fields_from(s, 0)
}

/// The position of the first separator at or after `start`, if any.
fn find_sep(s: &str, start: usize) -> (r: Option<usize>)
    requires
        start <= s@.len(),
    ensures
        match r {
            Some(j) => find_sep_from(s@, start as int) == Some(j as int),
            None => find_sep_from(s@, start as int) is None,
        },
{
    proof {
        lemma_find_sep_from(s@, start as int);
    }
    let n = s.unicode_len();
    if n < 3 {
        return None;
    }
    let mut j = start;
    while j <= n - 3
        invariant
            start <= j <= n,
            n == s@.len(),
            3 <= n,
            forall|k: int| start <= k < j ==> !sep_at(s@, k),
        decreases n - j,
    {
        if s.get_char(j) == '\t' && s.get_char(j + 1) == '|' && s.get_char(j + 2) == '\t' {
            proof {
                assert(sep_at(s@, j as int));
                lemma_find_sep_from(s@, start as int);
            }
            return Some(j);
        }
        j += 1;
    }
    proof {
        lemma_find_sep_from(s@, start as int);
    }
    None
}

/// Splits a dump line into its fields around each `"\t|\t"`.
pub fn split_fields(s: &str) -> (r: Vec<String>)
    ensures
        r.deep_view() == spec_split_fields(s@),
{
    let n = s.unicode_len();
    let mut out: Vec<String> = Vec::new();
    let mut start: usize = 0;
    loop
        invariant_except_break
            out.deep_view() + spec_fields_from(s@, start as int) =~= spec_split_fields(s@),
        invariant
            start <= n,
            n == s@.len(),
        ensures
            out.deep_view() =~= spec_split_fields(s@),
        decreases n - start,
    {
        proof {
            lemma_find_sep_from(s@, start as int);
        }
        match find_sep(s, start) {
            Some(i) => {
                let field = s.substring_char(start, i).to_owned();
                out.push(field);
                proof {
                    assert(out.deep_view() + spec_fields_from(s@, i + 3 as int) =~= spec_split_fields(
                        s@,
                    ));
                }
                start = i + 3;
            },
            None => {
                let field = s.substring_char(start, n).to_owned();
                out.push(field);
                proof {
                    assert(out.deep_view() =~= spec_split_fields(s@));
                }
                break ;
            },
        }
    }
    out
}

// ---------------------------------------------------------------------------
// splitting on a single character
// ---------------------------------------------------------------------------

/// The position of the first occurrence of `c` at or after `i`, if any.
pub open spec fn find_char_from(s: Seq<char>, c: char, i: int) -> Option<int>
    decreases s.len() - i,
{
    if i < 0 || i >= s.len() {
        None
    } else if s[i] == c {
        Some(i)
    } else {
        find_char_from(s, c, i + 1)
    }
}

pub proof fn lemma_find_char_from(s: Seq<char>, c: char, i: int)
    requires
        0 <= i,
    ensures
        match find_char_from(s, c, i) {
            Some(j) => i <= j < s.len() && s[j] == c && (forall|k: int|
                i <= k < j ==> s[k] != c),
            None => forall|k: int| i <= k < s.len() ==> s[k] != c,
        },
    decreases s.len() - i,
{
    if i >= s.len() {
    } else if s[i] == c {
    } else {
        lemma_find_char_from(s, c, i + 1);
    }
}

/// The tokens of `s` from position `start` on: the segments around each
/// occurrence of `c`, in order.
pub open spec fn spec_tokens_from(s: Seq<char>, c: char, start: int) -> Seq<Seq<char>>
    decreases s.len() - start,
    when 0 <= start <= s.len()
    via spec_tokens_from_decreases
{
    match find_char_from(s, c, start) {
        None => seq![s.subrange(start, s.len() as int)],
        Some(i) => seq![s.subrange(start, i)] + spec_tokens_from(s, c, i + 1),
    }
}

#[via_fn]
proof fn spec_tokens_from_decreases(s: Seq<char>, c: char, start: int) {
    lemma_find_char_from(s, c, start);
}

/// The tokens of `s` around each occurrence of `c`.  An empty string has
/// one (empty) token, as `str::split` would report.
pub open spec fn spec_split_char(s: Seq<char>, c: char) -> Seq<Seq<char>> {
    spec_tokens_from(s, c, 0)
}

/// The position of the first occurrence of `c` at or after `start`, if any.
fn find_char(s: &str, c: char, start: usize) -> (r: Option<usize>)
    requires
        start <= s@.len(),
    ensures
        match r {
            Some(j) => find_char_from(s@, c, start as int) == Some(j as int),
            None => find_char_from(s@, c, start as int) is None,
        },
{
    let n = s.unicode_len();
    let mut j = start;
    while j < n
        invariant
            start <= j <= n,
            n == s@.len(),
            forall|k: int| start <= k < j ==> s@[k] != c,
        decreases n - j,
    {
        if s.get_char(j) == c {
            proof {
                lemma_find_char_from(s@, c, start as int);
            }
            return Some(j);
        }
        j += 1;
    }
    proof {
        lemma_find_char_from(s@, c, start as int);
    }
    None
}

/// Splits `s` into the tokens around each occurrence of `c`.
pub fn split_char(s: &str, c: char) -> (r: Vec<String>)
    ensures
        r.deep_view() == spec_split_char(s@, c),
{
    let n = s.unicode_len();
    let mut out: Vec<String> = Vec::new();
    let mut start: usize = 0;
    loop
        invariant_except_break
            out.deep_view() + spec_tokens_from(s@, c, start as int) =~= spec_split_char(s@, c),
        invariant
            start <= n,
            n == s@.len(),
        ensures
            out.deep_view() =~= spec_split_char(s@, c),
        decreases n - start,
    {
        proof {
            lemma_find_char_from(s@, c, start as int);
        }
        match find_char(s, c, start) {
            Some(i) => {
                let field = s.substring_char(start, i).to_owned();
                out.push(field);
                proof {
                    assert(out.deep_view() + spec_tokens_from(s@, c, i + 1 as int)
                        =~= spec_split_char(s@, c));
                }
                start = i + 1;
            },
            None => {
                let field = s.substring_char(start, n).to_owned();
                out.push(field);
                proof {
                    assert(out.deep_view() =~= spec_split_char(s@, c));
                }
                break ;
            },
        }
    }
    out
}

} // verus!
