//! Verified codec for taxon ids and ancestry paths: decimal rendering and
//! parsing of non-negative 32-bit ids, and joining and splitting of
//! `/`-delimited ancestor-id paths, with the round-trip proofs that keep
//! the in-memory and persisted representations synchronized.

use vstd::prelude::*;
use crate::text::{find_char_from, lemma_find_char_from, spec_split_char, spec_tokens_from,
    split_char};


verus! {

/// The largest value accepted as a taxon id: `i32::MAX`.
pub const MAX_ID: i32 = 0x7fff_ffff;

// ---------------------------------------------------------------------------
// decimal digits
// ---------------------------------------------------------------------------

/// True when `c` is a decimal digit.
pub open spec fn is_digit(c: char) -> bool {
    48 <= c as int <= 57
}

/// The numeric value of a digit character.
pub open spec fn digit_val(c: char) -> int {
    c as int - 48
}

/// The digit character for a value in `0..10`.
pub open spec fn digit_char(d: int) -> char {
    ((48 + d) as u8) as char
}

/// True when every character of `s` is a decimal digit.
pub open spec fn all_digits(s: Seq<char>) -> bool {
    forall|i: int| 0 <= i < s.len() ==> is_digit(#[trigger] s[i])
}

/// The value of a digit string, most significant digit first.
pub open spec fn spec_digits_val(s: Seq<char>) -> int
    decreases s.len(),
{
    if s.len() == 0 {
        0
    } else {
        spec_digits_val(s.drop_last()) * 10 + digit_val(s.last())
    }
}

/// What parsing a taxon id from `s` yields: the value of the digits when
/// `s` is a non-empty, all-digit string whose value fits an `i32`, and
/// nothing otherwise.
pub open spec fn spec_parse_id(s: Seq<char>) -> Option<int> {
    if s.len() > 0 && all_digits(s) && spec_digits_val(s) <= MAX_ID as int {
        Some(spec_digits_val(s))
    } else {
        None
    }
}

/// The decimal rendering of a non-negative integer, without sign or
/// leading zeroes.
pub open spec fn spec_decimal(n: int) -> Seq<char>
    decreases n,
    when n >= 0
    via spec_decimal_decreases
{
    if n < 10 {
        seq![digit_char(n)]
    } else {
        spec_decimal(n / 10) + seq![digit_char(n % 10)]
    }
}

#[via_fn]
proof fn spec_decimal_decreases(n: int) {
    if n >= 10 {
        assert(0 <= n / 10 < n) by (nonlinear_arith)
            requires
                n >= 10,
        ;
    }
}

pub proof fn lemma_digits_val_nonneg(s: Seq<char>)
    requires
        all_digits(s),
    ensures
        spec_digits_val(s) >= 0,
    decreases s.len(),
{
    if s.len() > 0 {
        assert(all_digits(s.drop_last()));
        lemma_digits_val_nonneg(s.drop_last());
        assert(digit_val(s.last()) >= 0);
    }
}

/// Appending a digit multiplies the value by ten and adds the digit.
pub proof fn lemma_digits_val_take_succ(s: Seq<char>, i: int)
    requires
        0 <= i < s.len(),
    ensures
        spec_digits_val(s.take(i + 1)) == spec_digits_val(s.take(i)) * 10 + digit_val(s[i]),
{
    assert(s.take(i + 1).drop_last() =~= s.take(i));
    assert(s.take(i + 1).last() == s[i]);
}

/// The value of an all-digit string dominates the value of each prefix.
pub proof fn lemma_digits_val_prefix_le(s: Seq<char>, i: int)
    requires
        all_digits(s),
        0 <= i <= s.len(),
    ensures
        spec_digits_val(s.take(i)) <= spec_digits_val(s),
    decreases s.len() - i,
{
    if i == s.len() {
        assert(s.take(i) =~= s);
    } else {
        lemma_digits_val_take_succ(s, i);
        assert(all_digits(s.take(i)));
        lemma_digits_val_nonneg(s.take(i));
        assert(spec_digits_val(s.take(i)) * 10 >= spec_digits_val(s.take(i))) by (nonlinear_arith)
            requires
                spec_digits_val(s.take(i)) >= 0,
        ;
        lemma_digits_val_prefix_le(s, i + 1);
    }
}

/// Every character of a decimal rendering is a digit, and the rendering
/// is non-empty.
pub proof fn lemma_decimal_digits(n: int)
    requires
        0 <= n,
    ensures
        spec_decimal(n).len() >= 1,
        all_digits(spec_decimal(n)),
    decreases n,
{
    if n < 10 {
        assert(is_digit(digit_char(n)));
    } else {
        assert(0 <= n / 10 < n) by (nonlinear_arith)
            requires
                n >= 10,
        ;
        lemma_decimal_digits(n / 10);
        assert(0 <= n % 10 < 10);
        assert(is_digit(digit_char(n % 10)));
        assert(forall|i: int|
            0 <= i < spec_decimal(n).len() ==> is_digit(#[trigger] spec_decimal(n)[i]));
    }
}

/// Rendering then evaluating a non-negative integer gives it back.
pub proof fn lemma_decimal_val(n: int)
    requires
        0 <= n,
    ensures
        spec_digits_val(spec_decimal(n)) == n,
    decreases n,
{
    assert(spec_decimal(n).len() >= 1) by {
        lemma_decimal_digits(n);
    }
    assert(spec_digits_val(spec_decimal(n)) == spec_digits_val(spec_decimal(n).drop_last()) * 10
        + digit_val(spec_decimal(n).last()));
    if n < 10 {
        assert(spec_decimal(n).drop_last() =~= Seq::<char>::empty());
        assert(digit_val(digit_char(n)) == n);
    } else {
        assert(0 <= n / 10 < n) by (nonlinear_arith)
            requires
                n >= 10,
        ;
        lemma_decimal_val(n / 10);
        lemma_decimal_digits(n / 10);
        assert(spec_decimal(n).drop_last() =~= spec_decimal(n / 10));
        assert(spec_decimal(n).last() == digit_char(n % 10));
        assert(digit_val(digit_char(n % 10)) == n % 10);
        assert((n / 10) * 10 + n % 10 == n);
    }
}

/// Parsing a rendered id gives it back.
pub proof fn lemma_parse_decimal(n: int)
    requires
        0 <= n <= MAX_ID as int,
    ensures
        spec_parse_id(spec_decimal(n)) == Some(n),
{
    lemma_decimal_digits(n);
    lemma_decimal_val(n);
}

// ---------------------------------------------------------------------------
// executable rendering and parsing
// ---------------------------------------------------------------------------

fn digit_str(d: u32) -> (r: &'static str)
    requires
        d < 10,
    ensures
        r@ =~= seq![digit_char(d as int)],
{
    proof {
        reveal_strlit("0");
        reveal_strlit("1");
        reveal_strlit("2");
        reveal_strlit("3");
        reveal_strlit("4");
        reveal_strlit("5");
        reveal_strlit("6");
        reveal_strlit("7");
        reveal_strlit("8");
        reveal_strlit("9");
    }
    if d == 0 {
        "0"
    } else if d == 1 {
        "1"
    } else if d == 2 {
        "2"
    } else if d == 3 {
        "3"
    } else if d == 4 {
        "4"
    } else if d == 5 {
        "5"
    } else if d == 6 {
        "6"
    } else if d == 7 {
        "7"
    } else if d == 8 {
        "8"
    } else {
        "9"
    }
}

fn format_u32(v: u32) -> (r: String)
    ensures
        r@ == spec_decimal(v as int),
    decreases v,
{
    let d = v % 10;
    let ds = digit_str(d);
    if v < 10 {
        ds.to_owned()
    } else {
        proof {
            assert(0 <= v as int / 10 < v as int) by (nonlinear_arith)
                requires
                    v >= 10,
            ;
        }
        let mut s = format_u32(v / 10);
        s.append(ds);
        s
    }
}

/// Renders a non-negative taxon id in decimal.
pub fn format_id(v: i32) -> (r: String)
    requires
        0 <= v,
    ensures
        r@ == spec_decimal(v as int),
{
    format_u32(v as u32)
}

/// Parses a non-negative taxon id from a decimal string.  Rejects empty
/// strings, any non-digit character (including signs), and values above
/// `MAX_ID`.
pub fn parse_id(s: &str) -> (r: Option<i32>)
    ensures
        match r {
            Some(v) => spec_parse_id(s@) == Some(v as int),
            None => spec_parse_id(s@) is None,
        },
{
    let n = s.unicode_len();
    if n == 0 {
        return None;
    }
    let mut acc: u64 = 0;
    let mut j: usize = 0;
    while j < n
        invariant
            0 <= j <= n,
            n == s@.len(),
            all_digits(s@.take(j as int)),
            acc as int == spec_digits_val(s@.take(j as int)),
            acc <= MAX_ID as u64,
        decreases n - j,
    {
        let c = s.get_char(j);
        let cu = c as u32;
        if cu < 48 || cu > 57 {
            // a non-digit anywhere makes the whole string unparseable
            assert(!is_digit(s@[j as int]));
            return None;
        }
        proof {
            lemma_digits_val_take_succ(s@, j as int);
            assert(all_digits(s@.take(j as int + 1)));
        }
        acc = acc * 10 + (cu - 48) as u64;
        j += 1;
        if acc > MAX_ID as u64 {
            // every extension of an over-large prefix is over-large
            proof {
                if all_digits(s@) {
                    lemma_digits_val_prefix_le(s@, j as int);
                }
            }
            return None;
        }
    }
    proof {
        assert(s@.take(n as int) =~= s@);
    }
    Some(acc as i32)
}

// ---------------------------------------------------------------------------
// ancestry paths: ids joined with '/'
// ---------------------------------------------------------------------------

/// The ancestry path for a sequence of ids: their decimal renderings
/// joined with `/`, in the given order.
pub open spec fn spec_join_ids(ids: Seq<int>) -> Seq<char>
    decreases ids.len(),
{
    if ids.len() == 0 {
        Seq::<char>::empty()
    } else if ids.len() == 1 {
        spec_decimal(ids[0])
    } else {
        spec_decimal(ids[0]) + seq!['/'] + spec_join_ids(ids.drop_first())
    }
}

/// What parsing each token of a token list yields, when every token is a
/// valid id.
pub open spec fn spec_parse_tokens(toks: Seq<Seq<char>>) -> Option<Seq<int>>
    decreases toks.len(),
{
    if toks.len() == 0 {
        Some(Seq::<int>::empty())
    } else {
        match spec_parse_id(toks[0]) {
            None => None,
            Some(v) => match spec_parse_tokens(toks.drop_first()) {
                None => None,
                Some(rest) => Some(seq![v] + rest),
            },
        }
    }
}

/// What parsing an ancestry path yields: the ids of its `/`-separated
/// tokens, when every token is a valid id.
pub open spec fn spec_parse_ancestry(s: Seq<char>) -> Option<Seq<int>> {
    spec_parse_tokens(spec_split_char(s, '/'))
}

/// Appending an id to a path appends a separator and its rendering.
pub proof fn lemma_join_push(ids: Seq<int>, v: int)
    ensures
        spec_join_ids(ids.push(v)) == if ids.len() == 0 {
            spec_decimal(v)
        } else {
            spec_join_ids(ids) + seq!['/'] + spec_decimal(v)
        },
    decreases ids.len(),
{
    let w = ids.push(v);
    if ids.len() == 0 {
        assert(w.len() == 1);
        assert(w[0] == v);
    } else {
        assert(w.len() >= 2);
        assert(w[0] == ids[0]);
        assert(w.drop_first() =~= ids.drop_first().push(v));
        lemma_join_push(ids.drop_first(), v);
        if ids.len() == 1 {
            assert(ids.drop_first().len() == 0);
            assert(spec_join_ids(w) == spec_decimal(ids[0]) + seq!['/'] + spec_decimal(v));
            assert(spec_join_ids(ids) == spec_decimal(ids[0]));
        } else {
            assert(spec_join_ids(w) == spec_decimal(ids[0]) + seq!['/'] + (spec_join_ids(
                ids.drop_first(),
            ) + seq!['/'] + spec_decimal(v)));
            assert(spec_decimal(ids[0]) + seq!['/'] + (spec_join_ids(ids.drop_first())
                + seq!['/'] + spec_decimal(v)) =~= (spec_decimal(ids[0]) + seq!['/']
                + spec_join_ids(ids.drop_first())) + seq!['/'] + spec_decimal(v));
        }
    }
}

/// Renders an ancestry path: the ids in the given order, in decimal,
/// joined with `/`.
pub fn format_ancestry(ids: &Vec<i32>) -> (r: String)
    requires
        forall|k: int| 0 <= k < ids@.len() ==> 0 <= #[trigger] ids@[k],
    ensures
        r@ == spec_join_ids(ids@.map_values(|x: i32| x as int)),
{
    let ghost iv = ids@.map_values(|x: i32| x as int);
    let mut r = String::new();
    let n = ids.len();
    let mut k: usize = 0;
    proof {
        assert(iv.take(0) =~= Seq::<int>::empty());
    }
    while k < n
        invariant
            k <= n,
            n == ids@.len(),
            iv == ids@.map_values(|x: i32| x as int),
            forall|k2: int| 0 <= k2 < ids@.len() ==> 0 <= #[trigger] ids@[k2],
            r@ == spec_join_ids(iv.take(k as int)),
        decreases n - k,
    {
        proof {
            assert(iv.take(k as int + 1) =~= iv.take(k as int).push(ids@[k as int] as int));
            lemma_join_push(iv.take(k as int), ids@[k as int] as int);
        }
        if k > 0 {
            r.append("/");
            proof {
                reveal_strlit("/");
                assert("/"@ =~= seq!['/']);
            }
        }
        let d = format_id(ids[k]);
        r.append(d.as_str());
        k += 1;
    }
    proof {
        assert(iv.take(n as int) =~= iv);
    }
    r
}

/// Parsing token lists in order agrees with the head-first spec.
proof fn lemma_parse_tokens_split(toks: Seq<Seq<char>>, pre: Seq<int>)
    requires
        pre.len() <= toks.len(),
        forall|i: int| 0 <= i < pre.len() ==> spec_parse_id(toks[i]) == Some(#[trigger] pre[i]),
    ensures
        match spec_parse_tokens(toks.skip(pre.len() as int)) {
            None => spec_parse_tokens(toks) is None,
            Some(rest) => spec_parse_tokens(toks) == Some(pre + rest),
        },
    decreases pre.len(),
{
    if pre.len() == 0 {
        assert(toks.skip(0) =~= toks);
        match spec_parse_tokens(toks) {
            None => {},
            Some(rest) => {
                assert(pre + rest =~= rest);
            },
        }
    } else {
        let t1 = toks.drop_first();
        let p1 = pre.drop_first();
        assert(forall|i: int|
            0 <= i < p1.len() ==> spec_parse_id(t1[i]) == Some(#[trigger] p1[i]));
        lemma_parse_tokens_split(t1, p1);
        assert(t1.skip(p1.len() as int) =~= toks.skip(pre.len() as int));
        assert(spec_parse_id(toks[0]) == Some(pre[0]));
        match spec_parse_tokens(toks.skip(pre.len() as int)) {
            None => {},
            Some(rest) => {
                assert(spec_parse_tokens(t1) == Some(p1 + rest));
                assert(seq![pre[0]] + (p1 + rest) =~= pre + rest);
            },
        }
    }
}

/// Parses an ancestry path into its ids, in the order written.
pub fn parse_ancestry(s: &str) -> (r: Option<Vec<i32>>)
    ensures
        match r {
            Some(v) => spec_parse_ancestry(s@) == Some(v@.map_values(|x: i32| x as int)),
            None => spec_parse_ancestry(s@) is None,
        },
{
    let toks = split_char(s, '/');
    let ghost tv = toks.deep_view();
    let n = toks.len();
    let mut out: Vec<i32> = Vec::new();
    let mut k: usize = 0;
    while k < n
        invariant
            k <= n,
            n == toks@.len(),
            tv == toks.deep_view(),
            tv == spec_split_char(s@, '/'),
            out@.len() == k,
            forall|i: int|
                0 <= i < k ==> spec_parse_id(#[trigger] tv[i]) == Some(
                    out@.map_values(|x: i32| x as int)[i],
                ),
        decreases n - k,
    {
        proof {
            assert(tv[k as int] == toks@[k as int]@);
        }
        let ghost pre = out@.map_values(|x: i32| x as int);
        match parse_id(toks[k].as_str()) {
            Some(v) => {
                out.push(v);
                proof {
                    let pre2 = out@.map_values(|x: i32| x as int);
                    assert(pre2 =~= pre.push(v as int));
                    assert(forall|i: int| 0 <= i < k ==> pre2[i] == pre[i]);
                }
            },
            None => {
                proof {
                    lemma_parse_tokens_split(tv, pre);
                    assert(tv.skip(k as int)[0] == tv[k as int]);
                    assert(tv.skip(k as int).drop_first() =~= tv.skip(k as int + 1));
                    assert(spec_parse_tokens(tv.skip(k as int)) is None);
                }
                return None;
            },
        }
        k += 1;
    }
    proof {
        lemma_parse_tokens_split(tv, out@.map_values(|x: i32| x as int));
        assert(tv.skip(n as int) =~= Seq::<Seq<char>>::empty());
    }
    Some(out)
}

/// A rendered path has no separator inside its id renderings.
proof fn lemma_decimal_no_slash(n: int)
    requires
        0 <= n,
    ensures
        forall|i: int| 0 <= i < spec_decimal(n).len() ==> #[trigger] spec_decimal(n)[i] != '/',
{
    lemma_decimal_digits(n);
    assert forall|i: int|
        0 <= i < spec_decimal(n).len() implies #[trigger] spec_decimal(n)[i] != '/' by {
        assert(is_digit(spec_decimal(n)[i]));
        assert('/' as int == 47);
    }
}

/// Token positions shift across a prefix.
proof fn lemma_find_char_shift(p: Seq<char>, b: Seq<char>, c: char, k: int)
    requires
        0 <= k,
    ensures
        find_char_from(p + b, c, p.len() + k) == (match find_char_from(b, c, k) {
            None => None::<int>,
            Some(j) => Some(j + p.len()),
        }),
    decreases b.len() - k,
{
    let s = p + b;
    if k >= b.len() {
    } else {
        assert(s[p.len() + k] == b[k]);
        if b[k] == c {
        } else {
            lemma_find_char_shift(p, b, c, k + 1);
        }
    }
}

/// Splitting shifts across a prefix.
proof fn lemma_tokens_shift(p: Seq<char>, b: Seq<char>, c: char, k: int)
    requires
        0 <= k <= b.len(),
    ensures
        spec_tokens_from(p + b, c, p.len() + k) == spec_tokens_from(b, c, k),
    decreases b.len() - k,
{
    let s = p + b;
    lemma_find_char_shift(p, b, c, k);
    lemma_find_char_from(b, c, k);
    match find_char_from(b, c, k) {
        None => {
            assert(s.subrange(p.len() + k, s.len() as int) =~= b.subrange(k, b.len() as int));
        },
        Some(j) => {
            assert(s.subrange(p.len() + k, p.len() + j) =~= b.subrange(k, j));
            lemma_tokens_shift(p, b, c, j + 1);
        },
    }
}

/// Splitting a slash-joined path recovers the token list.
proof fn lemma_split_join(ids: Seq<int>)
    requires
        ids.len() >= 1,
        forall|k: int| 0 <= k < ids.len() ==> 0 <= #[trigger] ids[k],
    ensures
        spec_split_char(spec_join_ids(ids), '/') == Seq::new(
            ids.len(),
            |k: int| spec_decimal(ids[k]),
        ),
    decreases ids.len(),
{
    let s = spec_join_ids(ids);
    let a = spec_decimal(ids[0]);
    lemma_decimal_no_slash(ids[0]);
    lemma_decimal_digits(ids[0]);
    if ids.len() == 1 {
        assert(s == a);
        lemma_find_char_from(s, '/', 0);
        match find_char_from(s, '/', 0) {
            None => {
                assert(s.subrange(0, s.len() as int) =~= s);
                assert(spec_split_char(s, '/') =~= Seq::new(
                    ids.len(),
                    |k: int| spec_decimal(ids[k]),
                ));
            },
            Some(j) => {
                assert(s[j] == '/');
                assert(false);
            },
        }
    } else {
        let rest = ids.drop_first();
        let b = spec_join_ids(rest);
        assert(s == a + seq!['/'] + b);
        lemma_split_join(rest);
        let tail = seq!['/'] + b;
        assert(s =~= a + tail);
        // the first separator stands right after the first rendering
        lemma_find_char_from(s, '/', 0);
        assert(s[a.len() as int] == '/');
        let j = match find_char_from(s, '/', 0) {
            Some(j) => j,
            None => 0,
        };
        assert(find_char_from(s, '/', 0) == Some(a.len() as int)) by {
            match find_char_from(s, '/', 0) {
                None => {
                    assert(false);
                },
                Some(j2) => {
                    if j2 < a.len() {
                        assert(s[j2] == a[j2]);
                        assert(false);
                    }
                    if j2 > a.len() {
                        assert(false);
                    }
                },
            }
        }
        assert(spec_tokens_from(s, '/', 0) == seq![s.subrange(0, a.len() as int)]
            + spec_tokens_from(s, '/', a.len() as int + 1));
        assert(s.subrange(0, a.len() as int) =~= a);
        assert((a + seq!['/']) + b =~= s);
        lemma_tokens_shift(a + seq!['/'], b, '/', 0);
        assert((a + seq!['/']).len() as int + 0 == a.len() as int + 1);
        assert(spec_tokens_from(s, '/', a.len() as int + 1) == spec_tokens_from(b, '/', 0));
        assert(seq![a] + Seq::new(rest.len(), |k: int| spec_decimal(rest[k])) =~= Seq::new(
            ids.len(),
            |k: int| spec_decimal(ids[k]),
        ));
    }
}

/// Rendering an ancestry path and parsing it back yields the same ids.
pub proof fn lemma_ancestry_roundtrip(ids: Seq<int>)
    requires
        ids.len() >= 1,
        forall|k: int| 0 <= k < ids.len() ==> 0 <= #[trigger] ids[k] <= MAX_ID as int,
    ensures
        spec_parse_ancestry(spec_join_ids(ids)) == Some(ids),
{
    lemma_split_join(ids);
    let toks = Seq::new(ids.len(), |k: int| spec_decimal(ids[k]));
    assert forall|i: int| 0 <= i < ids.len() implies spec_parse_id(toks[i]) == Some(
        #[trigger] ids[i],
    ) by {
        lemma_parse_decimal(ids[i]);
    }
    lemma_parse_tokens_ok(toks, ids);
}

/// A token list whose every token parses yields exactly those values.
proof fn lemma_parse_tokens_ok(toks: Seq<Seq<char>>, vals: Seq<int>)
    requires
        toks.len() == vals.len(),
        forall|i: int| 0 <= i < toks.len() ==> spec_parse_id(toks[i]) == Some(#[trigger] vals[i]),
    ensures
        spec_parse_tokens(toks) == Some(vals),
    decreases toks.len(),
{
    if toks.len() == 0 {
        assert(vals =~= Seq::<int>::empty());
    } else {
        lemma_parse_tokens_ok(toks.drop_first(), vals.drop_first());
        assert(seq![vals[0]] + vals.drop_first() =~= vals);
    }
}

} // verus!
