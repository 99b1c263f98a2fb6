//! Byte-level helpers on text: ASCII classes, trimming, searching, and the
//! decimal form of 64-bit integers.
use vstd::prelude::*;
use crate::trusted::{memchr, memchr2};

verus! {

/// ASCII whitespace as Rust's `u8::is_ascii_whitespace` defines it: space,
/// tab, line feed, form feed and carriage return.
pub open spec fn is_space(b: u8) -> bool {
    b == 0x20 || b == 0x09 || b == 0x0a || b == 0x0c || b == 0x0d
}

pub open spec fn is_digit(b: u8) -> bool {
    0x30 <= b <= 0x39
}

pub open spec fn is_alnum(b: u8) -> bool {
    is_digit(b) || (0x41 <= b <= 0x5a) || (0x61 <= b <= 0x7a)
}

/// Bytes that may appear in a number: digits, `.`, `-`, `+`, `e` and `E`.
pub open spec fn is_number_char(b: u8) -> bool {
    is_digit(b) || b == 0x2e || b == 0x2d || b == 0x2b || b == 0x65 || b == 0x45
}

pub fn is_space_byte(b: u8) -> (r: bool)
    ensures
        r == is_space(b),
{
    b == 0x20 || b == 0x09 || b == 0x0a || b == 0x0c || b == 0x0d
}

pub fn is_alnum_byte(b: u8) -> (r: bool)
    ensures
        r == is_alnum(b),
{
    (0x30 <= b && b <= 0x39) || (0x41 <= b && b <= 0x5a) || (0x61 <= b && b <= 0x7a)
}

/// Whether `b` may appear in a number.
pub fn is_number_byte(b: u8) -> (r: bool)
    ensures
        r == is_number_char(b),
{
    (0x30 <= b && b <= 0x39) || b == 0x2e || b == 0x2d || b == 0x2b || b == 0x65 || b == 0x45
}

/// Index of the first byte at or after `i` that is not whitespace, or `s.len()`.
pub open spec fn skip_spaces(s: Seq<u8>, i: int) -> int
    decreases s.len() - i,
{
    if i < 0 || i >= s.len() || !is_space(s[i]) {
        i
    } else {
        skip_spaces(s, i + 1)
    }
}

/// Going back from `j`, the end of the last non-whitespace byte that stands
/// after `lo`, or `lo` when there is none.
pub open spec fn trim_end_from(s: Seq<u8>, j: int, lo: int) -> int
    decreases j - lo,
{
    if j <= lo || !is_space(s[j - 1]) {
        j
    } else {
        trim_end_from(s, j - 1, lo)
    }
}

/// `s` without its leading and trailing ASCII whitespace.
pub open spec fn trimmed(s: Seq<u8>) -> Seq<u8> {
    let a = skip_spaces(s, 0);
    s.subrange(a, trim_end_from(s, s.len() as int, a))
}

pub proof fn lemma_skip_spaces_bounds(s: Seq<u8>, i: int)
    requires
        0 <= i <= s.len(),
    ensures
        i <= skip_spaces(s, i) <= s.len(),
        skip_spaces(s, i) < s.len() ==> !is_space(s[skip_spaces(s, i)]),
        forall|k: int| i <= k < skip_spaces(s, i) ==> is_space(#[trigger] s[k]),
    decreases s.len() - i,
{
    if i < s.len() && is_space(s[i]) {
        lemma_skip_spaces_bounds(s, i + 1);
    }
}

pub proof fn lemma_trim_end_bounds(s: Seq<u8>, j: int, lo: int)
    requires
        0 <= lo <= j <= s.len(),
    ensures
        lo <= trim_end_from(s, j, lo) <= j,
        forall|k: int| trim_end_from(s, j, lo) <= k < j ==> is_space(#[trigger] s[k]),
        trim_end_from(s, j, lo) > lo ==> !is_space(s[trim_end_from(s, j, lo) - 1]),
    decreases j - lo,
{
    if j > lo && is_space(s[j - 1]) {
        lemma_trim_end_bounds(s, j - 1, lo);
    }
}

/// Whitespace around a text that neither begins nor ends with whitespace is
/// what trimming takes off: the text itself is left.
pub proof fn lemma_trimmed_padded(a: Seq<u8>, t: Seq<u8>, b: Seq<u8>)
    requires
        all_spaces(a),
        all_spaces(b),
        t.len() > 0,
        !is_space(t[0]),
        !is_space(t.last()),
    ensures
        trimmed(a + t + b) == t,
{
    let s = a + t + b;
    let lo = a.len() as int;
    let hi = lo + t.len();
    lemma_skip_spaces_bounds(s, 0);
    let st = skip_spaces(s, 0);
    assert(s[lo] == t[0]);
    if st < lo {
        assert(s[st] == a[st]);
    }
    if st > lo {
        assert(is_space(s[lo]));
    }
    assert(st == lo);
    lemma_trim_end_bounds(s, s.len() as int, lo);
    let en = trim_end_from(s, s.len() as int, lo);
    assert(s[hi - 1] == t.last());
    if en < hi {
        assert(is_space(s[hi - 1]));
    }
    if en > hi {
        assert(s[en - 1] == b[en - 1 - hi]);
    }
    assert(en == hi);
    assert(s.subrange(lo, hi) =~= t);
}

/// Index of the first non-whitespace byte at or after `i`.
pub fn skip_spaces_from(s: &[u8], i: usize) -> (r: usize)
    requires
        i <= s.len(),
    ensures
        r == skip_spaces(s@, i as int),
        i <= r <= s.len(),
{
    let mut k = i;
    while k < s.len() && is_space_byte(s[k])
        invariant
            i <= k <= s.len(),
            skip_spaces(s@, k as int) == skip_spaces(s@, i as int),
        decreases s.len() - k,
    {
        k = k + 1;
    }
    k
}

/// Going back from `j`, the end of the last non-whitespace byte after `lo`.
pub fn trim_end(s: &[u8], j: usize, lo: usize) -> (r: usize)
    requires
        lo <= j <= s.len(),
    ensures
        r == trim_end_from(s@, j as int, lo as int),
        lo <= r <= j,
{
    let mut k = j;
    while k > lo && is_space_byte(s[k - 1])
        invariant
            lo <= k <= j,
            j <= s.len(),
            trim_end_from(s@, k as int, lo as int) == trim_end_from(s@, j as int, lo as int),
        decreases k,
    {
        k = k - 1;
    }
    k
}

/// `s` without its leading and trailing ASCII whitespace.
pub fn trim_ascii_slice(s: &[u8]) -> (r: &[u8])
    ensures
        r@ == trimmed(s@),
{
    let start = skip_spaces_from(s, 0);
    let end = trim_end(s, s.len(), start);
    &s[start..end]
}

/// Whether `n` occurs in `h` at index `i`.
pub open spec fn occurs_at(h: Seq<u8>, n: Seq<u8>, i: int) -> bool {
    0 <= i && i + n.len() <= h.len() && h.subrange(i, i + n.len()) == n
}

/// Whether `n` occurs in `h` at index `i`.
pub fn occurs_at_exec(h: &[u8], n: &[u8], i: usize) -> (r: bool)
    ensures
        r == occurs_at(h@, n@, i as int),
{
    if i > h.len() || n.len() > h.len() - i {
        return false;
    }
    let mut k: usize = 0;
    while k < n.len()
        invariant
            i + n.len() <= h.len(),
            k <= n.len(),
            forall|t: int| 0 <= t < k ==> h@[i + t] == n@[t],
        decreases n.len() - k,
    {
        if h[i + k] != n[k] {
            assert(h@.subrange(i as int, i + n.len())[k as int] != n@[k as int]);
            return false;
        }
        k = k + 1;
    }
    assert(h@.subrange(i as int, i + n.len()) =~= n@);
    true
}

/// The index of the first occurrence of `needle` in `haystack`; an empty
/// needle occurs at 0.
pub fn find_subslice(haystack: &[u8], needle: &[u8]) -> (r: Option<usize>)
    ensures
        match r {
            Some(i) => occurs_at(haystack@, needle@, i as int) && forall|j: int|
                0 <= j < i ==> !occurs_at(haystack@, needle@, j),
            None => forall|j: int| !occurs_at(haystack@, needle@, j),
        },
{
    if needle.len() == 0 {
        assert(haystack@.subrange(0, 0) =~= needle@);
        return Some(0);
    }
    if needle.len() > haystack.len() {
        return None;
    }
    let last = haystack.len() - needle.len();
    let mut i: usize = 0;
    while i <= last
        invariant
            last == haystack.len() - needle.len(),
            needle.len() >= 1,
            forall|j: int| 0 <= j < i ==> !occurs_at(haystack@, needle@, j),
        decreases last + 1 - i,
    {
        if occurs_at_exec(haystack, needle, i) {
            return Some(i);
        }
        i = i + 1;
    }
    None
}

/// Whether `s` begins with `p`.
pub open spec fn starts_with(s: Seq<u8>, p: Seq<u8>) -> bool {
    occurs_at(s, p, 0)
}

/// Whether a raw text line carries, at some place, `"key"` followed, after
/// spaces and colons, by the value: a quoted string equal to `value`, or a
/// bare token that starts with `value` and does not continue with a letter,
/// digit, `.` or `-`.
pub open spec fn raw_line_matches_spec(line: Seq<u8>, key: Seq<u8>, value: Seq<u8>) -> bool {
    let pattern = seq![0x22u8] + key + seq![0x22u8];
    exists|pos: int|
        {
            &&& #[trigger] occurs_at(line, pattern, pos)
            &&& value_follows(line.subrange(pos + pattern.len(), line.len() as int), value)
        }
}

/// Index of the first byte of `s` at or after `i` that is neither a space nor
/// a colon.
pub open spec fn skip_separators(s: Seq<u8>, i: int) -> int
    decreases s.len() - i,
{
    if i < 0 || i >= s.len() || (s[i] != 0x20 && s[i] != 0x3a) {
        i
    } else {
        skip_separators(s, i + 1)
    }
}

/// Whether the text after a key carries `value` (see [`raw_line_matches_spec`]).
pub open spec fn value_follows(rest0: Seq<u8>, value: Seq<u8>) -> bool {
    let rest = rest0.subrange(skip_separators(rest0, 0), rest0.len() as int);
    if rest.len() > 0 && rest[0] == 0x22 {
        let body = rest.subrange(1, rest.len() as int);
        exists|end: int|
            0 <= end < body.len() && body[end] == 0x22 && (forall|j: int|
                0 <= j < end ==> body[j] != 0x22) && body.subrange(0, end) == value
    } else {
        starts_with(rest, value) && (rest.len() == value.len() || {
            let b = rest[value.len() as int];
            !is_alnum(b) && b != 0x2e && b != 0x2d
        })
    }
}

fn skip_separators_from(s: &[u8]) -> (r: usize)
    ensures
        r == skip_separators(s@, 0),
        r <= s.len(),
{
    let mut k: usize = 0;
    while k < s.len() && (s[k] == 0x20 || s[k] == 0x3a)
        invariant
            k <= s.len(),
            skip_separators(s@, k as int) == skip_separators(s@, 0),
        decreases s.len() - k,
    {
        k = k + 1;
    }
    k
}

/// Whether the text after a key carries `value` (see [`value_follows`]).
fn value_follows_exec(rest0: &[u8], value: &[u8]) -> (r: bool)
    ensures
        r == value_follows(rest0@, value@),
{
    let ri = skip_separators_from(rest0);
    let rest = &rest0[ri..rest0.len()];
    if rest.len() > 0 && rest[0] == 0x22 {
        let body = &rest[1..rest.len()];
        match memchr(0x22, body) {
            Some(end) => {
                let eq = occurs_at_exec(body, value, 0) && end == value.len();
                proof {
                    if eq {
                        assert(body@.subrange(0, end as int) == value@);
                    }
                    if body@.subrange(0, end as int) == value@ {
                        assert(occurs_at(body@, value@, 0));
                    }
                }
                eq
            },
            None => false,
        }
    } else {
        let sw = occurs_at_exec(rest, value, 0);
        if !sw {
            false
        } else if rest.len() == value.len() {
            true
        } else {
            let b = rest[value.len()];
            !is_alnum_byte(b) && b != 0x2e && b != 0x2d
        }
    }
}

/// Whether a raw (unparsed) text line carries `key` with `value`: each place
/// where `"key"` occurs is tried in turn.
pub fn raw_line_matches(line: &[u8], key: &[u8], value: &[u8]) -> (r: bool)
    ensures
        r == raw_line_matches_spec(line@, key@, value@),
{
    let mut pattern: Vec<u8> = Vec::new();
    pattern.push(0x22);
    pattern.extend_from_slice(key);
    pattern.push(0x22);
    let ghost pat = seq![0x22u8] + key@ + seq![0x22u8];
    assert(pattern@ =~= pat);
    let plen = pattern.len();
    let mut i: usize = 0;
    while i < line.len()
        invariant
            pat == seq![0x22u8] + key@ + seq![0x22u8],
            pattern@ == pat,
            plen == pat.len(),
            plen >= 2,
            i <= line.len(),
            forall|j: int|
                0 <= j < i ==> !(#[trigger] occurs_at(line@, pat, j) && value_follows(
                    line@.subrange(j + pat.len(), line@.len() as int),
                    value@,
                )),
        decreases line.len() - i,
    {
        if occurs_at_exec(line, pattern.as_slice(), i) {
            let rest0 = &line[i + plen..line.len()];
            if value_follows_exec(rest0, value) {
                assert(rest0@ == line@.subrange(i + pat.len(), line@.len() as int));
                assert(occurs_at(line@, pat, i as int) && value_follows(
                    line@.subrange(i + pat.len(), line@.len() as int),
                    value@,
                ));
                assert(raw_line_matches_spec(line@, key@, value@));
                return true;
            }
            assert(rest0@ == line@.subrange(i + pat.len(), line@.len() as int));
        }
        i = i + 1;
    }
    proof {
        if raw_line_matches_spec(line@, key@, value@) {
            let p2 = choose|p2: int|
                {
                    &&& #[trigger] occurs_at(line@, pat, p2)
                    &&& value_follows(line@.subrange(p2 + pat.len(), line@.len() as int), value@)
                };
            assert(occurs_at(line@, pat, p2));
        }
    }
    false
}

/// Index of the first `b` in `s` at or after `i`.
pub open spec fn find_from(s: Seq<u8>, b: u8, i: int) -> Option<int>
    decreases s.len() - i,
{
    if i < 0 || i >= s.len() {
        None
    } else if s[i] == b {
        Some(i)
    } else {
        find_from(s, b, i + 1)
    }
}

/// Index of the first byte of `s` at or after `i` that is `b1` or `b2`.
pub open spec fn find2_from(s: Seq<u8>, b1: u8, b2: u8, i: int) -> Option<int>
    decreases s.len() - i,
{
    if i < 0 || i >= s.len() {
        None
    } else if s[i] == b1 || s[i] == b2 {
        Some(i)
    } else {
        find2_from(s, b1, b2, i + 1)
    }
}

pub proof fn lemma_find_from(s: Seq<u8>, b: u8, i: int)
    requires
        0 <= i,
    ensures
        match find_from(s, b, i) {
            Some(j) => i <= j < s.len() && s[j] == b && forall|k: int| i <= k < j ==> s[k] != b,
            None => forall|k: int| i <= k < s.len() ==> s[k] != b,
        },
    decreases s.len() - i,
{
    if i < s.len() && s[i] != b {
        lemma_find_from(s, b, i + 1);
    }
}

pub proof fn lemma_find2_from(s: Seq<u8>, b1: u8, b2: u8, i: int)
    requires
        0 <= i,
    ensures
        match find2_from(s, b1, b2, i) {
            Some(j) => i <= j < s.len() && (s[j] == b1 || s[j] == b2) && forall|k: int|
                i <= k < j ==> s[k] != b1 && s[k] != b2,
            None => forall|k: int| i <= k < s.len() ==> s[k] != b1 && s[k] != b2,
        },
    decreases s.len() - i,
{
    if i < s.len() && s[i] != b1 && s[i] != b2 {
        lemma_find2_from(s, b1, b2, i + 1);
    }
}

/// Index of the first `b` in `s` at or after `i`, found with `memchr`.
pub fn find_byte_from(s: &[u8], b: u8, i: usize) -> (r: Option<usize>)
    requires
        i <= s.len(),
    ensures
        r == (match find_from(s@, b, i as int) {
            Some(j) => Some(j as usize),
            None => None::<usize>,
        }),
{
    let tail = &s[i..s.len()];
    let r = memchr(b, tail);
    proof {
        lemma_find_from(s@, b, i as int);
        match r {
            Some(p) => {
                assert(s@[i + p] == tail@[p as int]);
                assert forall|k: int| i <= k < i + p implies s@[k] != b by {
                    assert(s@[k] == tail@[k - i]);
                }
                match find_from(s@, b, i as int) {
                    Some(j) => {
                        if j < i + p {
                            assert(tail@[j - i] == s@[j]);
                        }
                    },
                    None => {},
                }
            },
            None => {
                assert forall|k: int| i <= k < s.len() implies s@[k] != b by {
                    assert(s@[k] == tail@[k - i]);
                }
            },
        }
    }
    match r {
        Some(p) => Some(i + p),
        None => None,
    }
}

/// Index of the first byte of `s` at or after `i` that is `b1` or `b2`, found
/// with `memchr2`.
pub fn find_byte2_from(s: &[u8], b1: u8, b2: u8, i: usize) -> (r: Option<usize>)
    requires
        i <= s.len(),
    ensures
        r == (match find2_from(s@, b1, b2, i as int) {
            Some(j) => Some(j as usize),
            None => None::<usize>,
        }),
{
    let tail = &s[i..s.len()];
    let r = memchr2(b1, b2, tail);
    proof {
        lemma_find2_from(s@, b1, b2, i as int);
        match r {
            Some(p) => {
                assert(s@[i + p] == tail@[p as int]);
                assert forall|k: int| i <= k < i + p implies s@[k] != b1 && s@[k] != b2 by {
                    assert(s@[k] == tail@[k - i]);
                }
                match find2_from(s@, b1, b2, i as int) {
                    Some(j) => {
                        if j < i + p {
                            assert(tail@[j - i] == s@[j]);
                        }
                    },
                    None => {},
                }
            },
            None => {
                assert forall|k: int| i <= k < s.len() implies s@[k] != b1 && s@[k] != b2 by {
                    assert(s@[k] == tail@[k - i]);
                }
            },
        }
    }
    match r {
        Some(p) => Some(i + p),
        None => None,
    }
}

/// Whether every byte of `s` is ASCII whitespace.
pub open spec fn all_spaces(s: Seq<u8>) -> bool {
    forall|i: int| 0 <= i < s.len() ==> is_space(#[trigger] s[i])
}

/// Whether every byte of `s` may appear in a number.
pub open spec fn all_number_chars(s: Seq<u8>) -> bool {
    forall|i: int| 0 <= i < s.len() ==> is_number_char(#[trigger] s[i])
}

pub fn all_spaces_exec(s: &[u8]) -> (r: bool)
    ensures
        r == all_spaces(s@),
{
    let mut i: usize = 0;
    while i < s.len()
        invariant
            i <= s.len(),
            forall|k: int| 0 <= k < i ==> is_space(#[trigger] s@[k]),
        decreases s.len() - i,
    {
        if !is_space_byte(s[i]) {
            return false;
        }
        i = i + 1;
    }
    true
}

/// The lowercase hexadecimal digit of `n` (below 16).
pub open spec fn hex_nibble(n: u8) -> u8 {
    if n < 10 {
        (0x30 + n) as u8
    } else {
        (0x57 + n) as u8
    }
}

/// How the byte `b` stands in a JSON string: a quote and a backslash after a
/// backslash, a control byte as `\u00` and two hexadecimal digits, any other
/// byte as it is.
pub open spec fn json_escape_byte(b: u8) -> Seq<u8> {
    if b == 0x22 || b == 0x5c {
        seq![0x5cu8, b]
    } else if b < 0x20 {
        seq![0x5cu8, 0x75u8, 0x30u8, 0x30u8, hex_nibble(b / 16), hex_nibble(b % 16)]
    } else {
        seq![b]
    }
}

/// `s` as it stands between the quotes of a JSON string.
pub open spec fn json_escape(s: Seq<u8>) -> Seq<u8>
    decreases s.len(),
{
    if s.len() == 0 {
        Seq::empty()
    } else {
        json_escape(s.drop_last()) + json_escape_byte(s.last())
    }
}

/// `s` as it stands between the quotes of a JSON string (see [`json_escape`]).
pub fn json_escape_exec(s: &[u8]) -> (r: Vec<u8>)
    ensures
        r@ == json_escape(s@),
{
    let mut out: Vec<u8> = Vec::new();
    let mut i: usize = 0;
    while i < s.len()
        invariant
            i <= s.len(),
            out@ == json_escape(s@.take(i as int)),
        decreases s.len() - i,
    {
        let b = s[i];
        assert(s@.take(i + 1).drop_last() =~= s@.take(i as int));
        let ghost before = out@;
        if b == 0x22 || b == 0x5c {
            out.push(0x5c);
            out.push(b);
        } else if b < 0x20 {
            let hi = b / 16;
            let lo = b % 16;
            out.push(0x5c);
            out.push(0x75);
            out.push(0x30);
            out.push(0x30);
            out.push(if hi < 10 { 0x30 + hi } else { 0x57 + hi });
            out.push(if lo < 10 { 0x30 + lo } else { 0x57 + lo });
        } else {
            out.push(b);
        }
        assert(out@ =~= before + json_escape_byte(b));
        i = i + 1;
    }
    assert(s@.take(s.len() as int) =~= s@);
    out
}

pub fn all_number_chars_exec(s: &[u8]) -> (r: bool)
    ensures
        r == all_number_chars(s@),
{
    let mut i: usize = 0;
    while i < s.len()
        invariant
            i <= s.len(),
            forall|k: int| 0 <= k < i ==> is_number_char(#[trigger] s@[k]),
        decreases s.len() - i,
    {
        if !is_number_byte(s[i]) {
            return false;
        }
        i = i + 1;
    }
    true
}

/// `s` without one trailing carriage return.
pub open spec fn strip_cr(s: Seq<u8>) -> Seq<u8> {
    if s.len() > 0 && s.last() == 0x0d {
        s.drop_last()
    } else {
        s
    }
}

/// `s` without one trailing carriage return.
pub fn strip_cr_slice(s: &[u8]) -> (r: &[u8])
    ensures
        r@ == strip_cr(s@),
{
    if s.len() > 0 && s[s.len() - 1] == 0x0d {
        &s[0..s.len() - 1]
    } else {
        s
    }
}

/// `t` without its enclosing double quotes, when it has them.
pub open spec fn unquote(t: Seq<u8>) -> Seq<u8> {
    if t.len() >= 2 && t[0] == 0x22 && t.last() == 0x22 {
        t.subrange(1, t.len() - 1)
    } else {
        t
    }
}

/// Splits a `KEY=VALUE` search pattern at its first `=`; `None` when it has
/// none.
pub fn split_pattern(pattern: &[u8]) -> (r: Option<(&[u8], &[u8])>)
    ensures
        match find_from(pattern@, 0x3d, 0) {
            None => r is None,
            Some(p) => r matches Some((k, v)) && k@ == pattern@.subrange(0, p) && v@ == pattern@.subrange(
                p + 1,
                pattern@.len() as int,
            ),
        },
{
    proof {
        lemma_find_from(pattern@, 0x3d, 0);
    }
    match find_byte_from(pattern, 0x3d, 0) {
        None => None,
        Some(p) => {
            assert(p < pattern.len());
            Some((&pattern[0..p], &pattern[p + 1..pattern.len()]))
        },
    }
}

/// The default name of an archive packed from `input`: `input.lmp`.
pub fn packed_path(input: &[u8]) -> (r: Vec<u8>)
    ensures
        r@ == input@ + seq![0x2eu8, 0x6cu8, 0x6du8, 0x70u8],
{
    let mut r = vstd::slice::slice_to_vec(input);
    r.push(0x2e);
    r.push(0x6c);
    r.push(0x6d);
    r.push(0x70);
    assert(r@ =~= input@ + seq![0x2eu8, 0x6cu8, 0x6du8, 0x70u8]);
    r
}

/// The default name of what an archive unpacks to: `input` without its
/// `.lmp`, or `input.out` when it has no such ending.
pub fn unpacked_path(input: &[u8]) -> (r: Vec<u8>)
    ensures
        ({
            let lmp = seq![0x2eu8, 0x6cu8, 0x6du8, 0x70u8];
            let n = input@.len() as int;
            if n >= 4 && input@.subrange(n - 4, n) == lmp {
                r@ == input@.subrange(0, n - 4)
            } else {
                r@ == input@ + seq![0x2eu8, 0x6fu8, 0x75u8, 0x74u8]
            }
        }),
{
    let n = input.len();
    let ghost lmp = seq![0x2eu8, 0x6cu8, 0x6du8, 0x70u8];
    if n >= 4 && input[n - 4] == 0x2e && input[n - 3] == 0x6c && input[n - 2] == 0x6d && input[n - 1]
        == 0x70 {
        assert(input@.subrange(n - 4, n as int) =~= lmp);
        return vstd::slice::slice_to_vec(&input[0..n - 4]);
    }
    assert(!(n >= 4 && input@.subrange(n - 4, n as int) == lmp)) by {
        if n >= 4 && input@.subrange(n - 4, n as int) == lmp {
            assert(input@.subrange(n - 4, n as int)[0] == input@[n - 4]);
            assert(input@.subrange(n - 4, n as int)[1] == input@[n - 3]);
            assert(input@.subrange(n - 4, n as int)[2] == input@[n - 2]);
            assert(input@.subrange(n - 4, n as int)[3] == input@[n - 1]);
        }
    }
    let mut r = vstd::slice::slice_to_vec(input);
    r.push(0x2e);
    r.push(0x6f);
    r.push(0x75);
    r.push(0x74);
    assert(r@ =~= input@ + seq![0x2eu8, 0x6fu8, 0x75u8, 0x74u8]);
    r
}

} // verus!
