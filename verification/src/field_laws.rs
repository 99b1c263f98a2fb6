//! What packing promises of a single CSV field and header, and what
//! searching promises of single values and raw lines.
use vstd::prelude::*;
use crate::csv::{csv_value_step, header_names, split_fields};
use crate::model::{emit_string_step, push_key_step, Model, Value};
use crate::number::parse_i64_spec;
use crate::laws::query_of;
use crate::reader::{field_matches, raw_grep};
use crate::text::{
    all_number_chars, all_spaces, find_from, is_space, json_escape, lemma_find_from, lemma_trimmed_padded, occurs_at,
    raw_line_matches_spec, skip_separators, value_follows,
};

verus! {

/// Whitespace around a CSV field changes nothing: the field padded with
/// spaces, tabs or line ends on either side is stored as the field alone.
pub proof fn law_csv_field_trimmed(m: Model, a: Seq<u8>, t: Seq<u8>, b: Seq<u8>, key: u16)
    requires
        all_spaces(a),
        all_spaces(b),
        t.len() > 0,
        !is_space(t[0]),
        !is_space(t.last()),
    ensures
        csv_value_step(m, a + t + b, key) == csv_value_step(m, t, key),
{
    lemma_trimmed_padded(a, t, b);
    lemma_trimmed_padded(Seq::empty(), t, Seq::empty());
    assert(Seq::<u8>::empty() + t + Seq::<u8>::empty() =~= t);
}

/// A CSV field that reads as an `i64`, with whitespace around it or not, is
/// stored as that integer under its column's key.
pub proof fn law_csv_integer_field(m: Model, a: Seq<u8>, t: Seq<u8>, b: Seq<u8>, key: u16, n: i64)
    requires
        all_spaces(a),
        all_spaces(b),
        t.len() > 0,
        all_number_chars(t),
        parse_i64_spec(t) == Some(n),
    ensures
        csv_value_step(m, a + t + b, key) == Some(
            Model { kstream: m.kstream.push(key), fields: m.fields.push(Value::Int(n)), ..m },
        ),
{
    assert(!is_space(t[0]) && !is_space(t[t.len() - 1]));
    lemma_trimmed_padded(a, t, b);
}

/// A CSV field of text, neither quoted nor made of number characters alone,
/// is stored as a string of the field without the whitespace around it.
pub proof fn law_csv_text_field(m: Model, a: Seq<u8>, t: Seq<u8>, b: Seq<u8>, key: u16)
    requires
        all_spaces(a),
        all_spaces(b),
        t.len() > 0,
        !is_space(t[0]),
        !is_space(t.last()),
        t[0] != 0x22,
        !all_number_chars(t),
    ensures
        csv_value_step(m, a + t + b, key) == emit_string_step(push_key_step(m, key), key, json_escape(t)),
{
    lemma_trimmed_padded(a, t, b);
}

/// A quoted CSV field, with whitespace around the quotes or not, is stored
/// as a string of the text between the quotes.
pub proof fn law_csv_quoted_field(m: Model, a: Seq<u8>, v: Seq<u8>, b: Seq<u8>, key: u16)
    requires
        all_spaces(a),
        all_spaces(b),
    ensures
        csv_value_step(m, a + seq![0x22u8] + v + seq![0x22u8] + b, key) == emit_string_step(
            push_key_step(m, key),
            key,
            json_escape(v),
        ),
{
    let q = seq![0x22u8] + v + seq![0x22u8];
    assert(a + q + b =~= a + seq![0x22u8] + v + seq![0x22u8] + b);
    assert(q[0] == 0x22 && q.last() == 0x22);
    lemma_trimmed_padded(a, q, b);
    assert(q.subrange(1, q.len() - 1) =~= v);
}

/// A header of one column whose name stands in double quotes, with
/// whitespace around them, names the key of the text between the quotes.
pub proof fn law_csv_quoted_header(a: Seq<u8>, n: Seq<u8>, b: Seq<u8>)
    requires
        all_spaces(a),
        all_spaces(b),
        forall|k: int| 0 <= k < n.len() ==> n[k] != 0x2c,
    ensures
        header_names(a + seq![0x22u8] + n + seq![0x22u8] + b) == seq![json_escape(n)],
{
    let q = seq![0x22u8] + n + seq![0x22u8];
    let line = a + q + b;
    assert(line =~= a + seq![0x22u8] + n + seq![0x22u8] + b);
    assert(q[0] == 0x22 && q.last() == 0x22);
    lemma_trimmed_padded(a, q, b);
    lemma_find_from(line, 0x2c, 0);
    assert forall|k: int| 0 <= k < line.len() implies line[k] != 0x2c by {
        if k < a.len() {
            assert(line[k] == a[k]);
        } else if k == a.len() || k == a.len() + n.len() + 1 {
            assert(line[k] == 0x22);
        } else if k < a.len() + n.len() + 1 {
            assert(line[k] == n[k - a.len() - 1]);
        } else {
            assert(line[k] == b[k - a.len() - n.len() - 2]);
        }
    }
    assert(find_from(line, 0x2c, 0) is None);
    assert(split_fields(line, 0) == seq![line.subrange(0, line.len() as int)]);
    assert(line.subrange(0, line.len() as int) =~= line);
    assert(q.subrange(1, q.len() - 1) =~= n);
    assert(header_names(line) =~= seq![json_escape(n)]);
}

/// A raw line matches a key only where the key stands whole between double
/// quotes: a line whose keys merely end, or begin, with the searched key
/// does not match.
pub proof fn law_raw_key_quoted(line: Seq<u8>, key: Seq<u8>, value: Seq<u8>)
    requires
        raw_line_matches_spec(line, key, value),
    ensures
        exists|p: int|
            0 <= p && p + key.len() + 2 <= line.len() && #[trigger] line[p] == 0x22 && line.subrange(p + 1, p + 1
                + key.len()) == key && line[p + 1 + key.len()] == 0x22,
{
    let pattern = seq![0x22u8] + key + seq![0x22u8];
    let pos = choose|pos: int|
        {
            &&& #[trigger] occurs_at(line, pattern, pos)
            &&& value_follows(line.subrange(pos + pattern.len(), line.len() as int), value)
        };
    let w = line.subrange(pos, pos + pattern.len());
    assert(w == pattern);
    assert(line[pos] == w[0]);
    assert(line[pos + 1 + key.len()] == w[1 + key.len() as int]);
    assert(line.subrange(pos + 1, pos + 1 + key.len()) =~= w.subrange(1, 1 + key.len() as int));
    assert(w.subrange(1, 1 + key.len() as int) =~= key);
}

/// A raw line in which the quoted key is followed by a colon and the value
/// in double quotes matches that key and value, wherever it stands.
pub proof fn law_raw_quoted_value_matches(a: Seq<u8>, key: Seq<u8>, value: Seq<u8>, b: Seq<u8>)
    requires
        forall|k: int| 0 <= k < value.len() ==> value[k] != 0x22,
    ensures
        raw_line_matches_spec(
            a + seq![0x22u8] + key + seq![0x22u8, 0x3au8, 0x22u8] + value + seq![0x22u8] + b,
            key,
            value,
        ),
{
    let pattern = seq![0x22u8] + key + seq![0x22u8];
    let tail = seq![0x3au8, 0x22u8] + value + seq![0x22u8] + b;
    let line = a + pattern + tail;
    assert(line =~= a + seq![0x22u8] + key + seq![0x22u8, 0x3au8, 0x22u8] + value + seq![0x22u8] + b);
    let pos = a.len() as int;
    assert(line.subrange(pos, pos + pattern.len()) =~= pattern);
    assert(occurs_at(line, pattern, pos));
    let rest0 = line.subrange(pos + pattern.len(), line.len() as int);
    assert(rest0 =~= tail);
    assert(skip_separators(rest0, 1) == 1);
    assert(skip_separators(rest0, 0) == 1);
    let rest = rest0.subrange(1, rest0.len() as int);
    assert(rest[0] == 0x22);
    let body = rest.subrange(1, rest.len() as int);
    assert(body =~= value + seq![0x22u8] + b);
    let end = value.len() as int;
    assert(body[end] == 0x22);
    assert(body.subrange(0, end) =~= value);
    assert(forall|j: int| 0 <= j < end ==> body[j] != 0x22);
    assert(value_follows(rest0, value));
}

/// A literal field (a number that is no `i64`, `true`, `false`, `null`)
/// matches a search only when its bytes are exactly the searched value
/// under the searched key; so two different literals never both match.
pub proof fn law_literal_match_exact(m: Model, key: Seq<u8>, value: Seq<u8>, kid: u16, lit: Seq<u8>)
    requires
        query_of(m, key, value) is Some,
    ensures
        field_matches(query_of(m, key, value).unwrap(), kid, Value::Lit(lit)) <==> (kid
            == query_of(m, key, value).unwrap().key && lit == value),
        field_matches(query_of(m, key, value).unwrap(), kid, Value::StrLit(lit)) <==> (kid
            == query_of(m, key, value).unwrap().key && lit == value),
{
}

/// A line feed found in `p` is found at the same place in `p` with more
/// text after it.
proof fn lemma_find_from_prefix(p: Seq<u8>, l: Seq<u8>, i: int)
    requires
        0 <= i,
        find_from(p, 0x0a, i) is Some,
    ensures
        find_from(p + l, 0x0a, i) == find_from(p, 0x0a, i),
    decreases p.len() - i,
{
    let s = p + l;
    if i < p.len() {
        assert(s[i] == p[i]);
        if p[i] != 0x0a {
            lemma_find_from_prefix(p, l, i + 1);
        }
    }
}

/// What the lines of `p + l` from the line start `i` give, where `l` is a
/// last line without a line feed.
proof fn lemma_raw_grep_last_line(
    p: Seq<u8>,
    l: Seq<u8>,
    key: Seq<u8>,
    value: Seq<u8>,
    i: int,
    acc: Seq<Seq<u8>>,
)
    requires
        0 <= i <= p.len(),
        p.len() == 0 || p.last() == 0x0a,
        forall|k: int| 0 <= k < l.len() ==> l[k] != 0x0a,
    ensures
        raw_grep(p + l, key, value, i, acc) == raw_grep(p, key, value, i, acc) + (if l.len() > 0
            && raw_line_matches_spec(l, key, value) {
            seq![l.push(0x0a)]
        } else {
            Seq::empty()
        }),
    decreases p.len() - i,
{
    let s = p + l;
    let tail: Seq<Seq<u8>> = if l.len() > 0 && raw_line_matches_spec(l, key, value) {
        seq![l.push(0x0a)]
    } else {
        Seq::empty()
    };
    lemma_find_from(p, 0x0a, i);
    lemma_find_from(s, 0x0a, i);
    if i == p.len() {
        assert(find_from(p, 0x0a, i) is None);
        if find_from(s, 0x0a, i) is Some {
            let j = find_from(s, 0x0a, i).unwrap();
            assert(s[j] == l[j - p.len()]);
        }
        assert(s.subrange(i, s.len() as int) =~= l);
        assert(p.subrange(i, i) =~= Seq::<u8>::empty());
        if l.len() > 0 && raw_line_matches_spec(l, key, value) {
            assert(acc.push(l.push(0x0a)) =~= acc + tail);
        } else {
            assert(acc =~= acc + tail);
        }
    } else {
        if find_from(p, 0x0a, i) is None {
            assert(p[p.len() - 1] == 0x0a);
        }
        let q = find_from(p, 0x0a, i).unwrap();
        lemma_find_from_prefix(p, l, i);
        assert(s.subrange(i, q) =~= p.subrange(i, q));
        let line = p.subrange(i, q);
        let acc2 = if line.len() > 0 && raw_line_matches_spec(line, key, value) {
            acc.push(line.push(0x0a))
        } else {
            acc
        };
        lemma_raw_grep_last_line(p, l, key, value, q + 1, acc2);
    }
}

/// Searching raw text searches its last line too: text `p` (empty, or
/// ending with a line feed) followed by a last line `l` without a line feed
/// gives what `p` gives, then `l` with a line feed when it is not empty and
/// matches.
pub proof fn law_raw_grep_last_line(p: Seq<u8>, l: Seq<u8>, key: Seq<u8>, value: Seq<u8>)
    requires
        p.len() == 0 || p.last() == 0x0a,
        forall|k: int| 0 <= k < l.len() ==> l[k] != 0x0a,
    ensures
        raw_grep(p + l, key, value, 0, Seq::empty()) == raw_grep(p, key, value, 0, Seq::empty()) + (if l.len()
            > 0 && raw_line_matches_spec(l, key, value) {
            seq![l.push(0x0a)]
        } else {
            Seq::empty()
        }),
{
    lemma_raw_grep_last_line(p, l, key, value, 0, Seq::empty());
}

/// Searching `c + y` from inside `y` finds what searching `y` finds, moved
/// by the length of `c`.
proof fn lemma_find_from_shift(c: Seq<u8>, y: Seq<u8>, i: int)
    requires
        0 <= i,
    ensures
        find_from(c + y, 0x2c, c.len() + i) == (match find_from(y, 0x2c, i) {
            Some(j) => Some(c.len() + j),
            None => None::<int>,
        }),
    decreases y.len() - i,
{
    if i < y.len() {
        assert((c + y)[c.len() + i] == y[i]);
        if y[i] != 0x2c {
            lemma_find_from_shift(c, y, i + 1);
        }
    }
}

/// The pieces of `c + y` from inside `y` are those of `y`.
proof fn lemma_split_fields_shift(c: Seq<u8>, y: Seq<u8>, i: int)
    requires
        0 <= i <= y.len(),
    ensures
        split_fields(c + y, c.len() + i) == split_fields(y, i),
    decreases y.len() - i,
{
    let s = c + y;
    lemma_find_from_shift(c, y, i);
    lemma_find_from(y, 0x2c, i);
    match find_from(y, 0x2c, i) {
        Some(j) => {
            assert(s.subrange(c.len() + i, c.len() + j) =~= y.subrange(i, j));
            lemma_split_fields_shift(c, y, j + 1);
            assert(c.len() + j + 1 == c.len() + (j + 1));
        },
        None => {
            assert(s.subrange(c.len() + i, s.len() as int) =~= y.subrange(i, y.len() as int));
        },
    }
}

/// The columns of a header are read one after the other: a first column
/// without a comma, a comma, then the rest name the first column's key and
/// then the keys of the rest.
pub proof fn law_csv_header_columns(x: Seq<u8>, y: Seq<u8>)
    requires
        forall|k: int| 0 <= k < x.len() ==> x[k] != 0x2c,
    ensures
        header_names(x + seq![0x2cu8] + y) == header_names(x) + header_names(y),
{
    let c = x + seq![0x2cu8];
    let line = c + y;
    assert(line =~= x + seq![0x2cu8] + y);
    lemma_find_from(line, 0x2c, 0);
    lemma_find_from(x, 0x2c, 0);
    assert(line[x.len() as int] == 0x2c);
    assert forall|k: int| 0 <= k < x.len() implies line[k] != 0x2c by {
        assert(line[k] == x[k]);
    }
    assert(find_from(line, 0x2c, 0) == Some(x.len() as int));
    assert(find_from(x, 0x2c, 0) is None);
    lemma_split_fields_shift(c, y, 0);
    assert(c.len() + 0 == x.len() + 1);
    assert(line.subrange(0, x.len() as int) =~= x);
    assert(x.subrange(0, x.len() as int) =~= x);
    assert(split_fields(line, 0) == seq![x] + split_fields(y, 0));
    assert(split_fields(x, 0) == seq![x]);
    assert(header_names(line) =~= header_names(x) + header_names(y));
}

} // verus!
