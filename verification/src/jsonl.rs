//! Flat JSON lines as text: objects of strings and bare tokens, one after
//! another with whitespace between them; and what the engine makes of them.
use vstd::prelude::*;
use crate::json::{
    backslashes_before, closing_quote, json_run, json_start, json_step, FsmState, JsonState,
    JsonStep,
};
use crate::model::{
    concat_map, emit_number_step, emit_string_step, end_row_step, index_of, intern_key_step, intern_value_step,
    lemma_concat_map_push, lemma_concat_map_range, lemma_sum_u16_push, push_key_step, seen_of, sum_u16, Model,
    Value, empty_model,
};
use crate::number::{decimal_i64, parse_i64_spec};
use crate::reader::{key_head, quoted, value_text};
use crate::text::{
    all_spaces, find2_from, find_from, is_space, lemma_find2_from, lemma_find_from, lemma_skip_spaces_bounds,
    skip_spaces, trim_end_from,
};

verus! {

/// A value of a flat JSON object.
pub enum JsonValue {
    /// A string, by the bytes between its quotes, escapes as written.
    Str(Seq<u8>),
    /// A number, `true`, `false` or `null`, by its bytes.
    Token(Seq<u8>),
}

/// A value as written in the text.
pub open spec fn value_in(v: JsonValue) -> Seq<u8> {
    match v {
        JsonValue::Str(b) => quoted(b),
        JsonValue::Token(t) => t,
    }
}

/// A member as written in the text: `"key":value`.
pub open spec fn member_in(k: Seq<u8>, v: JsonValue) -> Seq<u8> {
    quoted(k) + seq![0x3au8] + value_in(v)
}

/// Members `j..` of an object as written, separated by commas.
pub open spec fn members_in(o: Seq<(Seq<u8>, JsonValue)>, j: int) -> Seq<u8>
    decreases o.len() - j,
{
    if j < 0 || j >= o.len() {
        Seq::empty()
    } else {
        member_in(o[j].0, o[j].1) + (if j + 1 < o.len() {
            seq![0x2cu8]
        } else {
            Seq::empty()
        }) + members_in(o, j + 1)
    }
}

/// An object as written: its members in braces.
pub open spec fn object_in(o: Seq<(Seq<u8>, JsonValue)>) -> Seq<u8> {
    seq![0x7bu8] + members_in(o, 0) + seq![0x7du8]
}

/// The text of objects `i..`, each after its whitespace `ws[i]`, and the
/// whitespace `ws[os.len()]` at the end.
pub open spec fn objects_in(os: Seq<Seq<(Seq<u8>, JsonValue)>>, ws: Seq<Seq<u8>>, i: int) -> Seq<u8>
    decreases os.len() - i,
{
    if i < 0 || i >= os.len() {
        ws[i]
    } else {
        ws[i] + object_in(os[i]) + objects_in(os, ws, i + 1)
    }
}

/// A key that the text can hold as it is: no quote, and not ending in an
/// escaping backslash.
pub open spec fn key_ok(k: Seq<u8>) -> bool {
    &&& forall|i: int| 0 <= i < k.len() ==> #[trigger] k[i] != 0x22
    &&& backslashes_before(k, 0, k.len() as int) % 2 == 0
}

/// A string body: every quote in it escaped, not ending in an escaping
/// backslash, and short enough to be kept as a literal.
pub open spec fn string_ok(b: Seq<u8>) -> bool {
    &&& forall|i: int| 0 <= i < b.len() && #[trigger] b[i] == 0x22 ==> backslashes_before(b, 0, i) % 2 == 1
    &&& backslashes_before(b, 0, b.len() as int) % 2 == 0
    &&& b.len() <= 0xffff
}

/// A bare token: not empty, beginning with no whitespace, quote, brace or
/// bracket, ending with no whitespace, holding no comma or closing brace;
/// an `i64`, or short enough to be kept as a literal.
pub open spec fn token_ok(t: Seq<u8>) -> bool {
    &&& t.len() > 0
    &&& !is_space(t[0]) && t[0] != 0x22 && t[0] != 0x7b && t[0] != 0x5b
    &&& !is_space(t.last())
    &&& forall|i: int| 0 <= i < t.len() ==> #[trigger] t[i] != 0x2c && t[i] != 0x7d
    &&& parse_i64_spec(t) is Some || t.len() <= 0xffff
}

pub open spec fn value_ok(v: JsonValue) -> bool {
    match v {
        JsonValue::Str(b) => string_ok(b),
        JsonValue::Token(t) => token_ok(t),
    }
}

/// The members of all the objects, one after another.
pub open spec fn flat(os: Seq<Seq<(Seq<u8>, JsonValue)>>) -> Seq<(Seq<u8>, JsonValue)> {
    concat_map(os, |o: Seq<(Seq<u8>, JsonValue)>| o)
}

/// The keys that occur in the objects.
pub open spec fn all_keys(os: Seq<Seq<(Seq<u8>, JsonValue)>>) -> Set<Seq<u8>> {
    flat(os).map_values(|p: (Seq<u8>, JsonValue)| p.0).to_set()
}

/// Flat JSON lines the engine reads as they are: whitespace between objects,
/// keys and values as above, at most 65 535 members in an object, at least
/// one member in all, fewer than `u32::MAX` members, at most 65 535 keys.
pub open spec fn jsonl_ok(os: Seq<Seq<(Seq<u8>, JsonValue)>>, ws: Seq<Seq<u8>>) -> bool {
    &&& ws.len() == os.len() + 1
    &&& forall|i: int| 0 <= i < ws.len() ==> all_spaces(#[trigger] ws[i])
    &&& forall|i: int| 0 <= i < os.len() ==> (#[trigger] os[i]).len() <= 0xffff
    &&& forall|x: int| 0 <= x < flat(os).len() ==> key_ok((#[trigger] flat(os)[x]).0) && value_ok(flat(os)[x].1)
    &&& 0 < flat(os).len() < u32::MAX
    &&& all_keys(os).len() <= 65535
}

/// How a value is written out on unpacking: a string in its quotes, a token
/// that is an `i64` in decimal, any other token as it is.
pub open spec fn value_out(v: JsonValue) -> Seq<u8> {
    match v {
        JsonValue::Str(b) => quoted(b),
        JsonValue::Token(t) => match parse_i64_spec(t) {
            Some(n) => decimal_i64(n),
            None => t,
        },
    }
}

/// Members `j..` written out, separated by `", "`.
pub open spec fn members_out(o: Seq<(Seq<u8>, JsonValue)>, j: int) -> Seq<u8>
    decreases o.len() - j,
{
    if j < 0 || j >= o.len() {
        Seq::empty()
    } else {
        (if j > 0 {
            seq![0x2cu8, 0x20u8]
        } else {
            Seq::empty()
        }) + key_head(o[j].0) + value_out(o[j].1) + members_out(o, j + 1)
    }
}

/// Objects `i..` written out, one JSON line each.
pub open spec fn objects_out(os: Seq<Seq<(Seq<u8>, JsonValue)>>, i: int) -> Seq<u8>
    decreases os.len() - i,
{
    if i < 0 || i >= os.len() {
        Seq::empty()
    } else {
        seq![0x7bu8] + members_out(os[i], 0) + seq![0x7du8, 0x0au8] + objects_out(os, i + 1)
    }
}

/// Backslashes before `p` counted in `s` down to `lo` are those counted in
/// the piece of `s` that starts at `lo`.
proof fn lemma_backslashes_local(s: Seq<u8>, lo: int, p: int, b: Seq<u8>)
    requires
        0 <= lo <= p <= lo + b.len() <= s.len(),
        s.subrange(lo, lo + b.len()) == b,
    ensures
        backslashes_before(s, lo, p) == backslashes_before(b, 0, p - lo),
    decreases p - lo,
{
    if p > lo {
        assert(s[p - 1] == b[p - 1 - lo]);
        lemma_backslashes_local(s, lo, p - 1, b);
    }
}

/// The quote that closes a string whose body `b` starts at `lo`.
proof fn lemma_closing_at(s: Seq<u8>, lo: int, c: int, b: Seq<u8>)
    requires
        string_ok(b),
        0 <= lo <= c <= lo + b.len() < s.len(),
        s.subrange(lo, lo + b.len()) == b,
        s[lo + b.len()] == 0x22,
    ensures
        closing_quote(s, lo, c) == Some(lo + b.len()),
    decreases lo + b.len() - c,
{
    lemma_find_from(s, 0x22, c);
    let e = lo + b.len();
    match find_from(s, 0x22, c) {
        Some(p) => {
            if p < e {
                assert(b[p - lo] == s[p]);
                lemma_backslashes_local(s, lo, p, b);
                lemma_closing_at(s, lo, p + 1, b);
            } else {
                assert(p == e);
                lemma_backslashes_local(s, lo, e, b);
            }
        },
        None => {
            assert(s[e] == 0x22);
        },
    }
}

/// What the parser has made of the first members of `fl`: a key id for each
/// of the first `kstream.len()` members (one more than there are values
/// while a value is awaited), naming its key, and a value for each of the
/// first `fields.len()`, written out as the member's value is; the keys all
/// among `ks`, once each; the counters bounded by the number of values.
pub open spec fn tracks(m: Model, fl: Seq<(Seq<u8>, JsonValue)>, ks: Set<Seq<u8>>, pending: bool) -> bool {
    &&& m.kstream.len() == m.fields.len() + (if pending {
        1int
    } else {
        0int
    })
    &&& m.kstream.len() <= fl.len()
    &&& m.keys.no_duplicates()
    &&& m.keys.to_set().subset_of(ks)
    &&& m.vals.len() <= m.fields.len()
    &&& forall|k: u16| #[trigger] m.seen.contains_key(k) ==> m.seen[k].0 <= m.fields.len()
    &&& forall|x: int|
        0 <= x < m.kstream.len() ==> #[trigger] m.kstream[x] < m.keys.len() && m.keys[m.kstream[x] as int]
            == fl[x].0
    &&& forall|x: int|
        0 <= x < m.fields.len() ==> (#[trigger] m.fields[x] matches Value::Str(id) ==> id < m.vals.len())
            && value_text(m.vals, m.fields[x]) == value_out(fl[x].1)
}

/// Interning the key of the next member and pushing its id.
proof fn lemma_key_step(m: Model, fl: Seq<(Seq<u8>, JsonValue)>, ks: Set<Seq<u8>>)
    requires
        tracks(m, fl, ks, false),
        m.fields.len() < fl.len(),
        ks.contains(fl[m.fields.len() as int].0),
        ks.finite(),
        ks.len() <= 65535,
    ensures
        intern_key_step(m, fl[m.fields.len() as int].0) matches Some((m1, id)) && tracks(
            push_key_step(m1, id),
            fl,
            ks,
            true,
        ) && m1.rows == m.rows && m1.fields == m.fields && m1.vals == m.vals && m1.seen == m.seen && m1.high
            == m.high,
{
    let k = fl[m.fields.len() as int].0;
    m.keys.unique_seq_to_set();
    vstd::set_lib::lemma_len_subset(m.keys.to_set(), ks);
    match index_of(m.keys, k) {
        Some(i) => {
            let i = choose|i: int| 0 <= i < m.keys.len() && m.keys[i] == k;
            crate::model::lemma_index_of_unique(m.keys, i);
        },
        None => {
            assert(!m.keys.to_set().contains(k));
            vstd::set_lib::lemma_len_subset(m.keys.to_set().insert(k), ks);
            let m1 = Model { keys: m.keys.push(k), ..m };
            assert(m1.keys.no_duplicates()) by {
                assert forall|a: int, b: int| 0 <= a < b < m1.keys.len() implies m1.keys[a] != m1.keys[b] by {
                    if b == m.keys.len() {
                        assert(m.keys.contains(m.keys[a]));
                    }
                }
            }
            crate::model::lemma_to_set_push(m.keys, k);
        },
    }
    let (m1, id) = intern_key_step(m, k)->Some_0;
    let m2 = push_key_step(m1, id);
    assert(m1.keys.take(m.keys.len() as int) =~= m.keys) by {
        assert(m1.keys.len() >= m.keys.len());
    }
    assert forall|x: int| 0 <= x < m2.kstream.len() implies #[trigger] m2.kstream[x] < m2.keys.len()
        && m2.keys[m2.kstream[x] as int] == fl[x].0 by {
        if x < m.kstream.len() {
            assert(m2.kstream[x] == m.kstream[x]);
            assert(m1.keys[m.kstream[x] as int] == m.keys[m.kstream[x] as int]);
        }
    }
}

/// Emitting the value of the next member, a string, for key id `key`.
proof fn lemma_string_step(m: Model, fl: Seq<(Seq<u8>, JsonValue)>, ks: Set<Seq<u8>>, key: u16, b: Seq<u8>)
    requires
        tracks(m, fl, ks, true),
        fl.len() < u32::MAX,
        fl[m.fields.len() as int].1 == JsonValue::Str(b),
        string_ok(b),
    ensures
        emit_string_step(m, key, b) matches Some(m2) && tracks(m2, fl, ks, false) && m2.rows == m.rows
            && m2.keys == m.keys,
{
    let n = m.fields.len() as int;
    if m.high.contains(key) {
        let m2 = Model { fields: m.fields.push(Value::StrLit(b)), ..m };
        assert forall|x: int| 0 <= x < m2.fields.len() implies (#[trigger] m2.fields[x] matches Value::Str(id)
            ==> id < m2.vals.len()) && value_text(m2.vals, m2.fields[x]) == value_out(fl[x].1) by {
            if x < n {
                assert(m2.fields[x] == m.fields[x]);
            }
        }
    } else {
        let s0 = seen_of(m, key);
        if m.seen.contains_key(key) {
            assert(m.seen[key].0 <= m.fields.len());
        }
        match index_of(m.vals, b) {
            Some(i) => {
                assert(exists|j: int| 0 <= j < m.vals.len() && m.vals[j] == b);
                assert(m.vals[i as int] == b);
            },
            None => {},
        }
        let (m1, id) = intern_value_step(m, b)->Some_0;
        assert(m1.vals[id as int] == b);
        let m2 = emit_string_step(m, key, b)->Some_0;
        assert forall|x: int| 0 <= x < m2.fields.len() implies (#[trigger] m2.fields[x] matches Value::Str(id)
            ==> id < m2.vals.len()) && value_text(m2.vals, m2.fields[x]) == value_out(fl[x].1) by {
            if x < n {
                assert(m2.fields[x] == m.fields[x]);
                match m.fields[x] {
                    Value::Str(j) => {
                        assert(m2.vals[j as int] == m.vals[j as int]);
                    },
                    _ => {},
                }
            }
        }
        assert forall|k: u16| #[trigger] m2.seen.contains_key(k) implies m2.seen[k].0 <= m2.fields.len() by {
            if k != key {
                assert(m.seen.contains_key(k));
            }
        }
    }
}

/// Emitting the value of the next member, a token.
proof fn lemma_token_step(m: Model, fl: Seq<(Seq<u8>, JsonValue)>, ks: Set<Seq<u8>>, t: Seq<u8>)
    requires
        tracks(m, fl, ks, true),
        fl[m.fields.len() as int].1 == JsonValue::Token(t),
        token_ok(t),
    ensures
        emit_number_step(m, t) matches Some(m2) && tracks(m2, fl, ks, false) && m2.rows == m.rows
            && m2.keys == m.keys,
{
    let n = m.fields.len() as int;
    let m2 = emit_number_step(m, t)->Some_0;
    assert forall|x: int| 0 <= x < m2.fields.len() implies (#[trigger] m2.fields[x] matches Value::Str(id)
        ==> id < m2.vals.len()) && value_text(m2.vals, m2.fields[x]) == value_out(fl[x].1) by {
        if x < n {
            assert(m2.fields[x] == m.fields[x]);
        }
    }
}

/// A byte of a piece of `s`.
proof fn lemma_at(s: Seq<u8>, c: int, piece: Seq<u8>, x: int)
    requires
        0 <= c,
        c + piece.len() <= s.len(),
        s.subrange(c, c + piece.len()) == piece,
        0 <= x < piece.len(),
    ensures
        s[c + x] == piece[x],
{
    assert(s.subrange(c, c + piece.len())[x] == s[c + x]);
}

/// A part of a piece of `s`.
proof fn lemma_at_sub(s: Seq<u8>, c: int, piece: Seq<u8>, a: int, b: int)
    requires
        0 <= c,
        c + piece.len() <= s.len(),
        s.subrange(c, c + piece.len()) == piece,
        0 <= a <= b <= piece.len(),
    ensures
        s.subrange(c + a, c + b) == piece.subrange(a, b),
{
    assert(s.subrange(c + a, c + b) =~= s.subrange(c, c + piece.len()).subrange(a, b));
}

/// The key of a member at `st.cursor`: to the colon state after it, with
/// the key's id pushed.
#[verifier::spinoff_prover]
proof fn lemma_key_in(s: Seq<u8>, st: JsonState, k: Seq<u8>, fl: Seq<(Seq<u8>, JsonValue)>, ks: Set<Seq<u8>>) -> (st1:
    JsonState)
    requires
        st.state == FsmState::Key,
        0 <= st.cursor,
        st.cursor + k.len() + 1 < s.len(),
        s[st.cursor] == 0x22,
        s.subrange(st.cursor + 1, st.cursor + 1 + k.len()) == k,
        s[st.cursor + 1 + k.len()] == 0x22,
        key_ok(k),
        tracks(st.m, fl, ks, false),
        st.m.fields.len() < fl.len(),
        fl[st.m.fields.len() as int].0 == k,
        ks.contains(k),
        ks.finite(),
        ks.len() <= 65535,
    ensures
        json_run(s, st) == json_run(s, st1),
        st1.state == FsmState::Colon,
        st1.cursor == st.cursor + 2 + k.len(),
        st1.field_count == st.field_count,
        tracks(st1.m, fl, ks, true),
        st1.m.fields == st.m.fields,
        st1.m.rows == st.m.rows,
        st1.m.kstream.last() == st1.cur_key,
{
    let c = st.cursor;
    let kl = k.len() as int;
    let q = c + 1 + kl;
    assert forall|x: int| c + 1 <= x < q implies s[x] != 0x22 by {
        assert(s.subrange(c + 1, q)[x - c - 1] == s[x]);
    }
    lemma_find2_from(s, 0x22, 0x7d, c);
    lemma_find_from(s, 0x22, c + 1);
    assert(find_from(s, 0x22, c + 1) == Some(q));
    lemma_backslashes_local(s, c + 1, q, k);
    lemma_key_step(st.m, fl, ks);
    assert(json_step(s, st) is Continue);
    let st1 = json_step(s, st)->Continue_0;
    assert(json_run(s, st) == json_run(s, st1));
    st1
}

/// The colon after a key, and the first byte of the value at `st.cursor + 1`.
#[verifier::spinoff_prover]
proof fn lemma_colon_in(s: Seq<u8>, st: JsonState) -> (st2: JsonState)
    requires
        st.state == FsmState::Colon,
        0 <= st.cursor,
        st.cursor + 1 < s.len(),
        s[st.cursor] == 0x3a,
        !is_space(s[st.cursor + 1]),
        s[st.cursor + 1] != 0x7b,
        s[st.cursor + 1] != 0x5b,
    ensures
        json_run(s, st) == json_run(s, st2),
        st2.m == st.m,
        st2.field_count == st.field_count,
        st2.cur_key == st.cur_key,
        s[st.cursor + 1] == 0x22 ==> st2.state == FsmState::ValueString && st2.cursor == st.cursor + 2
            && st2.val_start == st.cursor + 2,
        s[st.cursor + 1] != 0x22 ==> st2.state == FsmState::ValueNumber && st2.cursor == st.cursor + 1
            && st2.val_start == st.cursor + 1,
{
    let c = st.cursor;
    lemma_find_from(s, 0x3a, c);
    assert(s.subrange(c, c) =~= Seq::<u8>::empty());
    assert(json_step(s, st) is Continue);
    let st2 = json_step(s, st)->Continue_0;
    assert(json_run(s, st) == json_run(s, st2));
    st2
}

/// A string value whose body starts at `st.cursor`, then its comma or the
/// closing brace.
#[verifier::spinoff_prover]
proof fn lemma_string_in(
    s: Seq<u8>,
    st: JsonState,
    b: Seq<u8>,
    fl: Seq<(Seq<u8>, JsonValue)>,
    ks: Set<Seq<u8>>,
) -> (st3: JsonState)
    requires
        st.state == FsmState::ValueString,
        1 <= st.cursor,
        st.val_start == st.cursor,
        st.cursor + b.len() + 1 < s.len(),
        s.subrange(st.cursor, st.cursor + b.len()) == b,
        s[st.cursor + b.len()] == 0x22,
        s[st.cursor + b.len() + 1] == 0x2c || s[st.cursor + b.len() + 1] == 0x7d,
        string_ok(b),
        tracks(st.m, fl, ks, true),
        fl.len() < u32::MAX,
        fl[st.m.fields.len() as int].1 == JsonValue::Str(b),
        0 <= st.field_count < 0xffff,
    ensures
        json_run(s, st) == json_run(s, st3),
        st3.state == FsmState::Key,
        st3.field_count == st.field_count + 1,
        st3.cursor == st.cursor + b.len() + 1 + (if s[st.cursor + b.len() + 1] == 0x2c {
            1int
        } else {
            0int
        }),
        tracks(st3.m, fl, ks, false),
        st3.m.fields.len() == st.m.fields.len() + 1,
        st3.m.rows == st.m.rows,
{
    let vs = st.cursor;
    lemma_closing_at(s, vs, vs, b);
    lemma_string_step(st.m, fl, ks, st.cur_key, b);
    assert(skip_spaces(s, vs + b.len() + 1) == vs + b.len() + 1);
    assert(json_step(s, st) is Continue);
    let st3 = json_step(s, st)->Continue_0;
    assert(json_run(s, st) == json_run(s, st3));
    st3
}

/// A token value at `st.cursor`, then its comma or the closing brace.
#[verifier::spinoff_prover]
proof fn lemma_token_in(
    s: Seq<u8>,
    st: JsonState,
    t: Seq<u8>,
    fl: Seq<(Seq<u8>, JsonValue)>,
    ks: Set<Seq<u8>>,
) -> (st3: JsonState)
    requires
        st.state == FsmState::ValueNumber,
        0 <= st.cursor,
        st.val_start == st.cursor,
        st.cursor + t.len() < s.len(),
        s.subrange(st.cursor, st.cursor + t.len()) == t,
        s[st.cursor + t.len()] == 0x2c || s[st.cursor + t.len()] == 0x7d,
        token_ok(t),
        tracks(st.m, fl, ks, true),
        fl[st.m.fields.len() as int].1 == JsonValue::Token(t),
        0 <= st.field_count < 0xffff,
    ensures
        json_run(s, st) == json_run(s, st3),
        st3.state == FsmState::Key,
        st3.field_count == st.field_count + 1,
        st3.cursor == st.cursor + t.len() + (if s[st.cursor + t.len()] == 0x2c {
            1int
        } else {
            0int
        }),
        tracks(st3.m, fl, ks, false),
        st3.m.fields.len() == st.m.fields.len() + 1,
        st3.m.rows == st.m.rows,
{
    let vs = st.cursor;
    let end = vs + t.len();
    assert forall|x: int| vs <= x < end implies s[x] != 0x2c && s[x] != 0x7d by {
        assert(s.subrange(vs, end)[x - vs] == s[x]);
    }
    lemma_find2_from(s, 0x2c, 0x7d, vs);
    assert(find2_from(s, 0x2c, 0x7d, vs) == Some(end));
    assert(s[end - 1] == t.last()) by {
        assert(s.subrange(vs, end)[t.len() - 1] == s[end - 1]);
    }
    assert(trim_end_from(s, end, vs) == end);
    lemma_token_step(st.m, fl, ks, t);
    assert(json_step(s, st) is Continue);
    let st3 = json_step(s, st)->Continue_0;
    assert(json_run(s, st) == json_run(s, st3));
    st3
}

/// One member: from the key state at its first byte to the key state after
/// it and its comma.
#[verifier::spinoff_prover]
#[verifier::rlimit(60)]
proof fn lemma_member(
    s: Seq<u8>,
    st: JsonState,
    o: Seq<(Seq<u8>, JsonValue)>,
    j: int,
    fl: Seq<(Seq<u8>, JsonValue)>,
    ks: Set<Seq<u8>>,
) -> (st2: JsonState)
    requires
        st.state == FsmState::Key,
        0 <= j < o.len() <= 0xffff,
        st.field_count == j,
        tracks(st.m, fl, ks, false),
        st.m.fields.len() < fl.len() < u32::MAX,
        fl[st.m.fields.len() as int] == o[j],
        ks.contains(o[j].0),
        ks.finite(),
        ks.len() <= 65535,
        key_ok(o[j].0),
        value_ok(o[j].1),
        0 <= st.cursor,
        st.cursor + members_in(o, j).len() < s.len(),
        s.subrange(st.cursor, st.cursor + members_in(o, j).len() + 1) == members_in(o, j) + seq![0x7du8],
    ensures
        json_run(s, st) == json_run(s, st2),
        st2.state == FsmState::Key,
        st2.field_count == j + 1,
        st2.cursor == st.cursor + members_in(o, j).len() - members_in(o, j + 1).len(),
        tracks(st2.m, fl, ks, false),
        st2.m.fields.len() == st.m.fields.len() + 1,
        st2.m.rows == st.m.rows,
{
    let c = st.cursor;
    let k = o[j].0;
    let v = o[j].1;
    let kl = k.len() as int;
    let rest = members_in(o, j + 1);
    let cm: Seq<u8> = if j + 1 < o.len() {
        seq![0x2cu8]
    } else {
        Seq::empty()
    };
    let vi = value_in(v);
    let vl = vi.len() as int;
    let piece = members_in(o, j) + seq![0x7du8];
    assert(piece =~= seq![0x22u8] + k + seq![0x22u8, 0x3au8] + vi + cm + rest + seq![0x7du8]);
    let after = 3 + kl + vl;
    if j + 1 >= o.len() {
        assert(rest =~= Seq::<u8>::empty());
    }
    assert(piece[after] == (if j + 1 < o.len() {
        0x2cu8
    } else {
        0x7du8
    }));
    assert(piece.subrange(1, 1 + kl) =~= k);
    lemma_at(s, c, piece, 0);
    lemma_at(s, c, piece, 1 + kl);
    lemma_at(s, c, piece, 2 + kl);
    lemma_at(s, c, piece, 3 + kl);
    lemma_at(s, c, piece, after);
    lemma_at_sub(s, c, piece, 1, 1 + kl);
    let st1 = lemma_key_in(s, st, k, fl, ks);
    match v {
        JsonValue::Str(b) => {
            let bl = b.len() as int;
            assert(vi =~= seq![0x22u8] + b + seq![0x22u8]);
            assert(piece[3 + kl] == 0x22);
            let st2 = lemma_colon_in(s, st1);
            assert(piece.subrange(4 + kl, 4 + kl + bl) =~= b);
            lemma_at_sub(s, c, piece, 4 + kl, 4 + kl + bl);
            lemma_at(s, c, piece, 4 + kl + bl);
            let st3 = lemma_string_in(s, st2, b, fl, ks);
            st3
        },
        JsonValue::Token(t) => {
            let tl = t.len() as int;
            assert(vi == t);
            assert(piece[3 + kl] == t[0]);
            let st2 = lemma_colon_in(s, st1);
            assert(piece.subrange(3 + kl, 3 + kl + tl) =~= t);
            lemma_at_sub(s, c, piece, 3 + kl, 3 + kl + tl);
            let st3 = lemma_token_in(s, st2, t, fl, ks);
            st3
        },
    }
}

/// Members `j..` of an object: from the key state at the first to the key
/// state at the closing brace.
proof fn lemma_members(
    s: Seq<u8>,
    st: JsonState,
    o: Seq<(Seq<u8>, JsonValue)>,
    j: int,
    fl: Seq<(Seq<u8>, JsonValue)>,
    ks: Set<Seq<u8>>,
) -> (st2: JsonState)
    requires
        st.state == FsmState::Key,
        0 <= j <= o.len() <= 0xffff,
        st.field_count == j,
        tracks(st.m, fl, ks, false),
        st.m.fields.len() + (o.len() - j) <= fl.len() < u32::MAX,
        forall|x: int| j <= x < o.len() ==> fl[st.m.fields.len() + x - j] == #[trigger] o[x],
        forall|x: int|
            0 <= x < o.len() ==> key_ok((#[trigger] o[x]).0) && value_ok(o[x].1) && ks.contains(o[x].0),
        ks.finite(),
        ks.len() <= 65535,
        0 <= st.cursor,
        st.cursor + members_in(o, j).len() < s.len(),
        s.subrange(st.cursor, st.cursor + members_in(o, j).len() + 1) == members_in(o, j) + seq![0x7du8],
    ensures
        json_run(s, st) == json_run(s, st2),
        st2.state == FsmState::Key,
        st2.field_count == o.len(),
        st2.cursor == st.cursor + members_in(o, j).len(),
        tracks(st2.m, fl, ks, false),
        st2.m.fields.len() == st.m.fields.len() + o.len() - j,
        st2.m.rows == st.m.rows,
    decreases o.len() - j,
{
    if j < o.len() {
        assert(fl[st.m.fields.len() + j - j] == o[j]);
        let st1 = lemma_member(s, st, o, j, fl, ks);
        let piece = members_in(o, j) + seq![0x7du8];
        let rest = members_in(o, j + 1);
        let x = members_in(o, j).len() - rest.len();
        assert(members_in(o, j) =~= members_in(o, j).subrange(0, x) + rest);
        assert(piece.subrange(x, piece.len() as int) =~= rest + seq![0x7du8]);
        lemma_at_sub(s, st.cursor, piece, x, piece.len() as int);
        assert forall|y: int| j + 1 <= y < o.len() implies fl[st1.m.fields.len() + y - (j + 1)]
            == #[trigger] o[y] by {
            assert(fl[st.m.fields.len() + y - j] == o[y]);
        }
        lemma_members(s, st1, o, j + 1, fl, ks)
    } else {
        st
    }
}

/// One object after its whitespace: from the state between objects to the
/// state after its closing brace, with its row ended.
#[verifier::spinoff_prover]
proof fn lemma_object(
    s: Seq<u8>,
    st: JsonState,
    o: Seq<(Seq<u8>, JsonValue)>,
    w: Seq<u8>,
    fl: Seq<(Seq<u8>, JsonValue)>,
    ks: Set<Seq<u8>>,
) -> (st2: JsonState)
    requires
        st.state == FsmState::ObjectStart,
        st.field_count == 0,
        tracks(st.m, fl, ks, false),
        o.len() <= 0xffff,
        st.m.fields.len() + o.len() <= fl.len() < u32::MAX,
        forall|x: int| 0 <= x < o.len() ==> fl[st.m.fields.len() + x] == #[trigger] o[x],
        forall|x: int|
            0 <= x < o.len() ==> key_ok((#[trigger] o[x]).0) && value_ok(o[x].1) && ks.contains(o[x].0),
        ks.finite(),
        ks.len() <= 65535,
        all_spaces(w),
        0 <= st.cursor,
        st.cursor + w.len() + object_in(o).len() <= s.len(),
        s.subrange(st.cursor, st.cursor + w.len() + object_in(o).len()) == w + object_in(o),
    ensures
        json_run(s, st) == json_run(s, st2),
        st2.state == FsmState::ObjectStart,
        st2.field_count == 0,
        st2.cursor == st.cursor + w.len() + object_in(o).len(),
        tracks(st2.m, fl, ks, false),
        st2.m.fields.len() == st.m.fields.len() + o.len(),
        st2.m.rows == st.m.rows.push(o.len() as u16),
{
    let c = st.cursor;
    let wl = w.len() as int;
    let piece = w + object_in(o);
    let ml = members_in(o, 0).len() as int;
    assert(piece =~= w + seq![0x7bu8] + members_in(o, 0) + seq![0x7du8]);
    assert forall|x: int| c <= x < c + wl implies s[x] != 0x7b && (is_space(s[x]) || s[x] == 0x2c) by {
        lemma_at(s, c, piece, x - c);
        assert(is_space(w[x - c]));
    }
    lemma_at(s, c, piece, wl);
    lemma_find_from(s, 0x7b, c);
    assert(find_from(s, 0x7b, c) == Some(c + wl));
    assert(json_step(s, st) is Continue);
    let st1 = json_step(s, st)->Continue_0;
    assert(json_run(s, st) == json_run(s, st1));
    assert(st1.state == FsmState::Key && st1.cursor == c + wl + 1 && st1.field_count == 0 && st1.m == st.m);
    assert(piece.subrange(wl + 1, piece.len() as int) =~= members_in(o, 0) + seq![0x7du8]);
    lemma_at_sub(s, c, piece, wl + 1, piece.len() as int);
    assert forall|x: int| 0 <= x < o.len() implies fl[st1.m.fields.len() + x - 0] == #[trigger] o[x] by {
        assert(fl[st.m.fields.len() + x] == o[x]);
    }
    let st3 = lemma_members(s, st1, o, 0, fl, ks);
    let e = c + wl + 1 + ml;
    lemma_at(s, c, piece, wl + 1 + ml);
    lemma_find2_from(s, 0x22, 0x7d, e);
    assert(find2_from(s, 0x22, 0x7d, e) == Some(e));
    lemma_sum_u16_push(st3.m.rows, o.len() as u16);
    assert(json_step(s, st3) is Continue);
    let st4 = json_step(s, st3)->Continue_0;
    assert(json_run(s, st3) == json_run(s, st4));
    let m4 = st4.m;
    assert(m4 == end_row_step(st3.m, o.len() as u16));
    st4
}

/// The number of members of each object.
pub open spec fn lens(os: Seq<Seq<(Seq<u8>, JsonValue)>>) -> Seq<u16> {
    os.map_values(|o: Seq<(Seq<u8>, JsonValue)>| o.len() as u16)
}

/// Object `i`'s members stand in the flat sequence after those before it.
proof fn lemma_flat_at(os: Seq<Seq<(Seq<u8>, JsonValue)>>, i: int)
    requires
        0 <= i < os.len(),
    ensures
        flat(os.take(i + 1)) == flat(os.take(i)) + os[i],
        flat(os.take(i)).len() + os[i].len() <= flat(os).len(),
        forall|x: int| 0 <= x < os[i].len() ==> flat(os)[flat(os.take(i)).len() + x] == #[trigger] os[i][x],
{
    let f = |o: Seq<(Seq<u8>, JsonValue)>| o;
    lemma_concat_map_range(os, i, i + 1, f);
    assert(os.subrange(i, i + 1) =~= Seq::<Seq<(Seq<u8>, JsonValue)>>::empty().push(os[i]));
    lemma_concat_map_push(Seq::<Seq<(Seq<u8>, JsonValue)>>::empty(), os[i], f);
    assert(concat_map(Seq::<Seq<(Seq<u8>, JsonValue)>>::empty(), f) =~= Seq::<(Seq<u8>, JsonValue)>::empty());
    assert(concat_map(os.subrange(i, i + 1), f) =~= os[i]);
    let a = flat(os.take(i)).len() as int;
    assert forall|x: int| 0 <= x < os[i].len() implies flat(os)[a + x] == #[trigger] os[i][x] by {
        assert(flat(os).subrange(a, a + os[i].len())[x] == flat(os)[a + x]);
    }
}

/// A member's key is among the keys of the objects.
proof fn lemma_key_known(os: Seq<Seq<(Seq<u8>, JsonValue)>>, x: int)
    requires
        0 <= x < flat(os).len(),
    ensures
        all_keys(os).contains(flat(os)[x].0),
        all_keys(os).finite(),
{
    let ksq = flat(os).map_values(|p: (Seq<u8>, JsonValue)| p.0);
    assert(ksq[x] == flat(os)[x].0);
    assert(ksq.contains(flat(os)[x].0));
    vstd::seq_lib::seq_to_set_is_finite(ksq);
}

/// The objects from `i` on, from the state between objects to the end.
proof fn lemma_objects(
    s: Seq<u8>,
    st: JsonState,
    os: Seq<Seq<(Seq<u8>, JsonValue)>>,
    ws: Seq<Seq<u8>>,
    i: int,
) -> (m: Model)
    requires
        jsonl_ok(os, ws),
        0 <= i <= os.len(),
        st.state == FsmState::ObjectStart,
        st.field_count == 0,
        tracks(st.m, flat(os), all_keys(os), false),
        st.m.fields.len() == flat(os.take(i)).len(),
        st.m.rows == lens(os.take(i)),
        0 <= st.cursor <= s.len(),
        s.subrange(st.cursor, s.len() as int) == objects_in(os, ws, i),
    ensures
        json_run(s, st) == Some(m),
        tracks(m, flat(os), all_keys(os), false),
        m.fields.len() == flat(os).len(),
        m.rows == lens(os),
    decreases os.len() - i,
{
    let fl = flat(os);
    let ks = all_keys(os);
    let c = st.cursor;
    if i < os.len() {
        let o = os[i];
        lemma_flat_at(os, i);
        lemma_key_known(os, 0);
        assert forall|x: int| 0 <= x < o.len() implies key_ok((#[trigger] o[x]).0) && value_ok(o[x].1)
            && ks.contains(o[x].0) by {
            let y = flat(os.take(i)).len() + x;
            assert(fl[y] == o[x]);
            lemma_key_known(os, y);
        }
        assert forall|x: int| 0 <= x < o.len() implies fl[st.m.fields.len() + x] == #[trigger] o[x] by {}
        let rest = objects_in(os, ws, i + 1);
        let piece = ws[i] + object_in(o);
        assert(objects_in(os, ws, i) =~= piece + rest);
        assert(s.subrange(c, c + piece.len()) =~= piece) by {
            assert(s.subrange(c, c + piece.len()) =~= s.subrange(c, s.len() as int).subrange(0, piece.len() as int));
        }
        let st2 = lemma_object(s, st, o, ws[i], fl, ks);
        assert(s.subrange(st2.cursor, s.len() as int) =~= rest) by {
            assert(s.subrange(st2.cursor, s.len() as int) =~= s.subrange(c, s.len() as int).subrange(
                piece.len() as int,
                (s.len() - c) as int,
            ));
        }
        assert(lens(os.take(i + 1)) =~= lens(os.take(i)).push(o.len() as u16));
        lemma_objects(s, st2, os, ws, i + 1)
    } else {
        assert(os.take(i) =~= os);
        let w = ws[i];
        assert(all_spaces(w));
        if c < s.len() {
            assert forall|x: int| c <= x < s.len() implies s[x] != 0x7b && (is_space(s[x]) || s[x] == 0x2c) by {
                assert(s.subrange(c, s.len() as int)[x - c] == s[x]);
                assert(is_space(w[x - c]));
            }
            lemma_find_from(s, 0x7b, c);
            assert(json_step(s, st) == JsonStep::Done(st));
        }
        st.m
    }
}

/// How the rows of a model that tracks all the objects are written out.
proof fn lemma_fields_out(
    m: Model,
    os: Seq<Seq<(Seq<u8>, JsonValue)>>,
    r: int,
    a: int,
    j: int,
)
    requires
        tracks(m, flat(os), all_keys(os), false),
        m.fields.len() == flat(os).len(),
        0 <= r < os.len(),
        a == flat(os.take(r)).len(),
        0 <= j <= os[r].len(),
    ensures
        crate::laws::fields_json(m.kstream, m.fields, m.keys, m.vals, a + j, a + os[r].len(), j == 0)
            == members_out(os[r], j),
    decreases os[r].len() - j,
{
    lemma_flat_at(os, r);
    if j < os[r].len() {
        lemma_fields_out(m, os, r, a, j + 1);
        let x = a + j;
        assert(flat(os)[x] == os[r][j]);
        assert(m.kstream[x] < m.keys.len());
        assert(m.fields[x] matches Value::Str(id) ==> id < m.vals.len());
        assert(crate::laws::field_json(m.kstream, m.fields, m.keys, m.vals, x) == key_head(os[r][j].0)
            + value_out(os[r][j].1));
    }
}

/// The members of the first `r` objects add up to the row lengths before row `r`.
proof fn lemma_sum_lens(os: Seq<Seq<(Seq<u8>, JsonValue)>>, r: int)
    requires
        0 <= r <= os.len(),
        forall|i: int| 0 <= i < os.len() ==> (#[trigger] os[i]).len() <= 0xffff,
    ensures
        sum_u16(lens(os).take(r)) == flat(os.take(r)).len(),
    decreases r,
{
    if r > 0 {
        lemma_sum_lens(os, r - 1);
        lemma_flat_at(os, r - 1);
        assert(lens(os).take(r) =~= lens(os).take(r - 1).push(os[r - 1].len() as u16));
        lemma_sum_u16_push(lens(os).take(r - 1), os[r - 1].len() as u16);
    } else {
        assert(lens(os).take(0) =~= Seq::<u16>::empty());
        assert(os.take(0) =~= Seq::<Seq<(Seq<u8>, JsonValue)>>::empty());
    }
}

/// The rows from `r` on of a model that tracks all the objects, written out.
proof fn lemma_rows_out(m: Model, os: Seq<Seq<(Seq<u8>, JsonValue)>>, r: int)
    requires
        tracks(m, flat(os), all_keys(os), false),
        m.fields.len() == flat(os).len(),
        m.rows == lens(os),
        forall|i: int| 0 <= i < os.len() ==> (#[trigger] os[i]).len() <= 0xffff,
        0 <= r <= os.len(),
    ensures
        crate::laws::rows_json(m.kstream, m.fields, m.rows, m.keys, m.vals, r) == objects_out(os, r),
    decreases os.len() - r,
{
    if r < os.len() {
        lemma_rows_out(m, os, r + 1);
        lemma_sum_lens(os, r);
        let a = flat(os.take(r)).len() as int;
        assert(m.rows[r] == os[r].len());
        lemma_fields_out(m, os, r, a, 0);
    }
}

/// Flat JSON lines pack as columns and unpack to what they say: the engine
/// reads the objects `os` written with the whitespace `ws` around them (see
/// [`jsonl_ok`]), and the JSON lines of what it keeps are one line per
/// object, its members in order, each as `"key": value`, a string in its
/// quotes as written, an `i64` token in decimal, any other token as written.
pub proof fn lemma_jsonl_packs(os: Seq<Seq<(Seq<u8>, JsonValue)>>, ws: Seq<Seq<u8>>)
    requires
        jsonl_ok(os, ws),
    ensures
        crate::archive::parse_input(empty_model(), objects_in(os, ws, 0)) matches Some(m)
            && crate::laws::model_json(m) == objects_out(os, 0),
{
    let s = objects_in(os, ws, 0);
    if os.len() == 0 {
        assert(flat(os) =~= Seq::<(Seq<u8>, JsonValue)>::empty());
    }
    let w0 = ws[0];
    assert(s =~= w0 + object_in(os[0]) + objects_in(os, ws, 1));
    assert(s[w0.len() as int] == 0x7b);
    lemma_skip_spaces_bounds(s, 0);
    let p = skip_spaces(s, 0);
    if p < w0.len() {
        assert(s[p] == w0[p]);
        assert(is_space(w0[p]));
    }
    assert(p == w0.len());
    assert(crate::format::detect_format_spec(s) == crate::format::InputFormat::JsonLines);
    let st = json_start(empty_model());
    let fl = flat(os);
    let ks = all_keys(os);
    assert(empty_model().keys.to_set() =~= Set::<Seq<u8>>::empty());
    assert(tracks(empty_model(), fl, ks, false));
    assert(os.take(0) =~= Seq::<Seq<(Seq<u8>, JsonValue)>>::empty());
    assert(flat(os.take(0)) =~= Seq::<(Seq<u8>, JsonValue)>::empty());
    assert(lens(os.take(0)) =~= Seq::<u16>::empty());
    assert(s.subrange(0, s.len() as int) =~= s);
    let m = lemma_objects(s, st, os, ws, 0);
    lemma_rows_out(m, os, 0);
}

} // verus!
