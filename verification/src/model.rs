//! The abstract content of an engine: the keys and dictionary strings it has
//! interned, the fields it has parsed, the row lengths, and the cardinality
//! bookkeeping; with the byte streams that the engine keeps for them.
use vstd::prelude::*;
use crate::number::parse_i64_spec;
use crate::varint::{varint_bytes, zigzag};

verus! {

pub const TYPE_VARINT: u8 = 0;

pub const TYPE_STRING: u8 = 1;

pub const TYPE_LITERAL: u8 = 2;

pub const TYPE_STRING_LIT: u8 = 3;

/// Number of string values of a key after which its cardinality is judged.
pub const CARD_SAMPLES: u32 = 100;

/// Largest number of keys that an engine interns.
pub const MAX_KEYS: u16 = 65535;

/// The value of one parsed field.
pub enum Value {
    /// An integer, kept as a zigzag varint.
    Int(i64),
    /// A string kept in the dictionary, by its id there.
    Str(u32),
    /// A value that is kept as it was written (a number that is not an `i64`).
    Lit(Seq<u8>),
    /// A string of a high-cardinality key, kept as it was written.
    StrLit(Seq<u8>),
}

/// Each literal's length fits its 16-bit field.
pub open spec fn literal_fits(v: Value) -> bool {
    match v {
        Value::Lit(b) => b.len() <= 0xffff,
        Value::StrLit(b) => b.len() <= 0xffff,
        _ => true,
    }
}

/// The type byte that the archive stores for a value.
pub open spec fn value_type(f: Value) -> u8 {
    match f {
        Value::Int(_) => TYPE_VARINT,
        Value::Str(_) => TYPE_STRING,
        Value::Lit(_) => TYPE_LITERAL,
        Value::StrLit(_) => TYPE_STRING_LIT,
    }
}

/// Concatenation of `f` over `s`.
pub open spec fn concat_map<A, B>(s: Seq<A>, f: spec_fn(A) -> Seq<B>) -> Seq<B>
    decreases s.len(),
{
    if s.len() == 0 {
        Seq::empty()
    } else {
        concat_map(s.drop_last(), f) + f(s.last())
    }
}

/// Sum of a sequence of `u16`.
pub open spec fn sum_u16(s: Seq<u16>) -> nat
    decreases s.len(),
{
    if s.len() == 0 {
        0
    } else {
        sum_u16(s.drop_last()) + s.last() as nat
    }
}

pub open spec fn sid_part(f: Value) -> Seq<u32> {
    match f {
        Value::Str(id) => seq![id],
        _ => Seq::empty(),
    }
}

pub open spec fn varint_part(f: Value) -> Seq<u8> {
    match f {
        Value::Int(n) => varint_bytes(zigzag(n)),
        _ => Seq::empty(),
    }
}

pub open spec fn lit_part(f: Value) -> Seq<u8> {
    match f {
        Value::Lit(b) => b,
        Value::StrLit(b) => b,
        _ => Seq::empty(),
    }
}

pub open spec fn lit_len_part(f: Value) -> Seq<u16> {
    match f {
        Value::Lit(b) => seq![b.len() as u16],
        Value::StrLit(b) => seq![b.len() as u16],
        _ => Seq::empty(),
    }
}

pub open spec fn types_of(fs: Seq<Value>) -> Seq<u8> {
    fs.map_values(|f: Value| value_type(f))
}

/// Dictionary ids of the dictionary strings among `fs`, in order.
pub open spec fn sids_of(fs: Seq<Value>) -> Seq<u32> {
    concat_map(fs, |f: Value| sid_part(f))
}

/// The varint bytes of the integers among `fs`, in order.
pub open spec fn varints_of(fs: Seq<Value>) -> Seq<u8> {
    concat_map(fs, |f: Value| varint_part(f))
}

/// The bytes of the literals among `fs`, in order.
pub open spec fn lits_of(fs: Seq<Value>) -> Seq<u8> {
    concat_map(fs, |f: Value| lit_part(f))
}

/// The stored (16-bit) lengths of the literals among `fs`, in order.
pub open spec fn lit_lens_of(fs: Seq<Value>) -> Seq<u16> {
    concat_map(fs, |f: Value| lit_len_part(f))
}

/// The bytes of the dictionary strings, one after the other.
pub open spec fn dict_bytes_of(vals: Seq<Seq<u8>>) -> Seq<u8> {
    concat_map(vals, |v: Seq<u8>| v)
}

/// The stored (32-bit) lengths of the dictionary strings.
pub open spec fn dict_lens_of(vals: Seq<Seq<u8>>) -> Seq<u32> {
    vals.map_values(|v: Seq<u8>| v.len() as u32)
}

pub proof fn lemma_concat_map_push<A, B>(s: Seq<A>, x: A, f: spec_fn(A) -> Seq<B>)
    ensures
        concat_map(s.push(x), f) == concat_map(s, f) + f(x),
{
    assert(s.push(x).drop_last() =~= s);
}

pub proof fn lemma_concat_map_append<A, B>(a: Seq<A>, b: Seq<A>, f: spec_fn(A) -> Seq<B>)
    ensures
        concat_map(a + b, f) == concat_map(a, f) + concat_map(b, f),
    decreases b.len(),
{
    if b.len() == 0 {
        assert(a + b =~= a);
        assert(concat_map(a, f) + concat_map(b, f) =~= concat_map(a, f));
    } else {
        assert((a + b).drop_last() =~= a + b.drop_last());
        lemma_concat_map_append(a, b.drop_last(), f);
        assert(concat_map(a, f) + concat_map(b, f) =~= concat_map(a, f) + concat_map(
            b.drop_last(),
            f,
        ) + f(b.last()));
    }
}

/// The part of a concatenation that comes from `s[a..b]`.
pub proof fn lemma_concat_map_range<A, B>(s: Seq<A>, a: int, b: int, f: spec_fn(A) -> Seq<B>)
    requires
        0 <= a <= b <= s.len(),
    ensures
        concat_map(s.take(b), f) == concat_map(s.take(a), f) + concat_map(s.subrange(a, b), f),
        concat_map(s, f) == concat_map(s.take(b), f) + concat_map(s.skip(b), f),
        concat_map(s.take(a), f).len() <= concat_map(s.take(b), f).len() <= concat_map(s, f).len(),
        concat_map(s, f).subrange(
            concat_map(s.take(a), f).len() as int,
            concat_map(s.take(b), f).len() as int,
        ) == concat_map(s.subrange(a, b), f),
        concat_map(s, f).take(concat_map(s.take(a), f).len() as int) == concat_map(s.take(a), f),
{
    assert(s.take(b) =~= s.take(a) + s.subrange(a, b));
    lemma_concat_map_append(s.take(a), s.subrange(a, b), f);
    assert(s =~= s.take(b) + s.skip(b));
    lemma_concat_map_append(s.take(b), s.skip(b), f);
    let x = concat_map(s.take(a), f);
    let y = concat_map(s.subrange(a, b), f);
    let z = concat_map(s.skip(b), f);
    assert(concat_map(s, f) == x + y + z);
    assert((x + y + z).subrange(x.len() as int, (x.len() + y.len()) as int) =~= y);
    assert((x + y + z).take(x.len() as int) =~= x);
}

/// Prefix sums of a sequence of `u16`.
pub proof fn lemma_sum_u16_range(s: Seq<u16>, a: int, b: int)
    requires
        0 <= a <= b <= s.len(),
    ensures
        sum_u16(s.take(b)) == sum_u16(s.take(a)) + sum_u16(s.subrange(a, b)),
        sum_u16(s.take(a)) <= sum_u16(s.take(b)) <= sum_u16(s),
{
    assert(s.take(b) =~= s.take(a) + s.subrange(a, b));
    lemma_sum_u16_append(s.take(a), s.subrange(a, b));
    assert(s =~= s.take(b) + s.skip(b));
    lemma_sum_u16_append(s.take(b), s.skip(b));
}

pub proof fn lemma_sum_u16_append(a: Seq<u16>, b: Seq<u16>)
    ensures
        sum_u16(a + b) == sum_u16(a) + sum_u16(b),
    decreases b.len(),
{
    if b.len() == 0 {
        assert(a + b =~= a);
    } else {
        assert((a + b).drop_last() =~= a + b.drop_last());
        lemma_sum_u16_append(a, b.drop_last());
    }
}

pub proof fn lemma_sum_u16_push(s: Seq<u16>, x: u16)
    ensures
        sum_u16(s.push(x)) == sum_u16(s) + x,
{
    assert(s.push(x).drop_last() =~= s);
}

/// The stored length of a literal is at most its length, so the stored
/// lengths add up to at most the literal bytes.
pub proof fn lemma_lit_lens_bound(fs: Seq<Value>)
    ensures
        sum_u16(lit_lens_of(fs)) <= lits_of(fs).len(),
        lit_lens_of(fs).len() <= fs.len(),
    decreases fs.len(),
{
    if fs.len() > 0 {
        let t = fs.drop_last();
        lemma_lit_lens_bound(t);
        assert(fs =~= t.push(fs.last()));
        lemma_concat_map_push(t, fs.last(), |f: Value| lit_part(f));
        lemma_concat_map_push(t, fs.last(), |f: Value| lit_len_part(f));
        lemma_sum_u16_append(lit_lens_of(t), lit_len_part(fs.last()));
        match fs.last() {
            Value::Lit(b) => {
                lemma_sum_u16_push(Seq::<u16>::empty(), b.len() as u16);
                assert(seq![b.len() as u16] =~= Seq::<u16>::empty().push(b.len() as u16));
                assert(b.len() as u16 <= b.len());
            },
            Value::StrLit(b) => {
                lemma_sum_u16_push(Seq::<u16>::empty(), b.len() as u16);
                assert(seq![b.len() as u16] =~= Seq::<u16>::empty().push(b.len() as u16));
                assert(b.len() as u16 <= b.len());
            },
            _ => {
                assert(sum_u16(Seq::<u16>::empty()) == 0);
            },
        }
    }
}

/// Index of `k` in `s`, when it occurs there.
pub open spec fn index_of(s: Seq<Seq<u8>>, k: Seq<u8>) -> Option<nat> {
    if exists|i: int| 0 <= i < s.len() && s[i] == k {
        Some((choose|i: int| 0 <= i < s.len() && s[i] == k) as nat)
    } else {
        None
    }
}

pub proof fn lemma_index_of_unique(s: Seq<Seq<u8>>, i: int)
    requires
        s.no_duplicates(),
        0 <= i < s.len(),
    ensures
        index_of(s, s[i]) == Some(i as nat),
{
    let j = choose|j: int| 0 <= j < s.len() && s[j] == s[i];
    assert(0 <= j < s.len() && s[j] == s[i]);
}

pub proof fn lemma_to_set_push<A>(s: Seq<A>, x: A)
    ensures
        s.push(x).to_set() == s.to_set().insert(x),
{
    let t = s.push(x);
    assert forall|a: A| t.to_set().contains(a) <==> s.to_set().insert(x).contains(a) by {
        if t.contains(a) {
            let i = choose|i: int| 0 <= i < t.len() && t[i] == a;
            if i < s.len() {
                assert(s[i] == a);
            }
        }
        if s.contains(a) {
            let i = choose|i: int| 0 <= i < s.len() && s[i] == a;
            assert(t[i] == a);
        }
        if a == x {
            assert(t[s.len() as int] == a);
        }
    }
    assert(t.to_set() =~= s.to_set().insert(x));
}

/// The abstract content of an engine.
pub struct Model {
    /// Interned keys, by id.
    pub keys: Seq<Seq<u8>>,
    /// Dictionary strings, by id.
    pub vals: Seq<Seq<u8>>,
    /// Key ids of the fields, in the order they were parsed; the key of a
    /// field whose value has not come yet stands at the end.
    pub kstream: Seq<u16>,
    /// Values of the fields parsed so far.
    pub fields: Seq<Value>,
    /// Number of fields of each finished row.
    pub rows: Seq<u16>,
    /// For each key id: string values seen, and how many were new.
    pub seen: Map<u16, (u32, u32)>,
    /// Keys judged high-cardinality: their strings bypass the dictionary.
    pub high: Set<u16>,
}

/// A model with nothing in it.
pub open spec fn empty_model() -> Model {
    Model {
        keys: Seq::empty(),
        vals: Seq::empty(),
        kstream: Seq::empty(),
        fields: Seq::empty(),
        rows: Seq::empty(),
        seen: Map::empty(),
        high: Set::empty(),
    }
}

pub open spec fn value_ok(m: Model, f: Value) -> bool {
    f matches Value::Str(id) ==> id < m.vals.len()
}

/// What holds of every model an engine can reach.
pub open spec fn model_wf(m: Model) -> bool {
    &&& forall|k: int| 0 <= k < m.fields.len() ==> literal_fits(#[trigger] m.fields[k])
    &&& m.keys.no_duplicates()
    &&& m.keys.len() <= MAX_KEYS
    &&& m.vals.no_duplicates()
    &&& m.vals.len() <= u32::MAX
    &&& sum_u16(m.rows) <= m.fields.len()
    &&& sum_u16(m.rows) <= m.kstream.len()
    &&& forall|i: int| 0 <= i < m.kstream.len() ==> #[trigger] m.kstream[i] < m.keys.len()
    &&& forall|i: int| 0 <= i < m.fields.len() ==> value_ok(m, #[trigger] m.fields[i])
    &&& forall|k: u16| #[trigger] m.seen.contains_key(k) ==> m.seen[k].1 <= m.seen[k].0
}

/// Interning a key: its id if it is known; else the next id, unless the key
/// table is full.
pub open spec fn intern_key_step(m: Model, k: Seq<u8>) -> Option<(Model, u16)> {
    match index_of(m.keys, k) {
        Some(i) => Some((m, i as u16)),
        None => if m.keys.len() >= MAX_KEYS {
            None
        } else {
            Some((Model { keys: m.keys.push(k), ..m }, m.keys.len() as u16))
        },
    }
}

/// Interning a dictionary string: its id if it is known; else the next id,
/// unless the dictionary is full.
pub open spec fn intern_value_step(m: Model, v: Seq<u8>) -> Option<(Model, u32)> {
    match index_of(m.vals, v) {
        Some(i) => Some((m, i as u32)),
        None => if m.vals.len() >= u32::MAX {
            None
        } else {
            Some((Model { vals: m.vals.push(v), ..m }, m.vals.len() as u32))
        },
    }
}

/// The counters of `key`, zero when it has none yet.
pub open spec fn seen_of(m: Model, key: u16) -> (u32, u32) {
    if m.seen.contains_key(key) {
        m.seen[key]
    } else {
        (0, 0)
    }
}

/// `n` rounded to a multiple of `d`: to the nearer one, a tie to the one
/// whose quotient by `d` is even.
pub open spec fn round_to(n: nat, d: nat) -> nat {
    let q = n / d;
    let r = n % d;
    if 2 * r > d || (2 * r == d && q % 2 == 1) {
        (q + 1) * d
    } else {
        q * d
    }
}

/// The value of the `u32` `n` converted to `f32`: `n` rounded to 24
/// significant bits, a tie to the even neighbour.
pub open spec fn f32_value(n: nat) -> nat {
    if n < 0x100_0000 {
        n
    } else if n < 0x200_0000 {
        round_to(n, 2)
    } else if n < 0x400_0000 {
        round_to(n, 4)
    } else if n < 0x800_0000 {
        round_to(n, 8)
    } else if n < 0x1000_0000 {
        round_to(n, 16)
    } else if n < 0x2000_0000 {
        round_to(n, 32)
    } else if n < 0x4000_0000 {
        round_to(n, 64)
    } else if n < 0x8000_0000 {
        round_to(n, 128)
    } else {
        round_to(n, 256)
    }
}

/// Whether a key with `seen` string values, `new` of them new, is judged
/// high-cardinality: at least `CARD_SAMPLES` values, and `new / seen`
/// computed in `f32` above one half. Both counts are converted to `f32`
/// values `fu` and `fc` (see [`f32_value`]); their quotient rounded to `f32`
/// exceeds one half exactly when `fu / fc` exceeds `1/2 + 2^-25` (the next
/// `f32` above one half is `1/2 + 2^-24`, and a tie goes to one half, whose
/// significand is even).
pub open spec fn judged_high(seen: u32, new: u32) -> bool {
    seen >= CARD_SAMPLES && 0x200_0000 * f32_value(new as nat) > 0x100_0001 * f32_value(seen as nat)
}

fn round_to_exec(n: u64, d: u64) -> (r: u64)
    requires
        1 <= d <= 256,
        n <= u32::MAX,
    ensures
        r == round_to(n as nat, d as nat),
        r <= n + d,
{
    let q = n / d;
    let rem = n % d;
    proof {
        vstd::arithmetic::div_mod::lemma_fundamental_div_mod(n as int, d as int);
        assert((q + 1) * d == q * d + d) by (nonlinear_arith);
        assert(q * d == d * q) by (nonlinear_arith);
    }
    if 2 * rem > d || (2 * rem == d && q % 2 == 1) {
        (q + 1) * d
    } else {
        q * d
    }
}

/// The value of `n` converted to `f32` (see [`f32_value`]).
fn f32_value_exec(n: u32) -> (r: u64)
    ensures
        r == f32_value(n as nat),
        r <= 0x1_0000_0100,
{
    let x = n as u64;
    if x < 0x100_0000 {
        x
    } else if x < 0x200_0000 {
        round_to_exec(x, 2)
    } else if x < 0x400_0000 {
        round_to_exec(x, 4)
    } else if x < 0x800_0000 {
        round_to_exec(x, 8)
    } else if x < 0x1000_0000 {
        round_to_exec(x, 16)
    } else if x < 0x2000_0000 {
        round_to_exec(x, 32)
    } else if x < 0x4000_0000 {
        round_to_exec(x, 64)
    } else if x < 0x8000_0000 {
        round_to_exec(x, 128)
    } else {
        round_to_exec(x, 256)
    }
}

/// Whether a key with `seen` string values, `new` of them new, is judged
/// high-cardinality (see [`judged_high`]).
pub fn high_cardinality(seen: u32, new: u32) -> (r: bool)
    ensures
        r == judged_high(seen, new),
{
    let fu = f32_value_exec(new);
    let fc = f32_value_exec(seen);
    seen >= CARD_SAMPLES && 0x200_0000u64 * fu > 0x100_0001u64 * fc
}

/// A string value of a field of key `key`: a literal for a high-cardinality
/// key; else a dictionary id, with the key's counters updated and the key
/// judged high-cardinality by [`judged_high`]. `None` where a counter or the dictionary is full,
/// or where a literal is too long for its 16-bit length.
pub open spec fn emit_string_step(m: Model, key: u16, v: Seq<u8>) -> Option<Model> {
    if m.high.contains(key) {
        if v.len() > 0xffff {
            None
        } else {
            Some(Model { fields: m.fields.push(Value::StrLit(v)), ..m })
        }
    } else {
        let was_new = index_of(m.vals, v) is None;
        match intern_value_step(m, v) {
            None => None,
            Some((m1, id)) => {
                let s = seen_of(m, key);
                if s.0 == u32::MAX {
                    None
                } else {
                    let s2 = ((s.0 + 1) as u32, (if was_new {
                        s.1 + 1
                    } else {
                        s.1 as int
                    }) as u32);
                    let high = if judged_high(s2.0, s2.1) {
                        m.high.insert(key)
                    } else {
                        m.high
                    };
                    Some(
                        Model {
                            fields: m1.fields.push(Value::Str(id)),
                            seen: m.seen.insert(key, s2),
                            high: high,
                            ..m1
                        },
                    )
                }
            },
        }
    }
}

/// A number: an integer when the text is an `i64`, else a literal; `None`
/// where the literal is too long for its 16-bit length.
pub open spec fn emit_number_step(m: Model, b: Seq<u8>) -> Option<Model> {
    match parse_i64_spec(b) {
        Some(n) => Some(Model { fields: m.fields.push(Value::Int(n)), ..m }),
        None => if b.len() > 0xffff {
            None
        } else {
            Some(Model { fields: m.fields.push(Value::Lit(b)), ..m })
        },
    }
}

/// The key of a field whose value comes next.
pub open spec fn push_key_step(m: Model, id: u16) -> Model {
    Model { kstream: m.kstream.push(id), ..m }
}

/// The end of a row of `count` fields.
pub open spec fn end_row_step(m: Model, count: u16) -> Model {
    Model { rows: m.rows.push(count), ..m }
}

/// A model in which every field has its key and lies in a closed row.
pub open spec fn model_complete(m: Model) -> bool {
    &&& m.kstream.len() == m.fields.len()
    &&& sum_u16(m.rows) == m.fields.len()
}

/// Every literal among `fs` fits its 16-bit length.
pub open spec fn literals_fit(fs: Seq<Value>) -> bool {
    forall|k: int| 0 <= k < fs.len() ==> literal_fits(#[trigger] fs[k])
}

/// A value adds one field, whose literal fits its length, and leaves the
/// keys, key ids and rows as they were.
pub proof fn lemma_emit_shapes(m: Model, key: u16, v: Seq<u8>)
    ensures
        emit_string_step(m, key, v) matches Some(m2) ==> m2.kstream == m.kstream && m2.rows == m.rows
            && m2.keys == m.keys && m2.fields.len() == m.fields.len() + 1 && m2.fields.drop_last() == m.fields
            && literal_fits(m2.fields.last()),
        emit_number_step(m, v) matches Some(m2) ==> m2.kstream == m.kstream && m2.rows == m.rows
            && m2.keys == m.keys && m2.fields.len() == m.fields.len() + 1 && m2.fields.drop_last() == m.fields
            && literal_fits(m2.fields.last()),
{
    assert forall|f: Value| m.fields.push(f).drop_last() == m.fields by {
        assert(m.fields.push(f).drop_last() =~= m.fields);
    }
}

/// Pushing a value that fits keeps every literal fitting.
pub proof fn lemma_literals_fit_push(fs: Seq<Value>, gs: Seq<Value>)
    requires
        literals_fit(fs),
        gs.len() == fs.len() + 1,
        gs.drop_last() == fs,
        literal_fits(gs.last()),
    ensures
        literals_fit(gs),
{
    assert forall|k: int| 0 <= k < gs.len() implies literal_fits(#[trigger] gs[k]) by {
        if k < fs.len() {
            assert(gs[k] == gs.drop_last()[k]);
        }
    }
}


/// Number of times `b` occurs in `s`.
pub open spec fn count_byte(s: Seq<u8>, b: u8) -> nat
    decreases s.len(),
{
    if s.len() == 0 {
        0
    } else {
        count_byte(s.drop_last(), b) + if s.last() == b {
            1nat
        } else {
            0nat
        }
    }
}

pub open spec fn int_part(f: Value) -> Seq<i64> {
    match f {
        Value::Int(n) => seq![n],
        _ => Seq::empty(),
    }
}

/// The integers among `fs`, in order.
pub open spec fn ints_of(fs: Seq<Value>) -> Seq<i64> {
    concat_map(fs, |f: Value| int_part(f))
}

/// The varint bytes of the integers `ns`, one complete varint after another.
pub open spec fn varints_of_ints(ns: Seq<i64>) -> Seq<u8> {
    concat_map(ns, |n: i64| varint_bytes(zigzag(n)))
}

/// How the streams of the fields `fs` count: one string id per dictionary
/// string, one literal length per literal, one complete varint per integer,
/// each string id below `ndict` where every value is.
pub proof fn lemma_stream_counts(fs: Seq<Value>, ndict: nat)
    ensures
        count_byte(types_of(fs), TYPE_STRING) == sids_of(fs).len(),
        count_byte(types_of(fs), TYPE_LITERAL) + count_byte(types_of(fs), TYPE_STRING_LIT) == lit_lens_of(
            fs,
        ).len(),
        count_byte(types_of(fs), TYPE_VARINT) == ints_of(fs).len(),
        varints_of(fs) == varints_of_ints(ints_of(fs)),
        (forall|k: int| 0 <= k < fs.len() ==> (#[trigger] fs[k] matches Value::Str(id) ==> id < ndict))
            ==> forall|i: int| 0 <= i < sids_of(fs).len() ==> #[trigger] sids_of(fs)[i] < ndict,
    decreases fs.len(),
{
    if fs.len() > 0 {
        let t = fs.drop_last();
        let f = fs.last();
        lemma_stream_counts(t, ndict);
        assert(fs =~= t.push(f));
        assert(types_of(fs).drop_last() =~= types_of(t));
        lemma_concat_map_push(t, f, |x: Value| sid_part(x));
        lemma_concat_map_push(t, f, |x: Value| lit_len_part(x));
        lemma_concat_map_push(t, f, |x: Value| int_part(x));
        lemma_concat_map_push(t, f, |x: Value| varint_part(x));
        lemma_concat_map_append(ints_of(t), int_part(f), |n: i64| varint_bytes(zigzag(n)));
        match f {
            Value::Int(n) => {
                assert(int_part(f) =~= Seq::<i64>::empty().push(n));
                lemma_concat_map_push(Seq::<i64>::empty(), n, |n: i64| varint_bytes(zigzag(n)));
                assert(concat_map(Seq::<i64>::empty(), |n: i64| varint_bytes(zigzag(n))) =~= Seq::<u8>::empty());
                assert(varints_of_ints(int_part(f)) =~= varint_bytes(zigzag(n)));
            },
            _ => {
                assert(varints_of_ints(int_part(f)) =~= Seq::<u8>::empty());
            },
        }
        assert(varints_of(fs) =~= varints_of_ints(ints_of(fs)));
        if forall|k: int| 0 <= k < fs.len() ==> (#[trigger] fs[k] matches Value::Str(id) ==> id < ndict) {
            assert forall|k: int| 0 <= k < t.len() implies (#[trigger] t[k] matches Value::Str(id) ==> id
                < ndict) by {
                assert(t[k] == fs[k]);
            }
            assert forall|i: int| 0 <= i < sids_of(fs).len() implies #[trigger] sids_of(fs)[i] < ndict by {
                if i < sids_of(t).len() {
                    assert(sids_of(fs)[i] == sids_of(t)[i]);
                } else {
                    assert(fs[fs.len() - 1] == f);
                }
            }
        }
    }
}


} // verus!
