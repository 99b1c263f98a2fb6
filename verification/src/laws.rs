//! What packing and unpacking promise of each other.
use vstd::prelude::*;
use crate::archive::{
    archive_header, dict_block, frame_count, frames_concat, is_raw_archive, is_structured_archive, lemma_hex_lower, model_fits,
    raw_hash, schema_block, structured_layout, BLOCK_LEVEL, RAW_MARK,
};
use crate::trusted::{zstd_decoded, zstd_frame};
use crate::bytes::{le_u32, lemma_u32_le_roundtrip, u32_le_bytes};
use crate::reader::{
    field_matches, frame_wanted, grep_frames, grepped, key_head, magic, offsets_fit, raw_grep, unpacked, value_text,
    ErrorKind, Target,
};
use crate::model::{
    dict_bytes_of, index_of, literal_fits, lits_of, model_complete, model_wf, sum_u16, varints_of, Model,
    Value,
};
use crate::number::parse_i64_spec;
use crate::csv::{
    csv_parse, header_names, intern_all, lemma_csv_lines, lemma_csv_parse_complete, lemma_intern_all, rows_keyed,
};
use crate::archive::parse_input;
use crate::format::{detect_format_spec, strip_json_array_spec, InputFormat};
use crate::json::{json_complete_inv, json_parse, json_start, lemma_json_run_complete};
use crate::model::empty_model;
use crate::text::{find_from, strip_cr};
use crate::archive::row_fields;
use crate::reader::first_index;
use crate::roundtrip::{
    frames_decode, lemma_dict_roundtrip, lemma_le_u32_at, lemma_read_frames_from, lemma_schema_roundtrip,
};
use crate::trusted::sha256_of;

verus! {

/// How field `k` is written out: `"key": value`.
pub open spec fn field_json(
    ks: Seq<u16>,
    ff: Seq<Value>,
    keys: Seq<Seq<u8>>,
    vals: Seq<Seq<u8>>,
    k: int,
) -> Seq<u8> {
    key_head(keys[ks[k] as int]) + value_text(vals, ff[k])
}

/// Fields `k..b` written out, separated by `", "` (none before the first
/// when `first`).
pub open spec fn fields_json(
    ks: Seq<u16>,
    ff: Seq<Value>,
    keys: Seq<Seq<u8>>,
    vals: Seq<Seq<u8>>,
    k: int,
    b: int,
    first: bool,
) -> Seq<u8>
    decreases b - k,
{
    if k >= b {
        Seq::empty()
    } else {
        (if first {
            Seq::empty()
        } else {
            seq![0x2cu8, 0x20u8]
        }) + field_json(ks, ff, keys, vals, k) + fields_json(ks, ff, keys, vals, k + 1, b, false)
    }
}

/// Rows `r..` written out as JSON objects, one per line; the fields of row
/// `r` follow those of the rows before it.
pub open spec fn rows_json(
    ks: Seq<u16>,
    ff: Seq<Value>,
    rs: Seq<u16>,
    keys: Seq<Seq<u8>>,
    vals: Seq<Seq<u8>>,
    r: int,
) -> Seq<u8>
    decreases rs.len() - r,
{
    if r < 0 || r >= rs.len() {
        Seq::empty()
    } else {
        let a = sum_u16(rs.take(r)) as int;
        seq![0x7bu8] + fields_json(ks, ff, keys, vals, a, a + rs[r], true) + seq![0x7du8, 0x0au8]
            + rows_json(ks, ff, rs, keys, vals, r + 1)
    }
}

/// Whether one of fields `k..b` matches `t`.
pub open spec fn any_match(ks: Seq<u16>, ff: Seq<Value>, t: Target, k: int, b: int) -> bool
    decreases b - k,
{
    if k >= b {
        false
    } else {
        field_matches(t, ks[k], ff[k]) || any_match(ks, ff, t, k + 1, b)
    }
}

/// The rows from `r` on that have a field matching `t`, each written out as
/// its JSON line.
pub open spec fn matching_rows(
    ks: Seq<u16>,
    ff: Seq<Value>,
    rs: Seq<u16>,
    keys: Seq<Seq<u8>>,
    vals: Seq<Seq<u8>>,
    t: Target,
    r: int,
) -> Seq<Seq<u8>>
    decreases rs.len() - r,
{
    if r < 0 || r >= rs.len() {
        Seq::empty()
    } else {
        let a = sum_u16(rs.take(r)) as int;
        let line = seq![0x7bu8] + fields_json(ks, ff, keys, vals, a, a + rs[r], true) + seq![
            0x7du8,
            0x0au8,
        ];
        let rest = matching_rows(ks, ff, rs, keys, vals, t, r + 1);
        if any_match(ks, ff, t, a, a + rs[r]) {
            seq![line] + rest
        } else {
            rest
        }
    }
}

/// What a search of `m` for `key` = `value` looks for: the key's id, the
/// value's first dictionary id, the value as an integer and as bytes; `None`
/// when the schema has no such key.
pub open spec fn query_of(m: Model, key: Seq<u8>, value: Seq<u8>) -> Option<Target> {
    match index_of(m.keys, key) {
        None => None,
        Some(i) => Some(
            Target {
                key: i as u16,
                dict_id: first_index(m.vals, value, 0),
                int: parse_i64_spec(value),
                value: value,
            },
        ),
    }
}

/// The JSON lines of a model: each finished row as an object of its fields.
pub open spec fn model_json(m: Model) -> Seq<u8> {
    rows_json(m.kstream, m.fields, m.rows, m.keys, m.vals, 0)
}

/// The hexadecimal text of a hash is valid UTF-8.
proof fn lemma_hash_is_utf8(raw: Seq<u8>)
    ensures
        vstd::utf8::valid_utf8(raw_hash(raw)),
{
    let h = raw_hash(raw);
    lemma_hex_lower(sha256_of(raw));
    let cs = h.map_values(|b: u8| b as char);
    assert(vstd::utf8::is_ascii_chars(cs));
    vstd::utf8::is_ascii_chars_encode_utf8(cs);
    assert forall|i: int| 0 <= i < h.len() implies vstd::utf8::encode_utf8(cs)[i] == h[i] by {
        assert(cs[i] as u8 == vstd::utf8::encode_utf8(cs)[i]);
    }
    assert(vstd::utf8::encode_utf8(cs) =~= h);
    vstd::utf8::encode_utf8_valid_utf8(cs);
}

/// A `u32` read at `i` depends only on the four bytes there.
proof fn lemma_le_u32_window(s: Seq<u8>, i: int)
    requires
        0 <= i,
        i + 4 <= s.len(),
    ensures
        le_u32(s, i) == le_u32(s.subrange(i, i + 4), 0),
{
    let w = s.subrange(i, i + 4);
    assert(w[0] == s[i] && w[1] == s[i + 1] && w[2] == s[i + 2] && w[3] == s[i + 3]);
}

/// The first ten bytes of an archive that starts with the header and `v`:
/// no fault, and `v` is what stands at 6.
proof fn lemma_header_ok(out: Seq<u8>, v: u32)
    requires
        out.len() >= 10,
        out.subrange(0, 6) == archive_header(),
        out.subrange(6, 10) == u32_le_bytes(v),
    ensures
        crate::reader::header_fault(out) is None,
        le_u32(out, 6) == v,
{
    let h = out.subrange(0, 6);
    assert(h[0] == out[0] && h[1] == out[1] && h[2] == out[2] && h[3] == out[3] && h[4] == out[4]);
    assert(out.subrange(0, 4) =~= magic());
    lemma_le_u32_window(out, 6);
    lemma_u32_le_roundtrip(v);
}

/// Unpacking a raw archive gives back, byte for byte, the text it was packed
/// from; and searching it searches the lines of that text.
pub proof fn lemma_unpack_raw(out: Seq<u8>, raw: Seq<u8>, key: Seq<u8>, value: Seq<u8>)
    requires
        is_raw_archive(out, raw),
    ensures
        unpacked(out) == Ok::<Seq<u8>, ErrorKind>(raw),
        grepped(out, key, value) == Ok::<Seq<Seq<u8>>, ErrorKind>(
            raw_grep(raw, key, value, 0, Seq::empty()),
        ),
{
    lemma_header_ok(out, RAW_MARK);
    lemma_hash_is_utf8(raw);
}

/// Where the parts of a columnar archive's head stand.
proof fn lemma_head_reads(out: Seq<u8>, sf: Seq<u8>, df: Seq<u8>, fc: u32, fcs: Seq<u8>)
    requires
        out == archive_header() + u32_le_bytes(sf.len() as u32) + sf + u32_le_bytes(df.len() as u32) + df
            + u32_le_bytes(fc) + fcs,
        sf.len() < u32::MAX,
        df.len() <= u32::MAX,
    ensures
        ({
            let s1 = 10 + sf.len() as int;
            let d1 = s1 + 4 + df.len() as int;
            &&& crate::reader::header_fault(out) is None
            &&& le_u32(out, 6) == sf.len()
            &&& le_u32(out, 6) != RAW_MARK
            &&& s1 + 4 <= out.len()
            &&& out.subrange(10, s1) == sf
            &&& le_u32(out, s1) == df.len()
            &&& d1 + 4 <= out.len()
            &&& out.subrange(s1 + 4, d1) == df
            &&& le_u32(out, d1) == fc
            &&& out.subrange(d1 + 4, out.len() as int) == fcs
        }),
{
    let s1 = 10 + sf.len() as int;
    let d1 = s1 + 4 + df.len() as int;
    assert(out.subrange(0, 6) =~= archive_header());
    assert(out.subrange(6, 10) =~= u32_le_bytes(sf.len() as u32));
    lemma_header_ok(out, sf.len() as u32);
    assert(out.subrange(10, s1) =~= sf);
    assert(out.subrange(s1, s1 + 4) =~= u32_le_bytes(df.len() as u32));
    lemma_le_u32_at(out, s1, df.len() as u32);
    assert(out.subrange(s1 + 4, d1) =~= df);
    assert(out.subrange(d1, d1 + 4) =~= u32_le_bytes(fc));
    lemma_le_u32_at(out, d1, fc);
    assert(out.subrange(d1 + 4, out.len() as int) =~= fcs);
}

/// The keys and strings that a columnar archive of `m` gives back.
proof fn lemma_head_decodes(
    out: Seq<u8>,
    m: Model,
    key: Seq<u8>,
    sf: Seq<u8>,
    df: Seq<u8>,
    fc: u32,
    fcs: Seq<u8>,
)
    requires
        model_wf(m),
        model_fits(m),
        sf == zstd_frame(schema_block(m.keys), BLOCK_LEVEL),
        df == zstd_frame(dict_block(m.vals), BLOCK_LEVEL),
        zstd_decoded(sf) == Some(schema_block(m.keys)),
        zstd_decoded(df) == Some(dict_block(m.vals)),
        out == archive_header() + u32_le_bytes(sf.len() as u32) + sf + u32_le_bytes(df.len() as u32) + df
            + u32_le_bytes(fc) + fcs,
        sf.len() < u32::MAX,
        df.len() <= u32::MAX,
    ensures
        ({
            let s1 = 10 + sf.len() as int;
            let d1 = s1 + 4 + df.len() as int;
            &&& crate::reader::archive_schema(out, key) == Ok::<(Seq<Seq<u8>>, Option<u16>, int), ErrorKind>(
                (m.keys, crate::roundtrip::last_key_index(m.keys, key, 0, None), s1),
            )
            &&& crate::reader::archive_dict(out, s1) == Ok::<(Seq<Seq<u8>>, int), ErrorKind>((m.vals, d1))
        }),
{
    lemma_head_reads(out, sf, df, fc, fcs);
    lemma_schema_roundtrip(m.keys, key);
    lemma_dict_roundtrip(m.vals);
}

/// The compressed data blocks of a columnar archive of `m`.
proof fn archive_frames(out: Seq<u8>, m: Model) -> (zs: Seq<Seq<u8>>)
    requires
        is_structured_archive(out, m),
    ensures
        zs.len() == frame_count(m.rows.len()),
        frames_decode(m, zs),
        out == structured_layout(m, zs),
        zstd_decoded(zstd_frame(schema_block(m.keys), BLOCK_LEVEL)) == Some(schema_block(m.keys)),
        zstd_decoded(zstd_frame(dict_block(m.vals), BLOCK_LEVEL)) == Some(dict_block(m.vals)),
{
    choose|zs: Seq<Seq<u8>>|
        {
            &&& zs.len() == frame_count(m.rows.len())
            &&& forall|f: int|
                0 <= f < zs.len() ==> zstd_decoded(#[trigger] zs[f]) == Some(
                    crate::archive::data_block(m, f as nat),
                ) && zstd_decoded(zstd_frame(crate::archive::scan_block(m, f as nat), BLOCK_LEVEL))
                    == Some(crate::archive::scan_block(m, f as nat)) && zs[f].len() <= u32::MAX
                    && zstd_frame(crate::archive::scan_block(m, f as nat), BLOCK_LEVEL).len() <= u32::MAX
            &&& out == structured_layout(m, zs)
        }
}

/// Unpacking a columnar archive whose head reads back as `keys`, `vals` and
/// `fc` frames gives what reading the frames gives.
proof fn lemma_unpacked_columnar(
    out: Seq<u8>,
    keys: Seq<Seq<u8>>,
    vals: Seq<Seq<u8>>,
    s1: int,
    d1: int,
    t: Seq<u8>,
)
    requires
        crate::reader::header_fault(out) is None,
        le_u32(out, 6) != RAW_MARK,
        crate::reader::archive_schema(out, Seq::empty()) matches Ok((k, _, s)) && k == keys && s == s1,
        crate::reader::archive_dict(out, s1) == Ok::<(Seq<Seq<u8>>, int), ErrorKind>((vals, d1)),
        crate::reader::read_frames(out, d1 + 4, le_u32(out, d1) as nat, keys, vals, Seq::empty()) == Ok::<
            Seq<u8>,
            ErrorKind,
        >(t),
    ensures
        unpacked(out) == Ok::<Seq<u8>, ErrorKind>(t),
{
}

/// Unpacking a columnar archive of a model gives the model's rows as JSON
/// lines: each row one object of its fields in the order they were read, the
/// keys quoted, integers in decimal, strings quoted, other values as they were
/// written.
#[verifier::spinoff_prover]
pub proof fn lemma_unpack_structured(out: Seq<u8>, m: Model)
    requires
        model_wf(m),
        is_structured_archive(out, m),
    ensures
        unpacked(out) == Ok::<Seq<u8>, ErrorKind>(model_json(m)),
{
    let zs = archive_frames(out, m);
    let sf = zstd_frame(schema_block(m.keys), BLOCK_LEVEL);
    let df = zstd_frame(dict_block(m.vals), BLOCK_LEVEL);
    let fc = frame_count(m.rows.len());
    let fcs = frames_concat(m, zs);
    let s1 = 10 + sf.len() as int;
    let d1 = s1 + 4 + df.len() as int;
    assert(fc <= u32::MAX);
    assert(out =~= archive_header() + u32_le_bytes(sf.len() as u32) + sf + u32_le_bytes(df.len() as u32)
        + df + u32_le_bytes(fc as u32) + fcs) by {
        reveal(structured_layout);
    }
    lemma_head_reads(out, sf, df, fc as u32, fcs);
    lemma_head_decodes(out, m, Seq::empty(), sf, df, fc as u32, fcs);
    assert(zs.take(0) =~= Seq::<Seq<u8>>::empty());
    assert(frames_concat(m, zs.take(0)) =~= Seq::<u8>::empty());
    lemma_read_frames_from(m, zs, out, d1 + 4, 0, Seq::empty());
    assert(Seq::<u8>::empty() + model_json(m) =~= model_json(m));
    lemma_unpacked_columnar(out, m.keys, m.vals, s1, d1, model_json(m));
}

/// Searching a columnar archive whose head reads back as `keys` (with `key`
/// at `tk`), `vals` and `fc` frames gives what searching the frames gives.
proof fn lemma_grepped_columnar(
    out: Seq<u8>,
    key: Seq<u8>,
    value: Seq<u8>,
    keys: Seq<Seq<u8>>,
    vals: Seq<Seq<u8>>,
    target: Option<u16>,
    s1: int,
    d1: int,
    found: Seq<Seq<u8>>,
)
    requires
        crate::reader::header_fault(out) is None,
        le_u32(out, 6) != RAW_MARK,
        crate::reader::archive_schema(out, key) == Ok::<(Seq<Seq<u8>>, Option<u16>, int), ErrorKind>(
            (keys, target, s1),
        ),
        crate::reader::archive_dict(out, s1) == Ok::<(Seq<Seq<u8>>, int), ErrorKind>((vals, d1)),
        target matches Some(tk) ==> crate::reader::grep_frames(
            out,
            d1 + 4,
            le_u32(out, d1) as nat,
            keys,
            vals,
            Target {
                key: tk,
                dict_id: first_index(vals, value, 0),
                int: parse_i64_spec(value),
                value: value,
            },
            Seq::empty(),
        ) == Ok::<Seq<Seq<u8>>, ErrorKind>(found),
        target is None ==> found == Seq::<Seq<u8>>::empty(),
    ensures
        grepped(out, key, value) == Ok::<Seq<Seq<u8>>, ErrorKind>(found),
{
}

/// Searching a columnar archive of a model for `key` = `value` gives, in
/// order, the rows that have a field of that key with that value (the same
/// dictionary string, the same integer, or the same literal bytes), each as
/// its JSON line; none when the schema has no such key.
#[verifier::spinoff_prover]
pub proof fn lemma_grep_structured(out: Seq<u8>, m: Model, key: Seq<u8>, value: Seq<u8>)
    requires
        model_wf(m),
        is_structured_archive(out, m),
    ensures
        grepped(out, key, value) == Ok::<Seq<Seq<u8>>, ErrorKind>(
            match query_of(m, key, value) {
                None => Seq::empty(),
                Some(t) => matching_rows(m.kstream, m.fields, m.rows, m.keys, m.vals, t, 0),
            },
        ),
{
    let zs = archive_frames(out, m);
    let sf = zstd_frame(schema_block(m.keys), BLOCK_LEVEL);
    let df = zstd_frame(dict_block(m.vals), BLOCK_LEVEL);
    let fc = frame_count(m.rows.len());
    let fcs = frames_concat(m, zs);
    let s1 = 10 + sf.len() as int;
    let d1 = s1 + 4 + df.len() as int;
    assert(fc <= u32::MAX);
    assert(out =~= archive_header() + u32_le_bytes(sf.len() as u32) + sf + u32_le_bytes(df.len() as u32)
        + df + u32_le_bytes(fc as u32) + fcs) by {
        reveal(structured_layout);
    }
    lemma_head_reads(out, sf, df, fc as u32, fcs);
    lemma_head_decodes(out, m, key, sf, df, fc as u32, fcs);
    crate::search::lemma_last_key_index(m.keys, key, 0, None);
    let target = crate::roundtrip::last_key_index(m.keys, key, 0, None);
    let found = match query_of(m, key, value) {
        None => Seq::empty(),
        Some(t) => matching_rows(m.kstream, m.fields, m.rows, m.keys, m.vals, t, 0),
    };
    match query_of(m, key, value) {
        Some(t) => {
                    assert(zs.take(0) =~= Seq::<Seq<u8>>::empty());
            assert(frames_concat(m, zs.take(0)) =~= Seq::<u8>::empty());
            crate::search::lemma_grep_frames_from(m, zs, out, d1 + 4, t, 0, Seq::empty());
            assert(Seq::<Seq<u8>>::empty() + found =~= found);
        },
        None => {},
    }
    lemma_grepped_columnar(out, key, value, m.keys, m.vals, target, s1, d1, found);
}

/// CSV text is kept as one row per non-blank line after the header, the
/// `j`-th field of a row under the key of the `j`-th column name.
pub proof fn lemma_csv_columns(data: Seq<u8>)
    requires
        csv_parse(empty_model(), data) is Some,
    ensures
        ({
            let m = csv_parse(empty_model(), data)->Some_0;
            let names = header_names(strip_cr(data.subrange(0, find_from(data, 0x0a, 0)->Some_0)));
            forall|r: int, j: int|
                #![trigger m.rows[r], names[j]]
                0 <= r < m.rows.len() && 0 <= j < m.rows[r] ==> j < names.len() && m.keys[m.kstream[row_fields(
                    m,
                    r as nat,
                ) + j] as int] == names[j]
        }),
{
    let m0 = empty_model();
    let he = find_from(data, 0x0a, 0)->Some_0;
    let names = header_names(strip_cr(data.subrange(0, he)));
    lemma_intern_all(m0, names);
    let (m1, ids) = intern_all(m0, names)->Some_0;
    assert(sum_u16(m1.rows) == 0);
    assert(rows_keyed(m1, ids));
    lemma_csv_lines(m1, data, he + 1, ids);
    let m = csv_parse(m0, data)->Some_0;
    assert forall|r: int, j: int|
        #![trigger m.rows[r], names[j]]
        0 <= r < m.rows.len() && 0 <= j < m.rows[r] implies j < names.len() && m.keys[m.kstream[row_fields(
            m,
            r as nat,
        ) + j] as int] == names[j] by {
        assert(m.rows[r] <= ids.len());
        assert(m.kstream[sum_u16(m.rows.take(r)) + j] == ids[j]);
        assert(m1.keys[ids[j] as int] == names[j]);
    }
}

/// Reading text into a complete model (every field with its key, in a closed
/// row; so an empty one) leaves it complete: the row lengths add up to the
/// number of fields, which is the number of key ids.
pub proof fn lemma_parse_complete(m: Model, raw: Seq<u8>)
    requires
        model_wf(m),
        model_complete(m),
    ensures
        parse_input(m, raw) matches Some(m2) ==> model_complete(m2),
{
    let fmt = detect_format_spec(raw);
    let data = if fmt == InputFormat::JsonArray {
        strip_json_array_spec(raw)
    } else {
        raw
    };
    if fmt == InputFormat::Csv {
        lemma_csv_parse_complete(m, data);
    } else {
        assert(json_complete_inv(json_start(m)));
        lemma_json_run_complete(data, json_start(m));
    }
}

/// Text that the engine reads as columns leaves it holding a key.
pub proof fn lemma_parse_keyed(m: Model, raw: Seq<u8>)
    ensures
        parse_input(m, raw) matches Some(m2) ==> m2.kstream.len() > 0,
{
    let fmt = detect_format_spec(raw);
    let data = if fmt == InputFormat::JsonArray {
        strip_json_array_spec(raw)
    } else {
        raw
    };
    crate::json::lemma_json_run_keyed(data, json_start(m));
}

/// The JSON lines of rows `r..`, one element per row.
pub open spec fn row_lines(
    ks: Seq<u16>,
    ff: Seq<Value>,
    rs: Seq<u16>,
    keys: Seq<Seq<u8>>,
    vals: Seq<Seq<u8>>,
    r: int,
) -> Seq<Seq<u8>>
    decreases rs.len() - r,
{
    if r < 0 || r >= rs.len() {
        Seq::empty()
    } else {
        let a = sum_u16(rs.take(r)) as int;
        seq![seq![0x7bu8] + fields_json(ks, ff, keys, vals, a, a + rs[r], true) + seq![0x7du8, 0x0au8]]
            + row_lines(ks, ff, rs, keys, vals, r + 1)
    }
}

/// The JSON lines of a model's rows, one element per row.
pub open spec fn model_lines(m: Model) -> Seq<Seq<u8>> {
    row_lines(m.kstream, m.fields, m.rows, m.keys, m.vals, 0)
}

/// `idx` lists, for each element of `a`, a place of `b` that holds it; the
/// places strictly increase.
pub open spec fn picks<A>(a: Seq<A>, b: Seq<A>, idx: Seq<int>) -> bool {
    &&& idx.len() == a.len()
    &&& forall|i: int| 0 <= i < idx.len() ==> 0 <= #[trigger] idx[i] < b.len() && b[idx[i]] == a[i]
    &&& forall|i: int, j: int| 0 <= i < j < idx.len() ==> idx[i] < idx[j]
}

/// Whether `a` is `b` with some elements left out, the others in order.
pub open spec fn is_subsequence<A>(a: Seq<A>, b: Seq<A>) -> bool {
    exists|idx: Seq<int>| picks(a, b, idx)
}

/// The rows' JSON text is their lines one after the other.
proof fn lemma_rows_json_lines(
    ks: Seq<u16>,
    ff: Seq<Value>,
    rs: Seq<u16>,
    keys: Seq<Seq<u8>>,
    vals: Seq<Seq<u8>>,
    r: int,
)
    requires
        0 <= r,
    ensures
        rows_json(ks, ff, rs, keys, vals, r) == row_lines(ks, ff, rs, keys, vals, r).flatten(),
    decreases rs.len() - r,
{
    if r < rs.len() {
        lemma_rows_json_lines(ks, ff, rs, keys, vals, r + 1);
        let ls = row_lines(ks, ff, rs, keys, vals, r);
        assert(ls.drop_first() =~= row_lines(ks, ff, rs, keys, vals, r + 1));
    } else {
        assert(row_lines(ks, ff, rs, keys, vals, r) =~= Seq::<Seq<u8>>::empty());
    }
}

/// The matching rows from `r` on are among the lines of the rows from `r` on,
/// in order.
proof fn lemma_matching_picks(
    ks: Seq<u16>,
    ff: Seq<Value>,
    rs: Seq<u16>,
    keys: Seq<Seq<u8>>,
    vals: Seq<Seq<u8>>,
    t: Target,
    r: int,
) -> (idx: Seq<int>)
    requires
        0 <= r,
    ensures
        picks(matching_rows(ks, ff, rs, keys, vals, t, r), row_lines(ks, ff, rs, keys, vals, r), idx),
    decreases rs.len() - r,
{
    if r >= rs.len() {
        Seq::empty()
    } else {
        let rest = lemma_matching_picks(ks, ff, rs, keys, vals, t, r + 1);
        let shifted = rest.map_values(|x: int| x + 1);
        let a = sum_u16(rs.take(r)) as int;
        let ls = row_lines(ks, ff, rs, keys, vals, r);
        let tail = row_lines(ks, ff, rs, keys, vals, r + 1);
        assert forall|i: int| 0 <= i < tail.len() implies ls[i + 1] == tail[i] by {}
        if any_match(ks, ff, t, a, a + rs[r]) {
            let idx = seq![0int] + shifted;
            let g = matching_rows(ks, ff, rs, keys, vals, t, r);
            let g1 = matching_rows(ks, ff, rs, keys, vals, t, r + 1);
            assert forall|i: int| 0 <= i < idx.len() implies 0 <= #[trigger] idx[i] < ls.len() && ls[idx[i]]
                == g[i] by {
                if i > 0 {
                    assert(idx[i] == rest[i - 1] + 1);
                    assert(g[i] == g1[i - 1]);
                }
            }
            assert forall|i: int, j: int| 0 <= i < j < idx.len() implies idx[i] < idx[j] by {
                if i > 0 {
                    assert(idx[i] == rest[i - 1] + 1);
                }
                assert(idx[j] == rest[j - 1] + 1);
                assert(0 <= rest[j - 1]);
            }
            idx
        } else {
            assert forall|i: int| 0 <= i < shifted.len() implies 0 <= #[trigger] shifted[i] < ls.len()
                && ls[shifted[i]] == matching_rows(ks, ff, rs, keys, vals, t, r)[i] by {
                assert(shifted[i] == rest[i] + 1);
            }
            assert forall|i: int, j: int| 0 <= i < j < shifted.len() implies shifted[i] < shifted[j] by {
                assert(shifted[i] == rest[i] + 1);
                assert(shifted[j] == rest[j] + 1);
            }
            shifted
        }
    }
}

/// What a search of a columnar archive finds is part of what unpacking it
/// gives: unpacking gives the model's rows as JSON lines, one after the
/// other, and the search gives some of those lines, in their order.
pub proof fn lemma_grep_within_unpack(out: Seq<u8>, m: Model, key: Seq<u8>, value: Seq<u8>)
    requires
        model_wf(m),
        is_structured_archive(out, m),
    ensures
        unpacked(out) == Ok::<Seq<u8>, ErrorKind>(model_lines(m).flatten()),
        grepped(out, key, value) matches Ok(g) && is_subsequence(g, model_lines(m)),
{
    lemma_unpack_structured(out, m);
    lemma_grep_structured(out, m, key, value);
    lemma_rows_json_lines(m.kstream, m.fields, m.rows, m.keys, m.vals, 0);
    match query_of(m, key, value) {
        None => {
            let e = Seq::<Seq<u8>>::empty();
            assert(picks(e, model_lines(m), Seq::<int>::empty()));
        },
        Some(t) => {
            let idx = lemma_matching_picks(m.kstream, m.fields, m.rows, m.keys, m.vals, t, 0);
            assert(picks(
                matching_rows(m.kstream, m.fields, m.rows, m.keys, m.vals, t, 0),
                model_lines(m),
                idx,
            ));
        },
    }
}

/// Searching the frames from `pos` on reads no byte of the archive before
/// `pos`.
proof fn lemma_grep_frames_suffix(
    p: Seq<u8>,
    q: Seq<u8>,
    pos: int,
    k: nat,
    keys: Seq<Seq<u8>>,
    vals: Seq<Seq<u8>>,
    t: Target,
    acc: Seq<Seq<u8>>,
)
    requires
        0 <= pos,
        p.len() == q.len(),
        forall|i: int| pos <= i < p.len() ==> p[i] == q[i],
    ensures
        grep_frames(q, pos, k, keys, vals, t, acc) == grep_frames(p, pos, k, keys, vals, t, acc),
    decreases k,
{
    if k > 0 && pos + 8 <= p.len() {
        assert(le_u32(p, pos) == le_u32(q, pos) && le_u32(p, pos + 4) == le_u32(q, pos + 4)) by {
            assert(p[pos] == q[pos] && p[pos + 1] == q[pos + 1] && p[pos + 2] == q[pos + 2] && p[pos + 3]
                == q[pos + 3]);
            assert(p[pos + 4] == q[pos + 4] && p[pos + 5] == q[pos + 5] && p[pos + 6] == q[pos + 6] && p[pos
                + 7] == q[pos + 7]);
        }
        let s1 = pos + 8 + le_u32(p, pos + 4) as int;
        if s1 <= p.len() {
            assert(p.subrange(pos + 8, s1) =~= q.subrange(pos + 8, s1));
            if s1 + 4 <= p.len() {
                assert(le_u32(p, s1) == le_u32(q, s1)) by {
                    assert(p[s1] == q[s1] && p[s1 + 1] == q[s1 + 1] && p[s1 + 2] == q[s1 + 2] && p[s1 + 3]
                        == q[s1 + 3]);
                }
                let d1 = s1 + 4 + le_u32(p, s1) as int;
                if d1 <= p.len() {
                    assert(p.subrange(s1 + 4, d1) =~= q.subrange(s1 + 4, d1));
                }
                match zstd_decoded(p.subrange(pos + 8, s1)) {
                    Some(scan) => {
                        if offsets_fit(scan) {
                            match frame_wanted(scan, t) {
                                Some(false) => {
                                    lemma_grep_frames_suffix(p, q, d1, (k - 1) as nat, keys, vals, t, acc);
                                },
                                Some(true) => {
                                    if d1 <= p.len() {
                                        match zstd_decoded(p.subrange(s1 + 4, d1)) {
                                            Some(data) => match crate::reader::data_layout(data) {
                                                Some((lo, lits)) => match crate::reader::grep_rows(
                                                    scan,
                                                    data,
                                                    crate::reader::layout_of(scan, lo),
                                                    keys,
                                                    vals,
                                                    t,
                                                    le_u32(p, pos) as nat,
                                                    0,
                                                    crate::reader::first_cursor(lits),
                                                    acc,
                                                ) {
                                                    Ok(acc2) => {
                                                        lemma_grep_frames_suffix(
                                                            p,
                                                            q,
                                                            d1,
                                                            (k - 1) as nat,
                                                            keys,
                                                            vals,
                                                            t,
                                                            acc2,
                                                        );
                                                    },
                                                    Err(_) => {},
                                                },
                                                None => {},
                                            },
                                            None => {},
                                        }
                                    }
                                },
                                None => {},
                            }
                        }
                    },
                    None => {},
                }
            }
        }
    }
}

/// Whether the frame at `pos` of `p` is one that a search for `t` skips: its
/// scan block shows that none of its fields can match.
pub open spec fn frame_skipped(p: Seq<u8>, pos: int, t: Target) -> bool {
    let s1 = pos + 8 + le_u32(p, pos + 4) as int;
    zstd_decoded(p.subrange(pos + 8, s1)) matches Some(scan) && offsets_fit(scan) && frame_wanted(scan, t)
        == Some(false)
}

/// `q` agrees with `p` on the `k` frames from `pos` on, and on all that
/// follows them, but for the data blocks of frames that a search for `t`
/// skips (see [`frame_skipped`]).
pub open spec fn differ_in_skipped_data(p: Seq<u8>, q: Seq<u8>, pos: int, k: nat, t: Target) -> bool
    decreases k,
{
    if k == 0 || pos + 8 > p.len() {
        forall|i: int| pos <= i < p.len() ==> p[i] == q[i]
    } else {
        let s1 = pos + 8 + le_u32(p, pos + 4) as int;
        if s1 + 4 > p.len() {
            forall|i: int| pos <= i < p.len() ==> p[i] == q[i]
        } else {
            let d1 = s1 + 4 + le_u32(p, s1) as int;
            &&& forall|i: int| pos <= i < s1 + 4 ==> p[i] == q[i]
            &&& (frame_skipped(p, pos, t) || forall|i: int| s1 + 4 <= i < d1 && i < p.len() ==> p[i] == q[i])
            &&& differ_in_skipped_data(p, q, d1, (k - 1) as nat, t)
        }
    }
}

/// Searching frames that differ only in the data blocks of skipped frames
/// gives the same result.
proof fn lemma_grep_frames_skipped(
    p: Seq<u8>,
    q: Seq<u8>,
    pos: int,
    k: nat,
    keys: Seq<Seq<u8>>,
    vals: Seq<Seq<u8>>,
    t: Target,
    acc: Seq<Seq<u8>>,
)
    requires
        0 <= pos,
        p.len() == q.len(),
        differ_in_skipped_data(p, q, pos, k, t),
    ensures
        grep_frames(q, pos, k, keys, vals, t, acc) == grep_frames(p, pos, k, keys, vals, t, acc),
    decreases k,
{
    if k == 0 || pos + 8 > p.len() {
        lemma_grep_frames_suffix(p, q, pos, k, keys, vals, t, acc);
    } else {
        let s1 = pos + 8 + le_u32(p, pos + 4) as int;
        if s1 + 4 > p.len() {
            lemma_grep_frames_suffix(p, q, pos, k, keys, vals, t, acc);
        } else {
            assert(le_u32(p, pos) == le_u32(q, pos) && le_u32(p, pos + 4) == le_u32(q, pos + 4)) by {
                assert(p[pos] == q[pos] && p[pos + 1] == q[pos + 1] && p[pos + 2] == q[pos + 2] && p[pos + 3]
                    == q[pos + 3]);
                assert(p[pos + 4] == q[pos + 4] && p[pos + 5] == q[pos + 5] && p[pos + 6] == q[pos + 6]
                    && p[pos + 7] == q[pos + 7]);
            }
            assert(le_u32(p, s1) == le_u32(q, s1)) by {
                assert(p[s1] == q[s1] && p[s1 + 1] == q[s1 + 1] && p[s1 + 2] == q[s1 + 2] && p[s1 + 3]
                    == q[s1 + 3]);
            }
            assert(p.subrange(pos + 8, s1) =~= q.subrange(pos + 8, s1));
            let d1 = s1 + 4 + le_u32(p, s1) as int;
            if !frame_skipped(p, pos, t) && d1 <= p.len() {
                assert(p.subrange(s1 + 4, d1) =~= q.subrange(s1 + 4, d1));
            }
            match zstd_decoded(p.subrange(pos + 8, s1)) {
                Some(scan) => {
                    if offsets_fit(scan) {
                        match frame_wanted(scan, t) {
                            Some(false) => {
                                lemma_grep_frames_skipped(p, q, d1, (k - 1) as nat, keys, vals, t, acc);
                            },
                            Some(true) => {
                                if d1 <= p.len() {
                                    match zstd_decoded(p.subrange(s1 + 4, d1)) {
                                        Some(data) => match crate::reader::data_layout(data) {
                                            Some((lo, lits)) => match crate::reader::grep_rows(
                                                scan,
                                                data,
                                                crate::reader::layout_of(scan, lo),
                                                keys,
                                                vals,
                                                t,
                                                le_u32(p, pos) as nat,
                                                0,
                                                crate::reader::first_cursor(lits),
                                                acc,
                                            ) {
                                                Ok(acc2) => {
                                                    lemma_grep_frames_skipped(
                                                        p,
                                                        q,
                                                        d1,
                                                        (k - 1) as nat,
                                                        keys,
                                                        vals,
                                                        t,
                                                        acc2,
                                                    );
                                                },
                                                Err(_) => {},
                                            },
                                            None => {},
                                        },
                                        None => {},
                                    }
                                }
                            },
                            None => {},
                        }
                    }
                },
                None => {},
            }
        }
    }
}

/// A search reads no data block of a frame it skips: where an archive `q`
/// differs from a columnar archive `p` that has the searched key only in the
/// data blocks of frames whose scan blocks show that none of their fields can
/// match, searching `q` gives what searching `p` gives. (Where the head does
/// not read back, or has no such key, no frame is read at all.)
pub proof fn lemma_grep_skips_data(p: Seq<u8>, q: Seq<u8>, key: Seq<u8>, value: Seq<u8>)
    requires
        p.len() == q.len(),
        crate::reader::header_fault(p) is None,
        le_u32(p, 6) != RAW_MARK,
        crate::reader::archive_schema(p, key) matches Ok((keys, target, s1)) && target matches Some(tk)
            && crate::reader::archive_dict(p, s1) matches Ok((dict, d1)) && (forall|i: int|
            0 <= i < d1 + 4 ==> p[i] == q[i]) && differ_in_skipped_data(
            p,
            q,
            d1 + 4,
            le_u32(p, d1) as nat,
            Target {
                key: tk,
                dict_id: first_index(dict, value, 0),
                int: parse_i64_spec(value),
                value: value,
            },
        ),
    ensures
        grepped(q, key, value) == grepped(p, key, value),
{
    let (keys, target, s1) = crate::reader::archive_schema(p, key)->Ok_0;
    let (dict, d1) = crate::reader::archive_dict(p, s1)->Ok_0;
    assert(p.subrange(0, 4) =~= q.subrange(0, 4));
    assert(p[4] == q[4] && p[5] == q[5]);
    assert(le_u32(p, 6) == le_u32(q, 6)) by {
        assert(p[6] == q[6] && p[7] == q[7] && p[8] == q[8] && p[9] == q[9]);
    }
    assert(p.subrange(10, s1) =~= q.subrange(10, s1));
    assert(le_u32(p, s1) == le_u32(q, s1)) by {
        assert(p[s1] == q[s1] && p[s1 + 1] == q[s1 + 1] && p[s1 + 2] == q[s1 + 2] && p[s1 + 3] == q[s1 + 3]);
    }
    assert(p.subrange(s1 + 4, d1) =~= q.subrange(s1 + 4, d1));
    assert(le_u32(p, d1) == le_u32(q, d1)) by {
        assert(p[d1] == q[d1] && p[d1 + 1] == q[d1 + 1] && p[d1 + 2] == q[d1 + 2] && p[d1 + 3] == q[d1 + 3]);
    }
    let t = Target {
        key: target->Some_0,
        dict_id: first_index(dict, value, 0),
        int: parse_i64_spec(value),
        value: value,
    };
    lemma_grep_frames_skipped(p, q, d1 + 4, le_u32(p, d1) as nat, keys, dict, t, Seq::empty());
}

/// What an engine's columnar archive gives back: unpacking it gives the
/// model's rows as JSON lines, one after the other; searching it for
/// `key` = `value` gives, in order, the lines of the rows that have a field
/// of that key with that value (none when the schema has no such key), which
/// are lines of the unpacked text in their order.
pub proof fn lemma_packed_archive(e: crate::engine::LumpiEngine, out: Seq<u8>, key: Seq<u8>, value: Seq<u8>)
    requires
        e.wf(),
        is_structured_archive(out, e.model()),
    ensures
        unpacked(out) == Ok::<Seq<u8>, ErrorKind>(model_json(e.model())),
        unpacked(out) == Ok::<Seq<u8>, ErrorKind>(model_lines(e.model()).flatten()),
        grepped(out, key, value) == Ok::<Seq<Seq<u8>>, ErrorKind>(
            match query_of(e.model(), key, value) {
                None => Seq::empty(),
                Some(t) => matching_rows(
                    e.model().kstream,
                    e.model().fields,
                    e.model().rows,
                    e.model().keys,
                    e.model().vals,
                    t,
                    0,
                ),
            },
        ),
        grepped(out, key, value) matches Ok(g) && is_subsequence(g, model_lines(e.model())),
{
    e.lemma_model_wf();
    lemma_unpack_structured(out, e.model());
    lemma_grep_structured(out, e.model(), key, value);
    lemma_grep_within_unpack(out, e.model(), key, value);
}

} // verus!
