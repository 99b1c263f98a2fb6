//! Lemmas that read the blocks of a columnar archive back: where each part of
//! a block stands, and what the reader finds there.
use vstd::prelude::*;
use crate::archive::{
    data_block, data_rows_block, frame_bytes, frame_count, frame_end, frame_start, frames_concat, lit_span, row_fields,
    scan_block, scan_rows_block, u16s_le, u32s_le, BLOCK_LEVEL, schema_block, schema_entries, schema_entry,
    dict_block,
};
use crate::trusted::{zstd_decoded, zstd_frame};
use crate::bytes::{le_u16, le_u32, lemma_u16_le_roundtrip, lemma_u32_le_roundtrip, u16_le_bytes, u32_le_bytes};
use crate::model::{
    concat_map, lemma_concat_map_push, lemma_concat_map_range, lemma_sum_u16_append, lemma_sum_u16_push, lit_len_part,
    lit_lens_of, lit_part, lits_of, model_wf, dict_bytes_of, dict_lens_of, sid_part, sids_of, sum_u16, types_of, value_type, varint_part, varints_of,
    Model, Value, literal_fits,
};
use crate::reader::{field_matches, Target, schema_fill, schema_read, dict_fill, dict_read, read_frames, data_layout, frame_text, layout_of, offsets_fit, read_field, read_fields, read_rows, first_cursor, Cur, ErrorKind};
use crate::laws::{any_match, field_json, fields_json, rows_json};
use crate::archive::{model_fits, rows_fit, frame_fits};
use crate::model::lemma_sum_u16_range;
use crate::varint::{decoded_varint, lemma_varint_roundtrip, varint_bytes, varint_len, zigzag};

verus! {

/// A `u16` read where its two bytes stand.
pub proof fn lemma_le_u16_at(p: Seq<u8>, o: int, v: u16)
    requires
        0 <= o,
        o + 2 <= p.len(),
        p.subrange(o, o + 2) == u16_le_bytes(v),
    ensures
        le_u16(p, o) == v,
{
    let w = p.subrange(o, o + 2);
    assert(w[0] == p[o] && w[1] == p[o + 1]);
    lemma_u16_le_roundtrip(v);
}

/// A `u32` read where its four bytes stand.
pub proof fn lemma_le_u32_at(p: Seq<u8>, o: int, v: u32)
    requires
        0 <= o,
        o + 4 <= p.len(),
        p.subrange(o, o + 4) == u32_le_bytes(v),
    ensures
        le_u32(p, o) == v,
{
    let w = p.subrange(o, o + 4);
    assert(w[0] == p[o] && w[1] == p[o + 1] && w[2] == p[o + 2] && w[3] == p[o + 3]);
    lemma_u32_le_roundtrip(v);
}

/// The `j`-th `u16` of a little-endian run stands at `2 * j`.
pub proof fn lemma_u16s_window(s: Seq<u16>, j: int)
    requires
        0 <= j <= s.len(),
    ensures
        u16s_le(s).len() == 2 * s.len(),
        u16s_le(s.take(j)).len() == 2 * j,
        j < s.len() ==> u16s_le(s).subrange(2 * j, 2 * j + 2) == u16_le_bytes(s[j]),
    decreases s.len(),
{
    let f = |x: u16| u16_le_bytes(x);
    if s.len() > 0 {
        let t = s.drop_last();
        if j < s.len() {
            lemma_u16s_window(t, if j < t.len() { j } else { t.len() as int });
        } else {
            lemma_u16s_window(t, t.len() as int);
        }
        assert(s =~= t.push(s.last()));
        lemma_concat_map_push(t, s.last(), f);
        if j == s.len() {
            assert(s.take(j) =~= s);
        } else {
            assert(s.take(j) =~= t.take(j));
            if j < t.len() {
                assert(u16s_le(s).subrange(2 * j, 2 * j + 2) =~= u16s_le(t).subrange(2 * j, 2 * j + 2));
            } else {
                assert(t.take(j) =~= t);
                assert(u16s_le(s).subrange(2 * j, 2 * j + 2) =~= u16_le_bytes(s.last()));
            }
        }
    } else {
        assert(s.take(j) =~= s);
    }
}

/// The `j`-th `u32` of a little-endian run stands at `4 * j`.
pub proof fn lemma_u32s_window(s: Seq<u32>, j: int)
    requires
        0 <= j <= s.len(),
    ensures
        u32s_le(s).len() == 4 * s.len(),
        u32s_le(s.take(j)).len() == 4 * j,
        j < s.len() ==> u32s_le(s).subrange(4 * j, 4 * j + 4) == u32_le_bytes(s[j]),
    decreases s.len(),
{
    let f = |x: u32| u32_le_bytes(x);
    if s.len() > 0 {
        let t = s.drop_last();
        if j < s.len() {
            lemma_u32s_window(t, if j < t.len() { j } else { t.len() as int });
        } else {
            lemma_u32s_window(t, t.len() as int);
        }
        assert(s =~= t.push(s.last()));
        lemma_concat_map_push(t, s.last(), f);
        if j == s.len() {
            assert(s.take(j) =~= s);
        } else {
            assert(s.take(j) =~= t.take(j));
            if j < t.len() {
                assert(u32s_le(s).subrange(4 * j, 4 * j + 4) =~= u32s_le(t).subrange(4 * j, 4 * j + 4));
            } else {
                assert(t.take(j) =~= t);
                assert(u32s_le(s).subrange(4 * j, 4 * j + 4) =~= u32_le_bytes(s.last()));
            }
        }
    } else {
        assert(s.take(j) =~= s);
    }
}

/// A window of a concatenation is a window of its middle part.
pub proof fn lemma_window(x: Seq<u8>, w: Seq<u8>, y: Seq<u8>, i: int, j: int)
    requires
        0 <= i <= j <= w.len(),
    ensures
        (x + w + y).subrange(x.len() + i, x.len() + j) == w.subrange(i, j),
{
    assert((x + w + y).subrange(x.len() + i, x.len() + j) =~= w.subrange(i, j));
}

/// The part that field `j` of `fs` adds to a concatenation over the fields.
pub proof fn lemma_part_at<B>(fs: Seq<Value>, j: int, f: spec_fn(Value) -> Seq<B>)
    requires
        0 <= j < fs.len(),
    ensures
        concat_map(fs.take(j + 1), f) == concat_map(fs.take(j), f) + f(fs[j]),
        concat_map(fs.take(j), f).len() + f(fs[j]).len() <= concat_map(fs, f).len(),
        concat_map(fs, f).subrange(
            concat_map(fs.take(j), f).len() as int,
            (concat_map(fs.take(j), f).len() + f(fs[j]).len()) as int,
        ) == f(fs[j]),
        concat_map(fs, f) == concat_map(fs.take(j), f) + f(fs[j]) + concat_map(fs.skip(j + 1), f),
{
    assert(fs.take(j + 1) =~= fs.take(j).push(fs[j]));
    lemma_concat_map_push(fs.take(j), fs[j], f);
    lemma_concat_map_range(fs, j, j + 1, f);
    lemma_concat_map_range(fs, j + 1, j + 1, f);
    assert(fs.subrange(j, j + 1) =~= seq![fs[j]]);
    assert(seq![fs[j]] =~= Seq::<Value>::empty().push(fs[j]));
    lemma_concat_map_push(Seq::<Value>::empty(), fs[j], f);
    assert(concat_map(Seq::<Value>::empty(), f) =~= Seq::<B>::empty());
    assert(concat_map(fs.subrange(j, j + 1), f) =~= f(fs[j]));
}

/// Where the literals' lengths fit, their stored lengths add up to their bytes.
pub proof fn lemma_lit_span_exact(fs: Seq<Value>)
    requires
        forall|k: int| 0 <= k < fs.len() ==> literal_fits(#[trigger] fs[k]),
    ensures
        sum_u16(lit_lens_of(fs)) == lits_of(fs).len(),
    decreases fs.len(),
{
    if fs.len() > 0 {
        let t = fs.drop_last();
        assert forall|k: int| 0 <= k < t.len() implies literal_fits(#[trigger] t[k]) by {
            assert(t[k] == fs[k]);
        }
        lemma_lit_span_exact(t);
        assert(fs =~= t.push(fs.last()));
        lemma_concat_map_push(t, fs.last(), |f: Value| lit_part(f));
        lemma_concat_map_push(t, fs.last(), |f: Value| lit_len_part(f));
        lemma_sum_u16_append(lit_lens_of(t), lit_len_part(fs.last()));
        assert(literal_fits(fs[fs.len() - 1]));
        match fs.last() {
            Value::Lit(b) => {
                lemma_sum_u16_push(Seq::<u16>::empty(), b.len() as u16);
                assert(seq![b.len() as u16] =~= Seq::<u16>::empty().push(b.len() as u16));
            },
            Value::StrLit(b) => {
                lemma_sum_u16_push(Seq::<u16>::empty(), b.len() as u16);
                assert(seq![b.len() as u16] =~= Seq::<u16>::empty().push(b.len() as u16));
            },
            _ => {
                assert(sum_u16(Seq::<u16>::empty()) == 0);
            },
        }
    }
}

/// A scan block: the field count, the string count, key ids, types, string
/// ids and row lengths.
#[verifier::opaque]
pub open spec fn scan_of(ks: Seq<u16>, ff: Seq<Value>, rs: Seq<u16>) -> Seq<u8> {
    u32_le_bytes(ff.len() as u32) + u32_le_bytes(sids_of(ff).len() as u32) + u16s_le(ks) + types_of(ff)
        + u32s_le(sids_of(ff)) + u16s_le(rs)
}

/// The counts at the start of a scan block, and its length.
pub proof fn lemma_scan_counts(ks: Seq<u16>, ff: Seq<Value>, rs: Seq<u16>)
    requires
        ks.len() == ff.len() <= u32::MAX,
    ensures
        ({
            let scan = scan_of(ks, ff, rs);
            let n = ff.len() as int;
            let ns = sids_of(ff).len() as int;
            &&& scan.len() == 8 + 3 * n + 4 * ns + 2 * rs.len()
            &&& le_u32(scan, 0) == n
            &&& le_u32(scan, 4) == ns
            &&& ns <= n
        }),
{
    reveal(scan_of);
    let scan = scan_of(ks, ff, rs);
    let a = u32_le_bytes(ff.len() as u32);
    let b = u32_le_bytes(sids_of(ff).len() as u32);
    let rest = u16s_le(ks) + types_of(ff) + u32s_le(sids_of(ff)) + u16s_le(rs);
    lemma_u16s_window(ks, 0);
    lemma_u16s_window(rs, 0);
    lemma_u32s_window(sids_of(ff), 0);
    lemma_sids_bound(ff);
    assert(scan =~= a + b + rest);
    assert(scan.subrange(0, 4) =~= a);
    assert(scan.subrange(4, 8) =~= b);
    lemma_le_u32_at(scan, 0, ff.len() as u32);
    lemma_le_u32_at(scan, 4, sids_of(ff).len() as u32);
}

/// The key id of field `j` of a scan block.
pub proof fn lemma_scan_key(ks: Seq<u16>, ff: Seq<Value>, rs: Seq<u16>, j: int)
    requires
        0 <= j < ks.len(),
    ensures
        8 + 2 * j + 2 <= scan_of(ks, ff, rs).len(),
        le_u16(scan_of(ks, ff, rs), 8 + 2 * j) == ks[j],
{
    reveal(scan_of);
    let scan = scan_of(ks, ff, rs);
    let x = u32_le_bytes(ff.len() as u32) + u32_le_bytes(sids_of(ff).len() as u32);
    let y = types_of(ff) + u32s_le(sids_of(ff)) + u16s_le(rs);
    lemma_u16s_window(ks, j);
    assert(scan =~= x + u16s_le(ks) + y);
    lemma_window(x, u16s_le(ks), y, 2 * j, 2 * j + 2);
    lemma_le_u16_at(scan, 8 + 2 * j, ks[j]);
}

/// The type byte of field `j` of a scan block.
pub proof fn lemma_scan_type(ks: Seq<u16>, ff: Seq<Value>, rs: Seq<u16>, j: int)
    requires
        ks.len() == ff.len(),
        0 <= j < ff.len(),
    ensures
        8 + 2 * ff.len() + j < scan_of(ks, ff, rs).len(),
        scan_of(ks, ff, rs)[8 + 2 * ff.len() + j] == value_type(ff[j]),
{
    reveal(scan_of);
    let scan = scan_of(ks, ff, rs);
    let x = u32_le_bytes(ff.len() as u32) + u32_le_bytes(sids_of(ff).len() as u32) + u16s_le(ks);
    let y = u32s_le(sids_of(ff)) + u16s_le(rs);
    lemma_u16s_window(ks, 0);
    assert(scan =~= x + types_of(ff) + y);
    assert(scan[x.len() + j] == types_of(ff)[j]);
}

/// The string id of field `j` of a scan block, when it is a dictionary string.
#[verifier::spinoff_prover]
pub proof fn lemma_scan_sid(ks: Seq<u16>, ff: Seq<Value>, rs: Seq<u16>, j: int)
    requires
        ks.len() == ff.len(),
        0 <= j < ff.len(),
        ff[j] is Str,
    ensures
        ({
            let sc = sids_of(ff.take(j)).len() as int;
            let o = 8 + 3 * ff.len() + 4 * sc;
            &&& o + 4 <= scan_of(ks, ff, rs).len()
            &&& le_u32(scan_of(ks, ff, rs), o) == ff[j]->Str_0
        }),
{
    reveal(scan_of);
    let scan = scan_of(ks, ff, rs);
    let id = ff[j]->Str_0;
    let sc = sids_of(ff.take(j)).len() as int;
    lemma_part_at(ff, j, |x: Value| sid_part(x));
    assert(sid_part(ff[j]) =~= seq![id]);
    assert(sids_of(ff)[sc] == id) by {
        assert(sids_of(ff).subrange(sc, sc + 1)[0] == sids_of(ff)[sc]);
    }
    lemma_u32s_window(sids_of(ff), sc);
    lemma_u16s_window(ks, 0);
    let x = u32_le_bytes(ff.len() as u32) + u32_le_bytes(sids_of(ff).len() as u32) + u16s_le(ks)
        + types_of(ff);
    let y = u16s_le(rs);
    assert(scan =~= x + u32s_le(sids_of(ff)) + y);
    lemma_window(x, u32s_le(sids_of(ff)), y, 4 * sc, 4 * sc + 4);
    lemma_le_u32_at(scan, 8 + 3 * ff.len() + 4 * sc, id);
}

/// The length of row `r` of a scan block.
pub proof fn lemma_scan_row(ks: Seq<u16>, ff: Seq<Value>, rs: Seq<u16>, r: int)
    requires
        ks.len() == ff.len(),
        0 <= r < rs.len(),
    ensures
        ({
            let o = 8 + 3 * ff.len() + 4 * sids_of(ff).len() + 2 * r;
            &&& o + 2 <= scan_of(ks, ff, rs).len()
            &&& le_u16(scan_of(ks, ff, rs), o) == rs[r]
        }),
{
    reveal(scan_of);
    let scan = scan_of(ks, ff, rs);
    lemma_u16s_window(ks, 0);
    lemma_u32s_window(sids_of(ff), 0);
    lemma_u16s_window(rs, r);
    let x = u32_le_bytes(ff.len() as u32) + u32_le_bytes(sids_of(ff).len() as u32) + u16s_le(ks)
        + types_of(ff) + u32s_le(sids_of(ff));
    assert(scan =~= x + u16s_le(rs) + Seq::empty());
    lemma_window(x, u16s_le(rs), Seq::empty(), 2 * r, 2 * r + 2);
    lemma_le_u16_at(scan, x.len() + 2 * r, rs[r]);
}

/// There are at most as many string ids as fields.
pub proof fn lemma_sids_bound(fs: Seq<Value>)
    ensures
        sids_of(fs).len() <= fs.len(),
    decreases fs.len(),
{
    if fs.len() > 0 {
        let t = fs.drop_last();
        lemma_sids_bound(t);
        assert(fs =~= t.push(fs.last()));
        lemma_concat_map_push(t, fs.last(), |x: Value| sid_part(x));
    }
}

/// A data block: the varint bytes, the literal lengths and the literal bytes,
/// each after its count.
#[verifier::opaque]
pub open spec fn data_of(ff: Seq<Value>) -> Seq<u8> {
    u32_le_bytes(varints_of(ff).len() as u32) + varints_of(ff) + u32_le_bytes(
        lit_lens_of(ff).len() as u32,
    ) + u16s_le(lit_lens_of(ff)) + u32_le_bytes(lits_of(ff).len() as u32) + lits_of(ff)
}

/// The data block's parts fit their counts.
pub open spec fn data_fits(ff: Seq<Value>) -> bool {
    &&& varints_of(ff).len() <= u32::MAX
    &&& lits_of(ff).len() <= u32::MAX
    &&& ff.len() <= u32::MAX
}

/// The layout of a data block: its literal lengths at `8 + v`, its literal
/// bytes at `12 + v + 2 l`.
pub proof fn lemma_data_counts(ff: Seq<Value>)
    requires
        data_fits(ff),
    ensures
        data_layout(data_of(ff)) == Some(
            (
                (8 + varints_of(ff).len()) as int,
                (12 + varints_of(ff).len() + 2 * lit_lens_of(ff).len()) as int,
            ),
        ),
        data_of(ff).len() == 12 + varints_of(ff).len() + 2 * lit_lens_of(ff).len() + lits_of(ff).len(),
{
    reveal(data_of);
    let d = data_of(ff);
    let v = varints_of(ff);
    let l = lit_lens_of(ff);
    crate::model::lemma_lit_lens_bound(ff);
    lemma_u16s_window(l, 0);
    let a = u32_le_bytes(v.len() as u32);
    let b = u32_le_bytes(l.len() as u32);
    let rest = u16s_le(l) + u32_le_bytes(lits_of(ff).len() as u32) + lits_of(ff);
    assert(d =~= a + v + b + rest);
    assert(d.subrange(0, 4) =~= a);
    lemma_le_u32_at(d, 0, v.len() as u32);
    assert(d.subrange(4 + v.len() as int, 8 + v.len() as int) =~= b);
    lemma_le_u32_at(d, 4 + v.len() as int, l.len() as u32);
}

/// Where a data block's literal lengths begin.
pub open spec fn lens_at(ff: Seq<Value>) -> int {
    8 + varints_of(ff).len() as int
}

/// Where a data block's literal bytes begin.
pub open spec fn lits_at(ff: Seq<Value>) -> int {
    12 + varints_of(ff).len() as int + 2 * lit_lens_of(ff).len() as int
}

/// The cursor of field `j` of a frame whose literal bytes begin at `lits`.
pub open spec fn local_cur(ff: Seq<Value>, j: int, lits: int) -> Cur {
    let p = ff.take(j);
    Cur {
        kc: j,
        sc: sids_of(p).len() as int,
        vc: 4 + varints_of(p).len() as int,
        llc: lit_lens_of(p).len() as int,
        lc: lits + lits_of(p).len(),
    }
}

/// The varint of field `j` of a data block, when it is an integer.
#[verifier::spinoff_prover]
pub proof fn lemma_data_varint(ff: Seq<Value>, j: int)
    requires
        0 <= j < ff.len(),
        ff[j] is Int,
    ensures
        ({
            let vc = (4 + varints_of(ff.take(j)).len()) as int;
            let n = ff[j]->Int_0;
            &&& varint_len(data_of(ff), vc) == Some(varint_bytes(zigzag(n)).len())
            &&& varint_bytes(zigzag(n)).len() <= 10
            &&& decoded_varint(data_of(ff), vc) == n
            &&& vc + varint_bytes(zigzag(n)).len() == 4 + varints_of(ff.take(j + 1)).len()
        }),
{
    reveal(data_of);
    let n = ff[j]->Int_0;
    lemma_part_at(ff, j, |x: Value| varint_part(x));
    let pre = u32_le_bytes(varints_of(ff).len() as u32) + varints_of(ff.take(j));
    let post = varints_of(ff.skip(j + 1)) + u32_le_bytes(lit_lens_of(ff).len() as u32) + u16s_le(
        lit_lens_of(ff),
    ) + u32_le_bytes(lits_of(ff).len() as u32) + lits_of(ff);
    assert(varint_part(ff[j]) == varint_bytes(zigzag(n)));
    assert(data_of(ff) =~= pre + varint_bytes(zigzag(n)) + post);
    lemma_varint_roundtrip(n, pre, post);
}

/// The stored length and the bytes of field `j` of a data block, when it is
/// a literal whose length fits.
#[verifier::spinoff_prover]
#[verifier::rlimit(30)]
pub proof fn lemma_data_literal(ff: Seq<Value>, j: int)
    requires
        0 <= j < ff.len(),
        ff[j] is Lit || ff[j] is StrLit,
        literal_fits(ff[j]),
    ensures
        ({
            let b = lit_part(ff[j]);
            let lo = (8 + varints_of(ff).len() + 2 * lit_lens_of(ff.take(j)).len()) as int;
            let lc = (12 + varints_of(ff).len() + 2 * lit_lens_of(ff).len() + lits_of(ff.take(j)).len()) as int;
            &&& lo + 2 <= data_of(ff).len()
            &&& le_u16(data_of(ff), lo) == b.len()
            &&& lc + b.len() <= data_of(ff).len()
            &&& data_of(ff).subrange(lc, lc + b.len() as int) == b
            &&& lit_lens_of(ff.take(j + 1)).len() == lit_lens_of(ff.take(j)).len() + 1
            &&& lits_of(ff.take(j + 1)).len() == lits_of(ff.take(j)).len() + b.len()
        }),
{
    reveal(data_of);
    let b = lit_part(ff[j]);
    let l = lit_lens_of(ff);
    let ll = lit_lens_of(ff.take(j)).len() as int;
    lemma_part_at(ff, j, |x: Value| lit_len_part(x));
    lemma_part_at(ff, j, |x: Value| lit_part(x));
    assert(lit_len_part(ff[j]) =~= seq![b.len() as u16]);
    assert(l[ll] == b.len() as u16) by {
        assert(l.subrange(ll, ll + 1)[0] == l[ll]);
    }
    lemma_u16s_window(l, ll);
    let x = u32_le_bytes(varints_of(ff).len() as u32) + varints_of(ff) + u32_le_bytes(l.len() as u32);
    let y = u32_le_bytes(lits_of(ff).len() as u32) + lits_of(ff);
    assert(data_of(ff) =~= x + u16s_le(l) + y);
    lemma_window(x, u16s_le(l), y, 2 * ll, 2 * ll + 2);
    lemma_le_u16_at(data_of(ff), x.len() + 2 * ll, b.len() as u16);
    let x2 = x + u16s_le(l) + u32_le_bytes(lits_of(ff).len() as u32);
    assert(data_of(ff) =~= x2 + lits_of(ff) + Seq::empty());
    let s0 = lits_of(ff.take(j)).len() as int;
    lemma_window(x2, lits_of(ff), Seq::empty(), s0, s0 + b.len());
}

/// Each cursor moves past what field `j` adds to its stream.
pub proof fn lemma_cursor_step(ff: Seq<Value>, j: int, lits: int)
    requires
        0 <= j < ff.len(),
    ensures
        ({
            let c = local_cur(ff, j, lits);
            let c2 = local_cur(ff, j + 1, lits);
            &&& c2.kc == c.kc + 1
            &&& c2.sc == c.sc + sid_part(ff[j]).len()
            &&& c2.vc == c.vc + varint_part(ff[j]).len()
            &&& c2.llc == c.llc + lit_len_part(ff[j]).len()
            &&& c2.lc == c.lc + lit_part(ff[j]).len()
        }),
{
    lemma_part_at(ff, j, |x: Value| sid_part(x));
    lemma_part_at(ff, j, |x: Value| varint_part(x));
    lemma_part_at(ff, j, |x: Value| lit_len_part(x));
    lemma_part_at(ff, j, |x: Value| lit_part(x));
}

/// The reader finds field `j` of a frame where the writer put it, and moves
/// on to field `j + 1`.
#[verifier::spinoff_prover]
pub proof fn lemma_read_field_local(
    ks: Seq<u16>,
    ff: Seq<Value>,
    rs: Seq<u16>,
    nkeys: nat,
    ndict: nat,
    j: int,
)
    requires
        ks.len() == ff.len(),
        data_fits(ff),
        0 <= j < ff.len(),
        ks[j] < nkeys,
        ff[j] matches Value::Str(id) ==> id < ndict,
        literal_fits(ff[j]),
    ensures
        ({
            let scan = scan_of(ks, ff, rs);
            let lo = lens_at(ff);
            let lits = lits_at(ff);
            read_field(
                scan,
                data_of(ff),
                layout_of(scan, lo),
                nkeys,
                ndict,
                local_cur(ff, j, lits),
            ) == Ok::<(u16, Value, Cur), ErrorKind>((ks[j], ff[j], local_cur(ff, j + 1, lits)))
        }),
{
    let scan = scan_of(ks, ff, rs);
    let data = data_of(ff);
    let lo = lens_at(ff);
    let lits = lits_at(ff);
    lemma_scan_counts(ks, ff, rs);
    lemma_scan_key(ks, ff, rs, j);
    lemma_scan_type(ks, ff, rs, j);
    lemma_cursor_step(ff, j, lits);
    lemma_data_counts(ff);
    match ff[j] {
        Value::Str(id) => {
            lemma_scan_sid(ks, ff, rs, j);
        },
        Value::Int(n) => {
            lemma_data_varint(ff, j);
        },
        Value::Lit(b) => {
            lemma_data_literal(ff, j);
        },
        Value::StrLit(b) => {
            lemma_data_literal(ff, j);
        },
    }
}

/// What a frame's fields need for the reader to find them: every key id
/// below `nkeys`, every string id below `ndict`, every literal fitting.
pub open spec fn fields_ok(ks: Seq<u16>, ff: Seq<Value>, nkeys: nat, ndict: nat) -> bool {
    &&& ks.len() == ff.len()
    &&& data_fits(ff)
    &&& forall|j: int| 0 <= j < ks.len() ==> #[trigger] ks[j] < nkeys
    &&& forall|j: int| 0 <= j < ff.len() ==> (#[trigger] ff[j] matches Value::Str(id) ==> id < ndict)
    &&& forall|j: int| 0 <= j < ff.len() ==> literal_fits(#[trigger] ff[j])
}

/// The reader writes out fields `a + i .. a + nf` of a frame.
#[verifier::spinoff_prover]
pub proof fn lemma_read_fields_local(
    ks: Seq<u16>,
    ff: Seq<Value>,
    rs: Seq<u16>,
    keys: Seq<Seq<u8>>,
    vals: Seq<Seq<u8>>,
    q: Option<Target>,
    a: int,
    nf: nat,
    i: nat,
    acc: Seq<u8>,
    mt: bool,
)
    requires
        fields_ok(ks, ff, keys.len(), vals.len()),
        0 <= a,
        a + nf <= ff.len(),
        i <= nf,
    ensures
        ({
            let scan = scan_of(ks, ff, rs);
            read_fields(
                scan,
                data_of(ff),
                layout_of(scan, lens_at(ff)),
                keys,
                vals,
                q,
                nf,
                i,
                local_cur(ff, a + i, lits_at(ff)),
                acc,
                mt,
            ) == Ok::<(Seq<u8>, Cur, bool), ErrorKind>(
                (
                    acc + fields_json(ks, ff, keys, vals, a + i, a + nf, i == 0),
                    local_cur(ff, a + nf, lits_at(ff)),
                    mt || (q matches Some(t) && any_match(ks, ff, t, a + i, a + nf)),
                ),
            )
        }),
    decreases nf - i,
{
    if i < nf {
        let k = a + i;
        assert(ks[k] < keys.len());
        assert(ff[k] matches Value::Str(id) ==> id < vals.len());
        assert(literal_fits(ff[k]));
        lemma_read_field_local(ks, ff, rs, keys.len(), vals.len(), k);
        let sep = if i > 0 {
            seq![0x2cu8, 0x20u8]
        } else {
            Seq::<u8>::empty()
        };
        let acc2 = acc + sep + key_head_of(keys, ks[k]) + crate::reader::value_text(vals, ff[k]);
        let mt2 = mt || (q matches Some(t) && field_matches(t, ks[k], ff[k]));
        lemma_read_fields_local(ks, ff, rs, keys, vals, q, a, nf, i + 1, acc2, mt2);
        assert(acc2 + fields_json(ks, ff, keys, vals, k + 1, a + nf, false) =~= acc + fields_json(
            ks,
            ff,
            keys,
            vals,
            k,
            a + nf,
            i == 0,
        ));
    } else {
        assert(acc + fields_json(ks, ff, keys, vals, a + i, a + nf, i == 0) =~= acc);
    }
}

/// The key head of key id `kid`.
pub open spec fn key_head_of(keys: Seq<Seq<u8>>, kid: u16) -> Seq<u8> {
    crate::reader::key_head(keys[kid as int])
}

/// The reader writes out rows `r..` of a frame.
#[verifier::spinoff_prover]
pub proof fn lemma_read_rows_local(
    ks: Seq<u16>,
    ff: Seq<Value>,
    rs: Seq<u16>,
    keys: Seq<Seq<u8>>,
    vals: Seq<Seq<u8>>,
    r: nat,
    acc: Seq<u8>,
)
    requires
        fields_ok(ks, ff, keys.len(), vals.len()),
        sum_u16(rs) == ff.len(),
        r <= rs.len(),
    ensures
        ({
            let scan = scan_of(ks, ff, rs);
            read_rows(
                scan,
                data_of(ff),
                layout_of(scan, lens_at(ff)),
                keys,
                vals,
                rs.len(),
                r,
                local_cur(ff, sum_u16(rs.take(r as int)) as int, lits_at(ff)),
                acc,
            ) == Ok::<Seq<u8>, ErrorKind>(acc + rows_json(ks, ff, rs, keys, vals, r as int))
        }),
    decreases rs.len() - r,
{
    let scan = scan_of(ks, ff, rs);
    lemma_scan_counts(ks, ff, rs);
    if r < rs.len() {
        let r1 = (r + 1) as int;
        lemma_scan_row(ks, ff, rs, r as int);
        lemma_sum_u16_range(rs, r as int, r1);
        lemma_sum_u16_range(rs, r1, rs.len() as int);
        assert(rs.take(rs.len() as int) =~= rs);
        assert(rs.subrange(r as int, r1) =~= Seq::<u16>::empty().push(rs[r as int]));
        crate::model::lemma_sum_u16_push(Seq::<u16>::empty(), rs[r as int]);
        assert(sum_u16(Seq::<u16>::empty()) == 0);
        let a = sum_u16(rs.take(r as int)) as int;
        let nf = rs[r as int] as nat;
        assert(a + nf == sum_u16(rs.take(r1)));
        lemma_read_fields_local(ks, ff, rs, keys, vals, None, a, nf, 0, seq![0x7bu8], false);
        let t = seq![0x7bu8] + fields_json(ks, ff, keys, vals, a, a + nf, true);
        lemma_read_rows_local(ks, ff, rs, keys, vals, r + 1, acc + t + seq![0x7du8, 0x0au8]);
        assert(acc + t + seq![0x7du8, 0x0au8] + rows_json(ks, ff, rs, keys, vals, r1) =~= acc
            + rows_json(ks, ff, rs, keys, vals, r as int));
    } else {
        assert(acc + rows_json(ks, ff, rs, keys, vals, r as int) =~= acc);
    }
}

/// The reader writes out every row of a frame.
pub proof fn lemma_frame_text_local(
    ks: Seq<u16>,
    ff: Seq<Value>,
    rs: Seq<u16>,
    keys: Seq<Seq<u8>>,
    vals: Seq<Seq<u8>>,
    acc: Seq<u8>,
)
    requires
        fields_ok(ks, ff, keys.len(), vals.len()),
        sum_u16(rs) == ff.len(),
        8 + 7 * ff.len() <= usize::MAX,
    ensures
        frame_text(scan_of(ks, ff, rs), data_of(ff), rs.len(), keys, vals, acc) == Ok::<
            Seq<u8>,
            ErrorKind,
        >(acc + rows_json(ks, ff, rs, keys, vals, 0)),
{
    let scan = scan_of(ks, ff, rs);
    lemma_scan_counts(ks, ff, rs);
    assert(offsets_fit(scan));
    lemma_data_counts(ff);
    assert(rs.take(0) =~= Seq::<u16>::empty());
    assert(ff.take(0) =~= Seq::<Value>::empty());
    assert(local_cur(ff, 0, lits_at(ff)) == first_cursor(lits_at(ff)));
    lemma_read_rows_local(ks, ff, rs, keys, vals, 0, acc);
}

/// Fields `k..b` of a frame are fields `fa + k .. fa + b` of the whole.
pub proof fn lemma_fields_shift(
    ks: Seq<u16>,
    ff: Seq<Value>,
    keys: Seq<Seq<u8>>,
    vals: Seq<Seq<u8>>,
    fa: int,
    fb: int,
    k: int,
    b: int,
    first: bool,
)
    requires
        0 <= fa <= fb <= ks.len(),
        fb <= ff.len(),
        0 <= k,
        b <= fb - fa,
    ensures
        fields_json(ks.subrange(fa, fb), ff.subrange(fa, fb), keys, vals, k, b, first) == fields_json(
            ks,
            ff,
            keys,
            vals,
            fa + k,
            fa + b,
            first,
        ),
    decreases b - k,
{
    if k < b {
        lemma_fields_shift(ks, ff, keys, vals, fa, fb, k + 1, b, false);
        assert(field_json(ks.subrange(fa, fb), ff.subrange(fa, fb), keys, vals, k) == field_json(
            ks,
            ff,
            keys,
            vals,
            fa + k,
        ));
    }
}

/// The rows of a frame, then the rows after it, are the rows from its first.
#[verifier::spinoff_prover]
pub proof fn lemma_rows_shift(
    ks: Seq<u16>,
    ff: Seq<Value>,
    rs: Seq<u16>,
    keys: Seq<Seq<u8>>,
    vals: Seq<Seq<u8>>,
    ra: int,
    rb: int,
    r: int,
)
    requires
        0 <= ra <= rb <= rs.len(),
        sum_u16(rs.take(rb)) <= ks.len(),
        sum_u16(rs.take(rb)) <= ff.len(),
        0 <= r <= rb - ra,
    ensures
        ({
            let fa = sum_u16(rs.take(ra)) as int;
            let fb = sum_u16(rs.take(rb)) as int;
            rows_json(ks.subrange(fa, fb), ff.subrange(fa, fb), rs.subrange(ra, rb), keys, vals, r)
                + rows_json(ks, ff, rs, keys, vals, rb) == rows_json(ks, ff, rs, keys, vals, ra + r)
        }),
    decreases rb - ra - r,
{
    let fa = sum_u16(rs.take(ra)) as int;
    let fb = sum_u16(rs.take(rb)) as int;
    let rl = rs.subrange(ra, rb);
    lemma_sum_u16_range(rs, ra, rb);
    if r < rb - ra {
        lemma_rows_shift(ks, ff, rs, keys, vals, ra, rb, r + 1);
        lemma_sum_u16_range(rs, ra, ra + r);
        lemma_sum_u16_range(rs, ra + r, ra + r + 1);
        lemma_sum_u16_range(rs, ra + r + 1, rb);
        lemma_sum_u16_range(rl, r, r + 1);
        assert(rl.take(r) =~= rs.subrange(ra, ra + r));
        assert(rs.subrange(ra + r, ra + r + 1) =~= Seq::<u16>::empty().push(rs[ra + r]));
        crate::model::lemma_sum_u16_push(Seq::<u16>::empty(), rs[ra + r]);
        assert(sum_u16(Seq::<u16>::empty()) == 0);
        let al = sum_u16(rl.take(r)) as int;
        let ag = sum_u16(rs.take(ra + r)) as int;
        assert(ag == fa + al);
        assert(rl[r] == rs[ra + r]);
        assert(ag + rs[ra + r] <= fb);
        lemma_fields_shift(ks, ff, keys, vals, fa, fb, al, al + rl[r], true);
        let lrow = seq![0x7bu8] + fields_json(ks.subrange(fa, fb), ff.subrange(fa, fb), keys, vals, al, al
            + rl[r], true) + seq![0x7du8, 0x0au8];
        assert(rows_json(ks.subrange(fa, fb), ff.subrange(fa, fb), rl, keys, vals, r) == lrow
            + rows_json(ks.subrange(fa, fb), ff.subrange(fa, fb), rl, keys, vals, r + 1));
        assert(rows_json(ks, ff, rs, keys, vals, ra + r) == lrow + rows_json(ks, ff, rs, keys, vals, ra + r
            + 1));
        assert(lrow + rows_json(ks.subrange(fa, fb), ff.subrange(fa, fb), rl, keys, vals, r + 1)
            + rows_json(ks, ff, rs, keys, vals, rb) =~= lrow + (rows_json(
            ks.subrange(fa, fb),
            ff.subrange(fa, fb),
            rl,
            keys,
            vals,
            r + 1,
        ) + rows_json(ks, ff, rs, keys, vals, rb)));
    } else {
        assert(rows_json(ks.subrange(fa, fb), ff.subrange(fa, fb), rl, keys, vals, r) =~= Seq::<u8>::empty());
        assert(Seq::<u8>::empty() + rows_json(ks, ff, rs, keys, vals, rb) =~= rows_json(ks, ff, rs, keys, vals, rb));
    }
}

/// The scan and data blocks of rows `ra..rb` of a model are those of their
/// fields.
#[verifier::spinoff_prover]
pub proof fn lemma_blocks_of(m: Model, ra: nat, rb: nat)
    requires
        model_wf(m),
        model_fits(m),
        rows_fit(m, ra, rb),
        ra <= rb <= m.rows.len(),
    ensures
        ({
            let fa = row_fields(m, ra) as int;
            let fb = row_fields(m, rb) as int;
            let ks = m.kstream.subrange(fa, fb);
            let ff = m.fields.subrange(fa, fb);
            let rs = m.rows.subrange(ra as int, rb as int);
            &&& fa <= fb <= m.fields.len()
            &&& scan_rows_block(m, ra, rb) == scan_of(ks, ff, rs)
            &&& data_rows_block(m, ra, rb) == data_of(ff)
            &&& fields_ok(ks, ff, m.keys.len(), m.vals.len())
            &&& sum_u16(rs) == ff.len()
            &&& 8 + 7 * ff.len() <= usize::MAX
        }),
{
    let fa = row_fields(m, ra) as int;
    let fb = row_fields(m, rb) as int;
    let ks = m.kstream.subrange(fa, fb);
    let ff = m.fields.subrange(fa, fb);
    let rs = m.rows.subrange(ra as int, rb as int);
    lemma_sum_u16_range(m.rows, ra as int, rb as int);
    lemma_sum_u16_range(m.rows, rb as int, m.rows.len() as int);
    assert(m.rows.take(m.rows.len() as int) =~= m.rows);
    reveal(scan_of);
    reveal(data_of);
    assert(scan_rows_block(m, ra, rb) =~= scan_of(ks, ff, rs));
    let fs = m.fields;
    lemma_concat_map_range(fs, fa, fb, |x: Value| varint_part(x));
    lemma_concat_map_range(fs, fa, fb, |x: Value| lit_part(x));
    lemma_concat_map_range(fs, fa, fb, |x: Value| lit_len_part(x));
    assert forall|k: int| 0 <= k < fs.take(fa).len() implies literal_fits(#[trigger] fs.take(fa)[k]) by {
        assert(fs.take(fa)[k] == fs[k]);
    }
    assert forall|k: int| 0 <= k < fs.take(fb).len() implies literal_fits(#[trigger] fs.take(fb)[k]) by {
        assert(fs.take(fb)[k] == fs[k]);
    }
    lemma_lit_span_exact(fs.take(fa));
    lemma_lit_span_exact(fs.take(fb));
    assert(lit_span(m, fa as nat) == lits_of(fs.take(fa)).len());
    assert(lit_span(m, fb as nat) == lits_of(fs.take(fb)).len());
    assert(data_rows_block(m, ra, rb) =~= data_of(ff));
    assert forall|j: int| 0 <= j < ks.len() implies #[trigger] ks[j] < m.keys.len() by {
        assert(ks[j] == m.kstream[fa + j]);
    }
    assert forall|j: int| 0 <= j < ff.len() implies (#[trigger] ff[j] matches Value::Str(id) ==> id
        < m.vals.len()) by {
        assert(ff[j] == m.fields[fa + j]);
        assert(crate::model::value_ok(m, m.fields[fa + j]));
    }
    assert forall|j: int| 0 <= j < ff.len() implies literal_fits(#[trigger] ff[j]) by {
        assert(ff[j] == m.fields[fa + j]);
    }
    crate::model::lemma_lit_lens_bound(ff);
}

/// Reading the blocks of rows `ra..rb` gives those rows, which followed by
/// the rows after `rb` are the rows from `ra`.
#[verifier::rlimit(40)]
pub proof fn lemma_frame_global(m: Model, ra: nat, rb: nat, acc: Seq<u8>)
    requires
        model_wf(m),
        model_fits(m),
        rows_fit(m, ra, rb),
        ra <= rb <= m.rows.len(),
    ensures
        frame_text(
            scan_rows_block(m, ra, rb),
            data_rows_block(m, ra, rb),
            (rb - ra) as nat,
            m.keys,
            m.vals,
            acc,
        ) matches Ok(t) && t + rows_json(m.kstream, m.fields, m.rows, m.keys, m.vals, rb as int) == acc
            + rows_json(m.kstream, m.fields, m.rows, m.keys, m.vals, ra as int),
{
    let fa = row_fields(m, ra) as int;
    let fb = row_fields(m, rb) as int;
    let ks = m.kstream.subrange(fa, fb);
    let ff = m.fields.subrange(fa, fb);
    let rs = m.rows.subrange(ra as int, rb as int);
    lemma_blocks_of(m, ra, rb);
    lemma_frame_text_local(ks, ff, rs, m.keys, m.vals, acc);
    lemma_sum_u16_range(m.rows, rb as int, m.rows.len() as int);
    assert(m.rows.take(m.rows.len() as int) =~= m.rows);
    lemma_rows_shift(m.kstream, m.fields, m.rows, m.keys, m.vals, ra as int, rb as int, 0);
    assert(acc + rows_json(ks, ff, rs, m.keys, m.vals, 0) + rows_json(
        m.kstream,
        m.fields,
        m.rows,
        m.keys,
        m.vals,
        rb as int,
    ) =~= acc + (rows_json(ks, ff, rs, m.keys, m.vals, 0) + rows_json(
        m.kstream,
        m.fields,
        m.rows,
        m.keys,
        m.vals,
        rb as int,
    )));
}

/// The first `j` frames are a prefix of all of them, and frame `j` follows.
pub proof fn lemma_frames_prefix(m: Model, zs: Seq<Seq<u8>>, j: int)
    requires
        0 <= j <= zs.len(),
    ensures
        frames_concat(m, zs.take(j)).len() <= frames_concat(m, zs).len(),
        frames_concat(m, zs).subrange(0, frames_concat(m, zs.take(j)).len() as int) == frames_concat(
            m,
            zs.take(j),
        ),
        j < zs.len() ==> frames_concat(m, zs.take(j + 1)) == frames_concat(m, zs.take(j)) + frame_bytes(
            m,
            j as nat,
            zs[j],
        ),
    decreases zs.len(),
{
    if j < zs.len() {
        assert(zs.take(j + 1).drop_last() =~= zs.take(j));
        let t = zs.drop_last();
        lemma_frames_prefix(m, t, if j < t.len() { j } else { t.len() as int });
        assert(t.take(j) =~= zs.take(j));
        if j == t.len() {
            assert(t.take(j) =~= t);
        }
        let a = frames_concat(m, t);
        let b = frame_bytes(m, (zs.len() - 1) as nat, zs.last());
        assert(frames_concat(m, zs) == a + b);
        assert((a + b).subrange(0, frames_concat(m, zs.take(j)).len() as int) =~= a.subrange(
            0,
            frames_concat(m, zs.take(j)).len() as int,
        ));
    } else {
        assert(zs.take(j) =~= zs);
    }
}

/// What the reader finds in a frame's bytes at `pos`: the row count, the
/// scan frame and the data frame, each after its length.
pub proof fn lemma_frame_reads(p: Seq<u8>, pos: int, rc: u32, s: Seq<u8>, z: Seq<u8>)
    requires
        0 <= pos,
        pos + 12 + s.len() + z.len() <= p.len(),
        p.subrange(pos, pos + 12 + s.len() + z.len()) == u32_le_bytes(rc) + u32_le_bytes(s.len() as u32)
            + s + u32_le_bytes(z.len() as u32) + z,
        s.len() <= u32::MAX,
        z.len() <= u32::MAX,
    ensures
        ({
            let s1 = pos + 8 + s.len();
            &&& le_u32(p, pos) == rc
            &&& le_u32(p, pos + 4) == s.len()
            &&& p.subrange(pos + 8, s1) == s
            &&& le_u32(p, s1) == z.len()
            &&& p.subrange(s1 + 4, s1 + 4 + z.len()) == z
        }),
{
    let sl = s.len() as int;
    let zl = z.len() as int;
    let w = p.subrange(pos, pos + 12 + sl + zl);
    assert(p.subrange(pos, pos + 4) =~= w.subrange(0, 4));
    assert(w.subrange(0, 4) =~= u32_le_bytes(rc));
    lemma_le_u32_at(p, pos, rc);
    assert(p.subrange(pos + 4, pos + 8) =~= w.subrange(4, 8));
    assert(w.subrange(4, 8) =~= u32_le_bytes(s.len() as u32));
    lemma_le_u32_at(p, pos + 4, s.len() as u32);
    assert(p.subrange(pos + 8, pos + 8 + sl) =~= w.subrange(8, 8 + sl));
    assert(w.subrange(8, 8 + sl) =~= s);
    let s1 = pos + 8 + sl;
    assert(p.subrange(s1, s1 + 4) =~= w.subrange(8 + sl, 12 + sl));
    assert(w.subrange(8 + sl, 12 + sl) =~= u32_le_bytes(z.len() as u32));
    lemma_le_u32_at(p, s1, z.len() as u32);
    assert(p.subrange(s1 + 4, s1 + 4 + zl) =~= w.subrange(12 + sl, 12 + sl + zl));
    assert(w.subrange(12 + sl, 12 + sl + zl) =~= z);
}

/// The blocks of the frames of an archive decompress to what the model
/// gives, and their compressed lengths fit their 32-bit fields.
pub open spec fn frames_decode(m: Model, zs: Seq<Seq<u8>>) -> bool {
    forall|g: int|
        0 <= g < zs.len() ==> zstd_decoded(#[trigger] zs[g]) == Some(data_block(m, g as nat))
            && zstd_decoded(zstd_frame(scan_block(m, g as nat), BLOCK_LEVEL)) == Some(
            scan_block(m, g as nat),
        ) && zs[g].len() <= u32::MAX && zstd_frame(scan_block(m, g as nat), BLOCK_LEVEL).len() <= u32::MAX
}

/// One step of the reader over a frame whose parts it finds in place.
pub proof fn lemma_read_frames_step(
    p: Seq<u8>,
    pos: int,
    k: nat,
    keys: Seq<Seq<u8>>,
    vals: Seq<Seq<u8>>,
    acc: Seq<u8>,
    rc: u32,
    sf: Seq<u8>,
    z: Seq<u8>,
    scan: Seq<u8>,
    data: Seq<u8>,
)
    requires
        k > 0,
        0 <= pos,
        pos + 12 + sf.len() + z.len() <= p.len(),
        le_u32(p, pos) == rc,
        le_u32(p, pos + 4) == sf.len(),
        p.subrange(pos + 8, pos + 8 + sf.len()) == sf,
        le_u32(p, pos + 8 + sf.len()) == z.len(),
        p.subrange(pos + 12 + sf.len(), pos + 12 + sf.len() + z.len()) == z,
        zstd_decoded(sf) == Some(scan),
        zstd_decoded(z) == Some(data),
    ensures
        read_frames(p, pos, k, keys, vals, acc) == (match frame_text(scan, data, rc as nat, keys, vals, acc) {
            Err(e) => Err(e),
            Ok(a2) => read_frames(p, pos + 12 + sf.len() + z.len(), (k - 1) as nat, keys, vals, a2),
        }),
{
}

/// Frame `f` of an archive stands where the frames before it end.
#[verifier::spinoff_prover]
pub proof fn lemma_frame_window(m: Model, zs: Seq<Seq<u8>>, p: Seq<u8>, h: int, f: int)
    requires
        0 <= f < zs.len(),
        0 <= h <= p.len(),
        p.subrange(h, p.len() as int) == frames_concat(m, zs),
    ensures
        ({
            let pre = frames_concat(m, zs.take(f));
            let fbs = frame_bytes(m, f as nat, zs[f]);
            &&& frames_concat(m, zs.take(f + 1)).len() == pre.len() + fbs.len()
            &&& h + pre.len() + fbs.len() <= p.len()
            &&& p.subrange(h + pre.len(), h + pre.len() + fbs.len()) == fbs
        }),
{
    lemma_frames_prefix(m, zs, f);
    lemma_frames_prefix(m, zs, f + 1);
    let fc = frames_concat(m, zs);
    let pre = frames_concat(m, zs.take(f));
    let fbs = frame_bytes(m, f as nat, zs[f]);
    let q = frames_concat(m, zs.take(f + 1));
    let pl = pre.len() as int;
    let bl = fbs.len() as int;
    let pos = h + pl;
    assert(p.subrange(pos, pos + bl) =~= p.subrange(h, p.len() as int).subrange(pl, pl + bl));
    assert(fc.subrange(0, q.len() as int) == q);
    assert(fc.subrange(pl, pl + bl) =~= q.subrange(pl, q.len() as int));
    assert(q.subrange(pl, q.len() as int) =~= fbs);
}

/// Reading frame `f` of an archive moves on to frame `f + 1` with the rows of
/// frame `f` written.
#[verifier::spinoff_prover]
#[verifier::rlimit(40)]
pub proof fn lemma_read_frame_at(
    m: Model,
    zs: Seq<Seq<u8>>,
    p: Seq<u8>,
    h: int,
    f: nat,
    acc: Seq<u8>,
) -> (acc2: Seq<u8>)
    requires
        model_wf(m),
        model_fits(m),
        zs.len() == frame_count(m.rows.len()),
        frames_decode(m, zs),
        f < zs.len(),
        0 <= h <= p.len(),
        p.subrange(h, p.len() as int) == frames_concat(m, zs),
    ensures
        read_frames(
            p,
            h + frames_concat(m, zs.take(f as int)).len(),
            (zs.len() - f) as nat,
            m.keys,
            m.vals,
            acc,
        ) == read_frames(
            p,
            h + frames_concat(m, zs.take(f as int + 1)).len(),
            (zs.len() - f - 1) as nat,
            m.keys,
            m.vals,
            acc2,
        ),
        acc2 + rows_json(m.kstream, m.fields, m.rows, m.keys, m.vals, frame_end(m, f) as int) == acc
            + rows_json(m.kstream, m.fields, m.rows, m.keys, m.vals, frame_start(f) as int),
{
    let n = m.rows.len() as int;
    let fi = f as int;
    crate::archive::lemma_frame_count(m.rows.len(), zs.len());
    lemma_frame_window(m, zs, p, h, fi);
    let pre = frames_concat(m, zs.take(fi));
    let fbs = frame_bytes(m, f, zs[fi]);
    let pos = h + pre.len();
    let ra = frame_start(f);
    let rb = frame_end(m, f);
    assert(65536 * fi < n);
    let sf = zstd_frame(scan_block(m, f), BLOCK_LEVEL);
    let rc = (rb - ra) as u32;
    assert(fbs == u32_le_bytes(rc) + u32_le_bytes(sf.len() as u32) + sf + u32_le_bytes(
        zs[fi].len() as u32,
    ) + zs[fi]) by {
        reveal(frame_bytes);
    }
    lemma_frame_reads(p, pos, rc, sf, zs[fi]);
    lemma_read_frames_step(
        p,
        pos,
        (zs.len() - f) as nat,
        m.keys,
        m.vals,
        acc,
        rc,
        sf,
        zs[fi],
        scan_block(m, f),
        data_block(m, f),
    );
    assert(scan_block(m, f) == scan_rows_block(m, ra, rb) && data_block(m, f) == data_rows_block(
        m,
        ra,
        rb,
    )) by {
        reveal(scan_block);
        reveal(data_block);
    }
    assert(frame_fits(m, f));
    lemma_frame_global(m, ra, rb, acc);
    frame_text(scan_block(m, f), data_block(m, f), (rb - ra) as nat, m.keys, m.vals, acc)->Ok_0
}

/// Reading the frames from frame `f` on gives the rows from the first row of
/// frame `f` on.
pub proof fn lemma_read_frames_from(m: Model, zs: Seq<Seq<u8>>, p: Seq<u8>, h: int, f: nat, acc: Seq<u8>)
    requires
        model_wf(m),
        model_fits(m),
        zs.len() == frame_count(m.rows.len()),
        frames_decode(m, zs),
        f <= zs.len(),
        0 <= h <= p.len(),
        p.subrange(h, p.len() as int) == frames_concat(m, zs),
    ensures
        read_frames(
            p,
            h + frames_concat(m, zs.take(f as int)).len(),
            (zs.len() - f) as nat,
            m.keys,
            m.vals,
            acc,
        ) == Ok::<Seq<u8>, ErrorKind>(
            acc + rows_json(
                m.kstream,
                m.fields,
                m.rows,
                m.keys,
                m.vals,
                if 65536 * f <= m.rows.len() {
                    65536 * f as int
                } else {
                    m.rows.len() as int
                },
            ),
        ),
    decreases zs.len() - f,
{
    let n = m.rows.len() as int;
    crate::archive::lemma_frame_count(m.rows.len(), zs.len());
    if f < zs.len() {
        let acc2 = lemma_read_frame_at(m, zs, p, h, f, acc);
        lemma_read_frames_from(m, zs, p, h, f + 1, acc2);
        assert(frame_end(m, f) as int == (if 65536 * (f + 1) <= n {
            65536 * (f + 1) as int
        } else {
            n
        }));
    } else {
        assert(rows_json(m.kstream, m.fields, m.rows, m.keys, m.vals, n) =~= Seq::<u8>::empty());
        assert(acc + Seq::<u8>::empty() =~= acc);
    }
}

/// The schema entries of the first `i` keys begin those of the first `j`, and
/// take at least six bytes each.
pub proof fn lemma_entries_prefix(keys: Seq<Seq<u8>>, i: nat, j: nat)
    requires
        i <= j,
    ensures
        schema_entries(keys, i).len() <= schema_entries(keys, j).len(),
        schema_entries(keys, j).subrange(0, schema_entries(keys, i).len() as int) == schema_entries(keys, i),
        schema_entries(keys, j).len() >= 6 * j,
    decreases j,
{
    if j > 0 {
        if i < j {
            lemma_entries_prefix(keys, i, (j - 1) as nat);
        } else {
            lemma_entries_prefix(keys, (j - 1) as nat, (j - 1) as nat);
        }
        let a = schema_entries(keys, (j - 1) as nat);
        let e = schema_entry(keys, j - 1);
        assert(schema_entries(keys, j) == a + e);
        if i < j {
            assert((a + e).subrange(0, schema_entries(keys, i).len() as int) =~= a.subrange(
                0,
                schema_entries(keys, i).len() as int,
            ));
        } else {
            assert((a + e).subrange(0, (a + e).len() as int) =~= a + e);
        }
    } else {
        assert(schema_entries(keys, j).subrange(0, 0) =~= schema_entries(keys, i));
    }
}

/// `n - i` empty keys after the first `i` keys.
pub open spec fn keys_so_far(keys: Seq<Seq<u8>>, i: int) -> Seq<Seq<u8>> {
    keys.take(i) + Seq::new((keys.len() - i) as nat, |x: int| Seq::<u8>::empty())
}

/// What the reader finds in schema entry `i`: the key's length, its bytes and
/// its id.
#[verifier::spinoff_prover]
pub proof fn lemma_schema_entry_reads(keys: Seq<Seq<u8>>, i: nat)
    requires
        keys.len() <= 0xffff,
        forall|x: int| 0 <= x < keys.len() ==> (#[trigger] keys[x]).len() <= u32::MAX,
        i < keys.len(),
    ensures
        ({
            let b = schema_block(keys);
            let ei = schema_entries(keys, i);
            let kl = keys[i as int].len() as int;
            let c = 4 + ei.len() as int;
            let e = c + 4 + kl;
            &&& schema_entries(keys, i + 1).len() == ei.len() + 6 + kl
            &&& e + 2 <= b.len()
            &&& le_u32(b, c) == kl
            &&& le_u16(b, e) == i as u16
            &&& b.subrange(c + 4, e) == keys[i as int]
        }),
{
    let n = keys.len();
    let b = schema_block(keys);
    let ei = schema_entries(keys, i);
    let ent = schema_entry(keys, i as int);
    let kl = keys[i as int].len() as int;
    lemma_entries_prefix(keys, i + 1, n);
    assert(schema_entries(keys, i + 1) == ei + ent);
    let c = 4 + ei.len() as int;
    let en = schema_entries(keys, n);
    assert(b == u32_le_bytes(n as u32) + en);
    assert(ent =~= u32_le_bytes(kl as u32) + keys[i as int] + u16_le_bytes(i as u16));
    assert(b.subrange(c, c + ent.len() as int) =~= ent) by {
        assert(en.subrange(0, (ei + ent).len() as int) == ei + ent);
        assert(b.subrange(c, c + ent.len() as int) =~= en.subrange(ei.len() as int, (ei + ent).len() as int));
        assert((ei + ent).subrange(ei.len() as int, (ei + ent).len() as int) =~= ent);
    }
    assert(b.subrange(c, c + 4) =~= ent.subrange(0, 4));
    assert(ent.subrange(0, 4) =~= u32_le_bytes(kl as u32));
    lemma_le_u32_at(b, c, kl as u32);
    let e = c + 4 + kl;
    assert(b.subrange(e, e + 2) =~= ent.subrange(4 + kl, 6 + kl));
    assert(ent.subrange(4 + kl, 6 + kl) =~= u16_le_bytes(i as u16));
    lemma_le_u16_at(b, e, i as u16);
    assert(b.subrange(c + 4, e) =~= ent.subrange(4, 4 + kl));
    assert(ent.subrange(4, 4 + kl) =~= keys[i as int]);
}

/// The id of the last key from `i` on that is `key`, else `tg`.
pub open spec fn last_key_index(keys: Seq<Seq<u8>>, key: Seq<u8>, i: int, tg: Option<u16>) -> Option<u16>
    decreases keys.len() - i,
{
    if i < 0 || i >= keys.len() {
        tg
    } else {
        last_key_index(
            keys,
            key,
            i + 1,
            if keys[i] == key {
                Some(i as u16)
            } else {
                tg
            },
        )
    }
}

/// Reading the schema entries from key `i` on fills in the rest of the keys.
pub proof fn lemma_schema_fill(keys: Seq<Seq<u8>>, i: nat, key: Seq<u8>, target: Option<u16>)
    requires
        keys.len() <= 0xffff,
        forall|x: int| 0 <= x < keys.len() ==> (#[trigger] keys[x]).len() <= u32::MAX,
        i <= keys.len(),
    ensures
        schema_fill(
            schema_block(keys),
            4 + schema_entries(keys, i).len() as int,
            (keys.len() - i) as nat,
            keys_so_far(keys, i as int),
            key,
            target,
        ) == Some((keys, last_key_index(keys, key, i as int, target))),
    decreases keys.len() - i,
{
    let n = keys.len();
    let b = schema_block(keys);
    if i < n {
        let ei = schema_entries(keys, i);
        let kl = keys[i as int].len() as int;
        let c = 4 + ei.len() as int;
        let e = c + 4 + kl;
        lemma_schema_entry_reads(keys, i);
        let kb = b.subrange(c + 4, e);
        assert(keys_so_far(keys, i as int).update(i as int, kb) =~= keys_so_far(keys, i as int + 1));
        lemma_schema_fill(keys, i + 1, key, if kb == key {
            Some(i as u16)
        } else {
            target
        });
    } else {
        assert(keys_so_far(keys, i as int) =~= keys);
    }
}

/// Reading a schema block gives back its keys.
pub proof fn lemma_schema_roundtrip(keys: Seq<Seq<u8>>, key: Seq<u8>)
    requires
        keys.len() <= 0xffff,
        forall|x: int| 0 <= x < keys.len() ==> (#[trigger] keys[x]).len() <= u32::MAX,
    ensures
        schema_read(schema_block(keys), key) == Some((keys, last_key_index(keys, key, 0, None))),
{
    let b = schema_block(keys);
    let n = keys.len();
    lemma_entries_prefix(keys, 0, n);
    assert(b.subrange(0, 4) =~= u32_le_bytes(n as u32));
    lemma_le_u32_at(b, 0, n as u32);
    assert(keys.take(0) + Seq::new(n, |x: int| Seq::<u8>::empty()) =~= Seq::new(
        n,
        |x: int| Seq::<u8>::empty(),
    ));
    assert(schema_entries(keys, 0).len() == 0);
    lemma_schema_fill(keys, 0, key, None);
}

/// Reading the dictionary lengths from string `i` on cuts out the rest of
/// the strings.
#[verifier::spinoff_prover]
pub proof fn lemma_dict_fill(vals: Seq<Seq<u8>>, i: nat)
    requires
        dict_bytes_of(vals).len() <= u32::MAX,
        vals.len() <= u32::MAX,
        i <= vals.len(),
    ensures
        ({
            let b = dict_block(vals);
            let db = dict_bytes_of(vals).len() as int;
            dict_fill(
                b,
                b.subrange(4, 4 + db),
                8 + db + 4 * i,
                (vals.len() - i) as nat,
                dict_bytes_of(vals.take(i as int)).len() as int,
                vals.take(i as int),
            ) == Some(vals)
        }),
    decreases vals.len() - i,
{
    let b = dict_block(vals);
    let bytes = dict_bytes_of(vals);
    let db = bytes.len() as int;
    let lens = dict_lens_of(vals);
    let f = |v: Seq<u8>| v;
    assert(b == u32_le_bytes(db as u32) + bytes + u32_le_bytes(vals.len() as u32) + u32s_le(lens));
    assert(b.subrange(4, 4 + db) =~= bytes);
    if i < vals.len() {
        let ii = i as int;
        lemma_u32s_window(lens, ii);
        let x = u32_le_bytes(db as u32) + bytes + u32_le_bytes(vals.len() as u32);
        assert(b =~= x + u32s_le(lens) + Seq::empty());
        lemma_window(x, u32s_le(lens), Seq::empty(), 4 * ii, 4 * ii + 4);
        lemma_le_u32_at(b, 8 + db + 4 * ii, lens[ii]);
        lemma_concat_map_range(vals, ii, ii + 1, f);
        assert(vals.subrange(ii, ii + 1) =~= Seq::<Seq<u8>>::empty().push(vals[ii]));
        lemma_concat_map_push(Seq::<Seq<u8>>::empty(), vals[ii], f);
        assert(concat_map(Seq::<Seq<u8>>::empty(), f) =~= Seq::<u8>::empty());
        assert(concat_map(vals.subrange(ii, ii + 1), f) =~= vals[ii]);
        assert(vals.take(ii + 1) =~= vals.take(ii).push(vals[ii]));
        lemma_dict_fill(vals, i + 1);
    } else {
        assert(vals.take(i as int) =~= vals);
    }
}

/// Reading a dictionary block gives back its strings.
pub proof fn lemma_dict_roundtrip(vals: Seq<Seq<u8>>)
    requires
        dict_bytes_of(vals).len() <= u32::MAX,
        vals.len() <= u32::MAX,
    ensures
        dict_read(dict_block(vals)) == Some(vals),
{
    let b = dict_block(vals);
    let bytes = dict_bytes_of(vals);
    let db = bytes.len() as int;
    let lens = dict_lens_of(vals);
    assert(b == u32_le_bytes(db as u32) + bytes + u32_le_bytes(vals.len() as u32) + u32s_le(lens));
    lemma_u32s_window(lens, 0);
    assert(b.subrange(0, 4) =~= u32_le_bytes(db as u32));
    lemma_le_u32_at(b, 0, db as u32);
    assert(b.subrange(4 + db, 8 + db) =~= u32_le_bytes(vals.len() as u32));
    lemma_le_u32_at(b, 4 + db, vals.len() as u32);
    assert(vals.take(0) =~= Seq::<Seq<u8>>::empty());
    assert(dict_bytes_of(vals.take(0)) =~= Seq::<u8>::empty());
    lemma_dict_fill(vals, 0);
}

} // verus!
