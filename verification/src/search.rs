//! Lemmas on searching a columnar archive: what the scan block shows of a
//! frame, that skipping a frame loses no match, and which rows are kept.
use vstd::prelude::*;
use crate::bytes::{le_u16, le_u32};
use crate::laws::{any_match, fields_json, matching_rows};
use crate::archive::{model_fits, rows_fit, frame_fits};
use crate::archive::{
    data_block, data_rows_block, frame_bytes, frame_count, frame_end, frame_start, frames_concat, row_fields, scan_block,
    scan_rows_block, BLOCK_LEVEL,
};
use crate::bytes::u32_le_bytes;
use crate::model::{index_of, lemma_index_of_unique, model_wf, Model};
use crate::reader::{data_layout, first_cursor, frame_wanted, grep_frames, offsets_fit};
use crate::roundtrip::{
    frames_decode, last_key_index, lemma_blocks_of, lemma_data_counts, lemma_fields_shift, lemma_frame_reads,
    lemma_frame_window,
};
use crate::trusted::{zstd_decoded, zstd_frame};
use crate::model::{lemma_sum_u16_range, sids_of, sum_u16, Value, TYPE_STRING};
use crate::reader::{
    candidate_from, field_matches, grep_rows, key_in_frame, layout_of, read_fields, Cur, ErrorKind,
    Target,
};
use crate::roundtrip::{
    data_of, fields_ok, lemma_cursor_step, lemma_read_fields_local, lemma_scan_counts, lemma_scan_key,
    lemma_scan_row, lemma_scan_sid, lemma_scan_type, lens_at, lits_at, local_cur, scan_of,
};

verus! {

/// Whether one of the key ids from `i` on is `tk`.
pub open spec fn any_key(ks: Seq<u16>, tk: u16, i: int) -> bool
    decreases ks.len() - i,
{
    if i < 0 || i >= ks.len() {
        false
    } else {
        ks[i] == tk || any_key(ks, tk, i + 1)
    }
}

/// Whether one of the fields from `j` on is of key `tk` and can hold the
/// dictionary string of id `td`: that string, or a value that is not a
/// dictionary string.
pub open spec fn any_candidate(ks: Seq<u16>, ff: Seq<Value>, tk: u16, td: u32, j: int) -> bool
    decreases ff.len() - j,
{
    if j < 0 || j >= ff.len() {
        false
    } else {
        (ks[j] == tk && (ff[j] == Value::Str(td) || !(ff[j] is Str))) || any_candidate(ks, ff, tk, td, j + 1)
    }
}

/// The scan block shows whether a key id from `i` on is `tk`.
pub proof fn lemma_key_in_frame(ks: Seq<u16>, ff: Seq<Value>, rs: Seq<u16>, tk: u16, i: nat)
    requires
        ks.len() == ff.len(),
        i <= ks.len(),
    ensures
        key_in_frame(scan_of(ks, ff, rs), ks.len(), tk, i) == Some(any_key(ks, tk, i as int)),
    decreases ks.len() - i,
{
    if i < ks.len() {
        lemma_scan_key(ks, ff, rs, i as int);
        lemma_key_in_frame(ks, ff, rs, tk, i + 1);
    }
}

/// The scan block shows whether a field from `j` on is of key `tk` and can
/// hold the dictionary string of id `td`.
pub proof fn lemma_candidate(ks: Seq<u16>, ff: Seq<Value>, rs: Seq<u16>, tk: u16, td: u32, j: nat)
    requires
        ks.len() == ff.len(),
        j <= ff.len(),
    ensures
        candidate_from(
            scan_of(ks, ff, rs),
            ff.len(),
            8,
            8 + 2 * ff.len() as int,
            8 + 3 * ff.len() as int,
            tk,
            td,
            j,
            sids_of(ff.take(j as int)).len() as int,
        ) == Some(any_candidate(ks, ff, tk, td, j as int)),
    decreases ff.len() - j,
{
    if j < ff.len() {
        let jj = j as int;
        lemma_scan_key(ks, ff, rs, jj);
        lemma_scan_type(ks, ff, rs, jj);
        lemma_cursor_step(ff, jj, 0);
        lemma_candidate(ks, ff, rs, tk, td, j + 1);
        match ff[jj] {
            Value::Str(id) => {
                lemma_scan_sid(ks, ff, rs, jj);
            },
            _ => {},
        }
    }
}

/// When no key id is `tk`, no field matches a target of key `tk`.
pub proof fn lemma_no_key(ks: Seq<u16>, ff: Seq<Value>, t: Target, i: int)
    requires
        0 <= i <= ks.len(),
        !any_key(ks, t.key, i),
    ensures
        forall|j: int| i <= j < ks.len() ==> !field_matches(t, ks[j], #[trigger] ff[j]),
    decreases ks.len() - i,
{
    if i < ks.len() {
        lemma_no_key(ks, ff, t, i + 1);
    }
}

/// When no field from `j` on is of key `tk` and can hold the dictionary
/// string of id `td`, none of them matches a target of that key and string.
pub proof fn lemma_no_candidate(ks: Seq<u16>, ff: Seq<Value>, t: Target, td: u32, j: int)
    requires
        0 <= j <= ff.len(),
        ks.len() == ff.len(),
        t.dict_id == Some(td),
        !any_candidate(ks, ff, t.key, td, j),
    ensures
        forall|x: int| j <= x < ff.len() ==> !field_matches(t, ks[x], #[trigger] ff[x]),
    decreases ff.len() - j,
{
    if j < ff.len() {
        lemma_no_candidate(ks, ff, t, td, j + 1);
    }
}

/// With no field of `a..b` matching, none of them is found.
pub proof fn lemma_no_match_range(ks: Seq<u16>, ff: Seq<Value>, t: Target, a: int, b: int)
    requires
        0 <= a,
        b <= ff.len(),
        forall|x: int| 0 <= x < ff.len() ==> !field_matches(t, ks[x], #[trigger] ff[x]),
    ensures
        !any_match(ks, ff, t, a, b),
    decreases b - a,
{
    if a < b {
        assert(!field_matches(t, ks[a], ff[a]));
        lemma_no_match_range(ks, ff, t, a + 1, b);
    }
}

/// With no field matching, no row matches.
pub proof fn lemma_no_match_rows(
    ks: Seq<u16>,
    ff: Seq<Value>,
    rs: Seq<u16>,
    keys: Seq<Seq<u8>>,
    vals: Seq<Seq<u8>>,
    t: Target,
    r: int,
)
    requires
        0 <= r <= rs.len(),
        sum_u16(rs) <= ff.len(),
        forall|x: int| 0 <= x < ff.len() ==> !field_matches(t, ks[x], #[trigger] ff[x]),
    ensures
        matching_rows(ks, ff, rs, keys, vals, t, r) == Seq::<Seq<u8>>::empty(),
    decreases rs.len() - r,
{
    if r < rs.len() {
        lemma_sum_u16_range(rs, r, r + 1);
        lemma_sum_u16_range(rs, r + 1, rs.len() as int);
        assert(rs.take(rs.len() as int) =~= rs);
        assert(rs.subrange(r, r + 1) =~= Seq::<u16>::empty().push(rs[r]));
        crate::model::lemma_sum_u16_push(Seq::<u16>::empty(), rs[r]);
        assert(sum_u16(Seq::<u16>::empty()) == 0);
        let a = sum_u16(rs.take(r)) as int;
        lemma_no_match_range(ks, ff, t, a, a + rs[r]);
        lemma_no_match_rows(ks, ff, rs, keys, vals, t, r + 1);
    }
}

/// The reader keeps the matching rows from `r` on of a frame.
#[verifier::spinoff_prover]
pub proof fn lemma_grep_rows_local(
    ks: Seq<u16>,
    ff: Seq<Value>,
    rs: Seq<u16>,
    keys: Seq<Seq<u8>>,
    vals: Seq<Seq<u8>>,
    t: Target,
    r: nat,
    acc: Seq<Seq<u8>>,
)
    requires
        fields_ok(ks, ff, keys.len(), vals.len()),
        sum_u16(rs) == ff.len(),
        r <= rs.len(),
    ensures
        ({
            let scan = scan_of(ks, ff, rs);
            grep_rows(
                scan,
                data_of(ff),
                layout_of(scan, lens_at(ff)),
                keys,
                vals,
                t,
                rs.len(),
                r,
                local_cur(ff, sum_u16(rs.take(r as int)) as int, lits_at(ff)),
                acc,
            ) == Ok::<Seq<Seq<u8>>, ErrorKind>(acc + matching_rows(ks, ff, rs, keys, vals, t, r as int))
        }),
    decreases rs.len() - r,
{
    lemma_scan_counts(ks, ff, rs);
    if r < rs.len() {
        let r1 = (r + 1) as int;
        lemma_scan_row(ks, ff, rs, r as int);
        lemma_sum_u16_range(rs, r as int, r1);
        lemma_sum_u16_range(rs, r1, rs.len() as int);
        assert(rs.take(rs.len() as int) =~= rs);
        assert(rs.subrange(r as int, r1) =~= Seq::<u16>::empty().push(rs[r as int]));
        crate::model::lemma_sum_u16_push(Seq::<u16>::empty(), rs[r as int]);
        assert(sum_u16(Seq::<u16>::empty()) == 0);
        let a = sum_u16(rs.take(r as int)) as int;
        let nf = rs[r as int] as nat;
        assert(a + nf == sum_u16(rs.take(r1)));
        lemma_read_fields_local(ks, ff, rs, keys, vals, Some(t), a, nf, 0, seq![0x7bu8], false);
        let line = seq![0x7bu8] + fields_json(ks, ff, keys, vals, a, a + nf, true) + seq![0x7du8, 0x0au8];
        let mt = any_match(ks, ff, t, a, a + nf);
        let acc2 = if mt {
            acc.push(line)
        } else {
            acc
        };
        lemma_grep_rows_local(ks, ff, rs, keys, vals, t, r + 1, acc2);
        if mt {
            assert(acc.push(line) + matching_rows(ks, ff, rs, keys, vals, t, r1) =~= acc + (seq![line]
                + matching_rows(ks, ff, rs, keys, vals, t, r1)));
        }
    } else {
        assert(acc + matching_rows(ks, ff, rs, keys, vals, t, r as int) =~= acc);
    }
}

/// Fields `k..b` of a frame match where fields `fa + k .. fa + b` of the
/// whole do.
pub proof fn lemma_match_shift(ks: Seq<u16>, ff: Seq<Value>, t: Target, fa: int, fb: int, k: int, b: int)
    requires
        0 <= fa <= fb <= ks.len(),
        fb <= ff.len(),
        0 <= k,
        b <= fb - fa,
    ensures
        any_match(ks.subrange(fa, fb), ff.subrange(fa, fb), t, k, b) == any_match(ks, ff, t, fa + k, fa + b),
    decreases b - k,
{
    if k < b {
        lemma_match_shift(ks, ff, t, fa, fb, k + 1, b);
    }
}

/// The matching rows of a frame, then those after it, are the matching rows
/// from its first.
#[verifier::spinoff_prover]
pub proof fn lemma_matching_shift(
    ks: Seq<u16>,
    ff: Seq<Value>,
    rs: Seq<u16>,
    keys: Seq<Seq<u8>>,
    vals: Seq<Seq<u8>>,
    t: Target,
    ra: int,
    rb: int,
    r: int,
)
    requires
        0 <= ra <= rb <= rs.len(),
        sum_u16(rs.take(rb)) <= ks.len(),
        sum_u16(rs.take(rb)) <= ff.len(),
        0 <= r <= rb - ra,
    ensures
        ({
            let fa = sum_u16(rs.take(ra)) as int;
            let fb = sum_u16(rs.take(rb)) as int;
            matching_rows(ks.subrange(fa, fb), ff.subrange(fa, fb), rs.subrange(ra, rb), keys, vals, t, r)
                + matching_rows(ks, ff, rs, keys, vals, t, rb) == matching_rows(ks, ff, rs, keys, vals, t, ra + r)
        }),
    decreases rb - ra - r,
{
    let fa = sum_u16(rs.take(ra)) as int;
    let fb = sum_u16(rs.take(rb)) as int;
    let rl = rs.subrange(ra, rb);
    let kl = ks.subrange(fa, fb);
    let fl = ff.subrange(fa, fb);
    lemma_sum_u16_range(rs, ra, rb);
    if r < rb - ra {
        lemma_matching_shift(ks, ff, rs, keys, vals, t, ra, rb, r + 1);
        lemma_sum_u16_range(rs, ra, ra + r);
        lemma_sum_u16_range(rs, ra + r, ra + r + 1);
        lemma_sum_u16_range(rs, ra + r + 1, rb);
        lemma_sum_u16_range(rl, r, r + 1);
        assert(rl.take(r) =~= rs.subrange(ra, ra + r));
        assert(rs.subrange(ra + r, ra + r + 1) =~= Seq::<u16>::empty().push(rs[ra + r]));
        crate::model::lemma_sum_u16_push(Seq::<u16>::empty(), rs[ra + r]);
        assert(sum_u16(Seq::<u16>::empty()) == 0);
        let al = sum_u16(rl.take(r)) as int;
        let ag = sum_u16(rs.take(ra + r)) as int;
        assert(ag == fa + al);
        assert(rl[r] == rs[ra + r]);
        assert(ag + rs[ra + r] <= fb);
        lemma_fields_shift(ks, ff, keys, vals, fa, fb, al, al + rl[r], true);
        lemma_match_shift(ks, ff, t, fa, fb, al, al + rl[r]);
        let line = seq![0x7bu8] + fields_json(kl, fl, keys, vals, al, al + rl[r], true) + seq![0x7du8, 0x0au8];
        let ml = matching_rows(kl, fl, rl, keys, vals, t, r + 1);
        let mg = matching_rows(ks, ff, rs, keys, vals, t, rb);
        if any_match(kl, fl, t, al, al + rl[r]) {
            assert(seq![line] + ml + mg =~= seq![line] + (ml + mg));
        }
    } else {
        assert(matching_rows(kl, fl, rl, keys, vals, t, r) =~= Seq::<Seq<u8>>::empty());
        assert(Seq::<Seq<u8>>::empty() + matching_rows(ks, ff, rs, keys, vals, t, rb) =~= matching_rows(
            ks,
            ff,
            rs,
            keys,
            vals,
            t,
            rb,
        ));
    }
}

/// What the search finds in the frame of rows `ra..rb`: whether it reads the
/// data block, and what it keeps; either way, with the matching rows after
/// the frame, the matching rows from its first.
#[verifier::spinoff_prover]
#[verifier::rlimit(40)]
pub proof fn lemma_grep_frame_global(m: Model, ra: nat, rb: nat, t: Target, acc: Seq<Seq<u8>>)
    requires
        model_wf(m),
        model_fits(m),
        rows_fit(m, ra, rb),
        ra <= rb <= m.rows.len(),
    ensures
        ({
            let scan = scan_rows_block(m, ra, rb);
            let data = data_rows_block(m, ra, rb);
            let g = matching_rows(m.kstream, m.fields, m.rows, m.keys, m.vals, t, rb as int);
            let g0 = matching_rows(m.kstream, m.fields, m.rows, m.keys, m.vals, t, ra as int);
            &&& offsets_fit(scan)
            &&& frame_wanted(scan, t) is Some
            &&& frame_wanted(scan, t) == Some(false) ==> g == g0
            &&& frame_wanted(scan, t) == Some(true) ==> (data_layout(data) matches Some((lo, lits)) && grep_rows(
                scan,
                data,
                layout_of(scan, lo),
                m.keys,
                m.vals,
                t,
                (rb - ra) as nat,
                0,
                first_cursor(lits),
                acc,
            ) matches Ok(a2) && a2 + g == acc + g0)
        }),
{
    let fa = row_fields(m, ra) as int;
    let fb = row_fields(m, rb) as int;
    let ks = m.kstream.subrange(fa, fb);
    let ff = m.fields.subrange(fa, fb);
    let rs = m.rows.subrange(ra as int, rb as int);
    let g = matching_rows(m.kstream, m.fields, m.rows, m.keys, m.vals, t, rb as int);
    lemma_blocks_of(m, ra, rb);
    lemma_frame_local(ks, ff, rs, m.keys, m.vals, t, acc);
    lemma_sum_u16_range(m.rows, rb as int, m.rows.len() as int);
    assert(m.rows.take(m.rows.len() as int) =~= m.rows);
    lemma_matching_shift(m.kstream, m.fields, m.rows, m.keys, m.vals, t, ra as int, rb as int, 0);
    let local = matching_rows(ks, ff, rs, m.keys, m.vals, t, 0);
    assert(acc + local + g =~= acc + (local + g));
    assert(local =~= Seq::<Seq<u8>>::empty() ==> local + g =~= g);
}

/// What the search finds in a frame's blocks: it can tell from the scan
/// block whether to read the data block; when it does not, no row of the
/// frame matches; when it does, it keeps the matching rows.
#[verifier::spinoff_prover]
pub proof fn lemma_frame_local(
    ks: Seq<u16>,
    ff: Seq<Value>,
    rs: Seq<u16>,
    keys: Seq<Seq<u8>>,
    vals: Seq<Seq<u8>>,
    t: Target,
    acc: Seq<Seq<u8>>,
)
    requires
        fields_ok(ks, ff, keys.len(), vals.len()),
        sum_u16(rs) == ff.len(),
        8 + 7 * ff.len() <= usize::MAX,
    ensures
        ({
            let scan = scan_of(ks, ff, rs);
            let data = data_of(ff);
            let local = matching_rows(ks, ff, rs, keys, vals, t, 0);
            &&& offsets_fit(scan)
            &&& frame_wanted(scan, t) is Some
            &&& frame_wanted(scan, t) == Some(false) ==> local == Seq::<Seq<u8>>::empty()
            &&& frame_wanted(scan, t) == Some(true) ==> (data_layout(data) matches Some((lo, lits))
                && grep_rows(
                scan,
                data,
                layout_of(scan, lo),
                keys,
                vals,
                t,
                rs.len(),
                0,
                first_cursor(lits),
                acc,
            ) == Ok::<Seq<Seq<u8>>, ErrorKind>(acc + local))
        }),
{
    let scan = scan_of(ks, ff, rs);
    lemma_scan_counts(ks, ff, rs);
    lemma_key_in_frame(ks, ff, rs, t.key, 0);
    assert(ff.take(0) =~= Seq::<Value>::empty());
    assert(sids_of(ff.take(0)).len() == 0);
    match t.dict_id {
        Some(td) => {
            lemma_candidate(ks, ff, rs, t.key, td, 0);
        },
        None => {},
    }
    if frame_wanted(scan, t) == Some(false) {
        if !any_key(ks, t.key, 0) {
            lemma_no_key(ks, ff, t, 0);
        } else {
            lemma_no_candidate(ks, ff, t, t.dict_id->Some_0, 0);
        }
        lemma_no_match_rows(ks, ff, rs, keys, vals, t, 0);
    } else {
        lemma_data_counts(ff);
        assert(rs.take(0) =~= Seq::<u16>::empty());
        assert(local_cur(ff, 0, lits_at(ff)) == first_cursor(lits_at(ff)));
        lemma_grep_rows_local(ks, ff, rs, keys, vals, t, 0, acc);
    }
}

/// One step of the search over a frame whose parts it finds in place.
pub proof fn lemma_grep_frames_step(
    p: Seq<u8>,
    pos: int,
    k: nat,
    keys: Seq<Seq<u8>>,
    vals: Seq<Seq<u8>>,
    t: Target,
    acc: Seq<Seq<u8>>,
    rc: u32,
    sf: Seq<u8>,
    z: Seq<u8>,
    scan: Seq<u8>,
    data: Seq<u8>,
)
    requires
        k > 0,
        0 <= pos,
        pos + 12 + sf.len() + z.len() <= p.len(),
        le_u32(p, pos) == rc,
        le_u32(p, pos + 4) == sf.len(),
        p.subrange(pos + 8, pos + 8 + sf.len()) == sf,
        le_u32(p, pos + 8 + sf.len()) == z.len(),
        p.subrange(pos + 12 + sf.len(), pos + 12 + sf.len() + z.len()) == z,
        zstd_decoded(sf) == Some(scan),
        zstd_decoded(z) == Some(data),
        offsets_fit(scan),
    ensures
        ({
            let d1 = pos + 12 + sf.len() + z.len();
            grep_frames(p, pos, k, keys, vals, t, acc) == (match frame_wanted(scan, t) {
                None => Err(ErrorKind::Truncated),
                Some(false) => grep_frames(p, d1, (k - 1) as nat, keys, vals, t, acc),
                Some(true) => match data_layout(data) {
                    None => Err(ErrorKind::Truncated),
                    Some((lo, lits)) => match grep_rows(
                        scan,
                        data,
                        layout_of(scan, lo),
                        keys,
                        vals,
                        t,
                        rc as nat,
                        0,
                        first_cursor(lits),
                        acc,
                    ) {
                        Err(e) => Err(e),
                        Ok(a2) => grep_frames(p, d1, (k - 1) as nat, keys, vals, t, a2),
                    },
                },
            })
        }),
{
}

/// Searching frame `f` of an archive moves on to frame `f + 1` with the
/// matching rows of frame `f` kept.
#[verifier::spinoff_prover]
#[verifier::rlimit(40)]
pub proof fn lemma_grep_frame_at(
    m: Model,
    zs: Seq<Seq<u8>>,
    p: Seq<u8>,
    h: int,
    t: Target,
    f: nat,
    acc: Seq<Seq<u8>>,
) -> (acc2: Seq<Seq<u8>>)
    requires
        model_wf(m),
        model_fits(m),
        zs.len() == frame_count(m.rows.len()),
        frames_decode(m, zs),
        f < zs.len(),
        0 <= h <= p.len(),
        p.subrange(h, p.len() as int) == frames_concat(m, zs),
    ensures
        grep_frames(
            p,
            h + frames_concat(m, zs.take(f as int)).len(),
            (zs.len() - f) as nat,
            m.keys,
            m.vals,
            t,
            acc,
        ) == grep_frames(
            p,
            h + frames_concat(m, zs.take(f as int + 1)).len(),
            (zs.len() - f - 1) as nat,
            m.keys,
            m.vals,
            t,
            acc2,
        ),
        acc2 + matching_rows(m.kstream, m.fields, m.rows, m.keys, m.vals, t, frame_end(m, f) as int) == acc
            + matching_rows(m.kstream, m.fields, m.rows, m.keys, m.vals, t, frame_start(f) as int),
        frame_start(f) < m.rows.len(),
{
    let n = m.rows.len() as int;
    let fi = f as int;
    crate::archive::lemma_frame_count(m.rows.len(), zs.len());
    lemma_frame_window(m, zs, p, h, fi);
    let pre = frames_concat(m, zs.take(fi));
    let fbs = frame_bytes(m, f, zs[fi]);
    let pos = h + pre.len();
    let ra = frame_start(f);
    let rb = frame_end(m, f);
    assert(65536 * fi < n);
    let sf = zstd_frame(scan_block(m, f), BLOCK_LEVEL);
    let rc = (rb - ra) as u32;
    assert(fbs == u32_le_bytes(rc) + u32_le_bytes(sf.len() as u32) + sf + u32_le_bytes(
        zs[fi].len() as u32,
    ) + zs[fi]) by {
        reveal(frame_bytes);
    }
    lemma_frame_reads(p, pos, rc, sf, zs[fi]);
    assert(scan_block(m, f) == scan_rows_block(m, ra, rb) && data_block(m, f) == data_rows_block(
        m,
        ra,
        rb,
    )) by {
        reveal(scan_block);
        reveal(data_block);
    }
    assert(frame_fits(m, f));
    lemma_grep_frame_global(m, ra, rb, t, acc);
    lemma_grep_frames_step(
        p,
        pos,
        (zs.len() - f) as nat,
        m.keys,
        m.vals,
        t,
        acc,
        rc,
        sf,
        zs[fi],
        scan_block(m, f),
        data_block(m, f),
    );
    if frame_wanted(scan_block(m, f), t) == Some(true) {
        let dl = data_layout(data_block(m, f))->Some_0;
        grep_rows(
            scan_block(m, f),
            data_block(m, f),
            layout_of(scan_block(m, f), dl.0),
            m.keys,
            m.vals,
            t,
            rc as nat,
            0,
            first_cursor(dl.1),
            acc,
        )->Ok_0
    } else {
        acc
    }
}

/// Searching the frames from frame `f` on keeps the matching rows from the
/// first row of frame `f` on.
pub proof fn lemma_grep_frames_from(
    m: Model,
    zs: Seq<Seq<u8>>,
    p: Seq<u8>,
    h: int,
    t: Target,
    f: nat,
    acc: Seq<Seq<u8>>,
)
    requires
        model_wf(m),
        model_fits(m),
        zs.len() == frame_count(m.rows.len()),
        frames_decode(m, zs),
        f <= zs.len(),
        0 <= h <= p.len(),
        p.subrange(h, p.len() as int) == frames_concat(m, zs),
    ensures
        grep_frames(
            p,
            h + frames_concat(m, zs.take(f as int)).len(),
            (zs.len() - f) as nat,
            m.keys,
            m.vals,
            t,
            acc,
        ) == Ok::<Seq<Seq<u8>>, ErrorKind>(
            acc + matching_rows(
                m.kstream,
                m.fields,
                m.rows,
                m.keys,
                m.vals,
                t,
                if 65536 * f <= m.rows.len() {
                    65536 * f as int
                } else {
                    m.rows.len() as int
                },
            ),
        ),
    decreases zs.len() - f,
{
    let n = m.rows.len() as int;
    crate::archive::lemma_frame_count(m.rows.len(), zs.len());
    if f < zs.len() {
        let acc2 = lemma_grep_frame_at(m, zs, p, h, t, f, acc);
        lemma_grep_frames_from(m, zs, p, h, t, f + 1, acc2);
        assert(frame_end(m, f) as int == (if 65536 * (f + 1) <= n {
            65536 * (f + 1) as int
        } else {
            n
        }));
    } else {
        assert(matching_rows(m.kstream, m.fields, m.rows, m.keys, m.vals, t, n) =~= Seq::<Seq<u8>>::empty());
        assert(acc + Seq::<Seq<u8>>::empty() =~= acc);
    }
}

/// With keys that occur once each, the last id of `key` is its only one.
pub proof fn lemma_last_key_index(keys: Seq<Seq<u8>>, key: Seq<u8>, i: int, tg: Option<u16>)
    requires
        keys.no_duplicates(),
        keys.len() <= 0xffff,
        0 <= i <= keys.len(),
    ensures
        last_key_index(keys, key, i, tg) == (match index_of(keys, key) {
            Some(x) => if i <= x {
                Some(x as u16)
            } else {
                tg
            },
            None => tg,
        }),
    decreases keys.len() - i,
{
    if i < keys.len() {
        if keys[i] == key {
            lemma_index_of_unique(keys, i);
        }
        match index_of(keys, key) {
            Some(x) => {
                assert(0 <= x < keys.len() && keys[x as int] == key) by {
                    assert(exists|j: int| 0 <= j < keys.len() && keys[j] == key);
                }
                if keys[i] == key {
                    assert(x == i);
                }
            },
            None => {},
        }
        lemma_last_key_index(keys, key, i + 1, if keys[i] == key {
            Some(i as u16)
        } else {
            tg
        });
    }
}

} // verus!
