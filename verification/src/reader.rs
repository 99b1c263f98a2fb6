//! Reading archives back: the schema and dictionary blocks, the frames, and
//! the JSON lines that the fields of each row are written out as.
use vstd::prelude::*;
use crate::archive::{ascii_bytes, lemma_hex_lower, raw_hash, sha256_hex, LumpiError, RAW_MARK, VERSION_MAJOR};
use crate::engine::LumpiEngine;
use crate::trusted::{sha256_of, utf8_check, zstd_decode_all, zstd_decoded};
use crate::bytes::{le_u16, le_u32, read_u16_at, read_u32_at};
use crate::bytes::append_bytes;
use crate::model::{Value, TYPE_LITERAL, TYPE_STRING, TYPE_STRING_LIT, TYPE_VARINT};
use crate::number::{decimal_i64, push_decimal_i64};
use crate::varint::{decode_zigzag_varint, decoded_varint, varint_len, varint_size};
use crate::number::{parse_i64, parse_i64_spec};
use crate::text::{find_byte_from, find_from, lemma_find_from, raw_line_matches, raw_line_matches_spec};

verus! {

/// The kind of a [`LumpiError`], without the text of a zstd error.
pub enum ErrorKind {
    FileTooSmall,
    NotLumpFile,
    UnsupportedVersion(u8, u8),
    InvalidHash,
    IntegrityCheckFailed,
    UnknownTypeByte,
    Truncated,
    TooLarge,
    BlockTooLarge,
    Zstd,
}

pub open spec fn kind_of(e: LumpiError) -> ErrorKind {
    match e {
        LumpiError::FileTooSmall => ErrorKind::FileTooSmall,
        LumpiError::NotLumpFile => ErrorKind::NotLumpFile,
        LumpiError::UnsupportedVersion(a, b) => ErrorKind::UnsupportedVersion(a, b),
        LumpiError::InvalidHash => ErrorKind::InvalidHash,
        LumpiError::IntegrityCheckFailed => ErrorKind::IntegrityCheckFailed,
        LumpiError::UnknownTypeByte => ErrorKind::UnknownTypeByte,
        LumpiError::Truncated => ErrorKind::Truncated,
        LumpiError::TooLarge => ErrorKind::TooLarge,
        LumpiError::BlockTooLarge => ErrorKind::BlockTooLarge,
        LumpiError::Zstd(_) => ErrorKind::Zstd,
    }
}

/// The contents of byte vectors.
pub open spec fn views(v: Seq<Vec<u8>>) -> Seq<Seq<u8>> {
    v.map_values(|x: Vec<u8>| x@)
}

/// The schema entries from `c` on, `k` of them, stored by id into `table`;
/// with the id of the last entry whose key is `key` (else `target`). `None`
/// where the block ends first or an id is not below the number of keys.
pub open spec fn schema_fill(
    b: Seq<u8>,
    c: int,
    k: nat,
    table: Seq<Seq<u8>>,
    key: Seq<u8>,
    target: Option<u16>,
) -> Option<(Seq<Seq<u8>>, Option<u16>)>
    decreases k,
{
    if k == 0 {
        Some((table, target))
    } else if c + 4 > b.len() {
        None
    } else {
        let e = c + 4 + le_u32(b, c) as int;
        if e + 2 > b.len() {
            None
        } else {
            let kid = le_u16(b, e);
            let kb = b.subrange(c + 4, e);
            if kid >= table.len() {
                None
            } else {
                schema_fill(
                    b,
                    e + 2,
                    (k - 1) as nat,
                    table.update(kid as int, kb),
                    key,
                    if kb == key {
                        Some(kid)
                    } else {
                        target
                    },
                )
            }
        }
    }
}

/// The keys of a schema block by id (an id that no entry names has the empty
/// key), and the id of `key`. `None` where the block is cut short: it cannot
/// hold the count it starts with when that count's six-byte minimum entries
/// would not fit.
pub open spec fn schema_read(b: Seq<u8>, key: Seq<u8>) -> Option<(Seq<Seq<u8>>, Option<u16>)> {
    if b.len() < 4 {
        None
    } else {
        let n = le_u32(b, 0) as nat;
        if 4 + 6 * n > b.len() {
            None
        } else {
            schema_fill(b, 4, n, Seq::new(n, |i: int| Seq::<u8>::empty()), key, None)
        }
    }
}

/// The dictionary strings from the length at `c` on, `k` of them, cut one
/// after the other from `bytes` starting at `dbc`.
pub open spec fn dict_fill(
    b: Seq<u8>,
    bytes: Seq<u8>,
    c: int,
    k: nat,
    dbc: int,
    acc: Seq<Seq<u8>>,
) -> Option<Seq<Seq<u8>>>
    decreases k,
{
    if k == 0 {
        Some(acc)
    } else if c + 4 > b.len() {
        None
    } else {
        let l = le_u32(b, c) as int;
        if dbc + l > bytes.len() {
            None
        } else {
            dict_fill(b, bytes, c + 4, (k - 1) as nat, dbc + l, acc.push(bytes.subrange(dbc, dbc + l)))
        }
    }
}

/// The strings of a dictionary block, by id; `None` where it is cut short.
pub open spec fn dict_read(b: Seq<u8>) -> Option<Seq<Seq<u8>>> {
    if b.len() < 4 {
        None
    } else {
        let db = le_u32(b, 0) as int;
        if 8 + db > b.len() {
            None
        } else {
            let n = le_u32(b, 4 + db) as nat;
            if 8 + db + 4 * n > b.len() {
                None
            } else {
                dict_fill(b, b.subrange(4, 4 + db), 8 + db, n, 0, Seq::empty())
            }
        }
    }
}

/// Whether `a` and `b` hold the same bytes.
pub fn bytes_eq(a: &[u8], b: &[u8]) -> (r: bool)
    ensures
        r == (a@ == b@),
{
    if a.len() != b.len() {
        return false;
    }
    let mut i: usize = 0;
    while i < a.len()
        invariant
            a.len() == b.len(),
            i <= a.len(),
            forall|j: int| 0 <= j < i ==> a@[j] == b@[j],
        decreases a.len() - i,
    {
        if a[i] != b[i] {
            return false;
        }
        i = i + 1;
    }
    assert(a@ =~= b@);
    true
}

/// Reads a schema block (see [`schema_read`]).
pub fn read_schema(b: &[u8], key: &[u8]) -> (r: Option<(Vec<Vec<u8>>, Option<u16>)>)
    ensures
        match schema_read(b@, key@) {
            None => r is None,
            Some((t, k)) => r matches Some((v, k2)) && views(v@) == t && k2 == k,
        },
{
    if b.len() < 4 {
        return None;
    }
    let n = read_u32_at(b, 0) as usize;
    match n.checked_mul(6) {
        None => {
            return None;
        },
        Some(x) => {
            if x > b.len() - 4 {
                return None;
            }
        },
    }
    let mut table: Vec<Vec<u8>> = Vec::new();
    let mut i: usize = 0;
    while i < n
        invariant
            i <= n,
            table@.len() == i,
            forall|j: int| 0 <= j < i ==> (#[trigger] table@[j])@ == Seq::<u8>::empty(),
        decreases n - i,
    {
        table.push(Vec::new());
        i = i + 1;
    }
    assert(views(table@) =~= Seq::new(n as nat, |i: int| Seq::<u8>::empty()));
    let mut c: usize = 4;
    let mut target: Option<u16> = None;
    let mut k: usize = 0;
    while k < n
        invariant
            b.len() >= 4,
            4 <= c <= b.len(),
            k <= n,
            table@.len() == n,
            schema_fill(b@, c as int, (n - k) as nat, views(table@), key@, target) == schema_read(
                b@,
                key@,
            ),
        decreases n - k,
    {
        if c > b.len() - 4 {
            return None;
        }
        let kl = read_u32_at(b, c) as usize;
        let c1 = c + 4;
        if kl > b.len() - c1 || b.len() - c1 - kl < 2 {
            return None;
        }
        let e = c1 + kl;
        let kid = read_u16_at(b, e);
        if kid as usize >= table.len() {
            return None;
        }
        let kb = vstd::slice::slice_to_vec(&b[c1..e]);
        if bytes_eq(kb.as_slice(), key) {
            target = Some(kid);
        }
        let ghost t0 = views(table@);
        table.set(kid as usize, kb);
        assert(views(table@) =~= t0.update(kid as int, b@.subrange(c1 as int, e as int)));
        c = e + 2;
        k = k + 1;
    }
    Some((table, target))
}

/// Reads a dictionary block (see [`dict_read`]).
pub fn read_dict(b: &[u8]) -> (r: Option<Vec<Vec<u8>>>)
    ensures
        match dict_read(b@) {
            None => r is None,
            Some(t) => r matches Some(v) && views(v@) == t,
        },
{
    if b.len() < 4 {
        return None;
    }
    let db = read_u32_at(b, 0) as usize;
    if db > b.len() - 4 || b.len() - 4 - db < 4 {
        return None;
    }
    let bytes = &b[4..4 + db];
    let n = read_u32_at(b, 4 + db) as usize;
    let start = 8 + db;
    match n.checked_mul(4) {
        None => {
            return None;
        },
        Some(x) => {
            if x > b.len() - start {
                return None;
            }
        },
    }
    let mut out: Vec<Vec<u8>> = Vec::new();
    let mut c: usize = start;
    let mut dbc: usize = 0;
    let mut k: usize = 0;
    assert(views(out@) =~= Seq::<Seq<u8>>::empty());
    while k < n
        invariant
            start == 8 + db,
            start <= c <= b.len(),
            dbc <= bytes@.len(),
            bytes@ == b@.subrange(4, 4 + db as int),
            k <= n,
            dict_fill(b@, bytes@, c as int, (n - k) as nat, dbc as int, views(out@)) == dict_read(b@),
        decreases n - k,
    {
        if c > b.len() - 4 {
            return None;
        }
        let l = read_u32_at(b, c) as usize;
        if l > bytes.len() - dbc {
            return None;
        }
        let piece = vstd::slice::slice_to_vec(&bytes[dbc..dbc + l]);
        let ghost o0 = views(out@);
        out.push(piece);
        assert(views(out@) =~= o0.push(bytes@.subrange(dbc as int, dbc + l)));
        c = c + 4;
        dbc = dbc + l;
        k = k + 1;
    }
    Some(out)
}

/// Where the parts of a frame's scan and data blocks begin.
pub struct Layout {
    pub keys_off: int,
    pub types_off: int,
    pub sids_off: int,
    pub fpr_off: int,
    pub lens_off: int,
}

/// Where the next field's parts stand: its key id and type, its string id,
/// varint, literal length and literal bytes.
pub struct Cur {
    pub kc: int,
    pub sc: int,
    pub vc: int,
    pub llc: int,
    pub lc: int,
}

/// The field of a frame at cursor `c`: its key id, its value and the cursor
/// after it. `Truncated` where a part of it lies past its block, its key id is
/// not below `nkeys`, its string id not below `ndict`, or its varint is longer
/// than ten bytes.
pub open spec fn read_field(
    scan: Seq<u8>,
    data: Seq<u8>,
    lay: Layout,
    nkeys: nat,
    ndict: nat,
    c: Cur,
) -> Result<(u16, Value, Cur), ErrorKind> {
    let ko = lay.keys_off + 2 * c.kc;
    let to = lay.types_off + c.kc;
    if ko + 2 > scan.len() || to >= scan.len() {
        Err(ErrorKind::Truncated)
    } else {
        let kid = le_u16(scan, ko);
        let typ = scan[to];
        let c1 = Cur { kc: c.kc + 1, ..c };
        if kid >= nkeys {
            Err(ErrorKind::Truncated)
        } else if typ == TYPE_STRING {
            let so = lay.sids_off + 4 * c.sc;
            if so + 4 > scan.len() {
                Err(ErrorKind::Truncated)
            } else {
                let vid = le_u32(scan, so);
                if vid >= ndict {
                    Err(ErrorKind::Truncated)
                } else {
                    Ok((kid, Value::Str(vid), Cur { sc: c.sc + 1, ..c1 }))
                }
            }
        } else if typ == TYPE_VARINT {
            match varint_len(data, c.vc) {
                Some(n) => if n <= 10 {
                    Ok((kid, Value::Int(decoded_varint(data, c.vc)), Cur { vc: c.vc + n, ..c1 }))
                } else {
                    Err(ErrorKind::Truncated)
                },
                None => Err(ErrorKind::Truncated),
            }
        } else if typ == TYPE_LITERAL || typ == TYPE_STRING_LIT {
            let lo = lay.lens_off + 2 * c.llc;
            if lo + 2 > data.len() {
                Err(ErrorKind::Truncated)
            } else {
                let ln = le_u16(data, lo) as int;
                if c.lc + ln > data.len() {
                    Err(ErrorKind::Truncated)
                } else {
                    let b = data.subrange(c.lc, c.lc + ln);
                    Ok(
                        (
                            kid,
                            if typ == TYPE_LITERAL {
                                Value::Lit(b)
                            } else {
                                Value::StrLit(b)
                            },
                            Cur { llc: c.llc + 1, lc: c.lc + ln, ..c1 },
                        ),
                    )
                }
            }
        } else {
            Err(ErrorKind::UnknownTypeByte)
        }
    }
}

/// `b` in double quotes.
pub open spec fn quoted(b: Seq<u8>) -> Seq<u8> {
    seq![0x22u8] + b + seq![0x22u8]
}

/// A key in double quotes, a colon and a space.
pub open spec fn key_head(k: Seq<u8>) -> Seq<u8> {
    quoted(k) + seq![0x3au8, 0x20u8]
}

/// How a value is written out: an integer in decimal, a dictionary string
/// or a string literal in double quotes, any other literal as it is.
pub open spec fn value_text(dict: Seq<Seq<u8>>, v: Value) -> Seq<u8> {
    match v {
        Value::Int(n) => decimal_i64(n),
        Value::Str(id) => quoted(dict[id as int]),
        Value::Lit(b) => b,
        Value::StrLit(b) => quoted(b),
    }
}

/// What a search looks for: a key id, and the value as a dictionary id, as an
/// integer, and as bytes.
pub struct Target {
    pub key: u16,
    pub dict_id: Option<u32>,
    pub int: Option<i64>,
    pub value: Seq<u8>,
}

/// A field matches when its key is the target's and its value is the
/// target's: the same dictionary id, the same integer, or the same literal
/// bytes.
pub open spec fn field_matches(t: Target, kid: u16, v: Value) -> bool {
    kid == t.key && match v {
        Value::Str(id) => t.dict_id == Some(id),
        Value::Int(n) => t.int == Some(n),
        Value::Lit(b) => b == t.value,
        Value::StrLit(b) => b == t.value,
    }
}

/// The fields `i..nf` of a row written after `acc`, separated by `", "`, with
/// the cursor after them and whether any field matched `q` (or `matched`).
pub open spec fn read_fields(
    scan: Seq<u8>,
    data: Seq<u8>,
    lay: Layout,
    keys: Seq<Seq<u8>>,
    dict: Seq<Seq<u8>>,
    q: Option<Target>,
    nf: nat,
    i: nat,
    c: Cur,
    acc: Seq<u8>,
    matched: bool,
) -> Result<(Seq<u8>, Cur, bool), ErrorKind>
    decreases nf - i,
{
    if i >= nf {
        Ok((acc, c, matched))
    } else {
        match read_field(scan, data, lay, keys.len(), dict.len(), c) {
            Err(e) => Err(e),
            Ok((kid, v, c2)) => read_fields(
                scan,
                data,
                lay,
                keys,
                dict,
                q,
                nf,
                i + 1,
                c2,
                acc + (if i > 0 {
                    seq![0x2cu8, 0x20u8]
                } else {
                    Seq::empty()
                }) + key_head(keys[kid as int]) + value_text(dict, v),
                matched || (q matches Some(t) && field_matches(t, kid, v)),
            ),
        }
    }
}

/// The exec form of a [`Layout`].
pub struct Offsets {
    pub keys_off: usize,
    pub types_off: usize,
    pub sids_off: usize,
    pub fpr_off: usize,
    pub lens_off: usize,
}

impl View for Offsets {
    type V = Layout;

    open spec fn view(&self) -> Layout {
        Layout {
            keys_off: self.keys_off as int,
            types_off: self.types_off as int,
            sids_off: self.sids_off as int,
            fpr_off: self.fpr_off as int,
            lens_off: self.lens_off as int,
        }
    }
}

/// The exec form of a [`Cur`].
pub struct Cursor {
    pub kc: usize,
    pub sc: usize,
    pub vc: usize,
    pub llc: usize,
    pub lc: usize,
}

impl View for Cursor {
    type V = Cur;

    open spec fn view(&self) -> Cur {
        Cur {
            kc: self.kc as int,
            sc: self.sc as int,
            vc: self.vc as int,
            llc: self.llc as int,
            lc: self.lc as int,
        }
    }
}

/// The exec form of a [`Target`].
pub struct Query<'a> {
    pub key: u16,
    pub dict_id: Option<u32>,
    pub int: Option<i64>,
    pub value: &'a [u8],
}

impl<'a> View for Query<'a> {
    type V = Target;

    open spec fn view(&self) -> Target {
        Target { key: self.key, dict_id: self.dict_id, int: self.int, value: self.value@ }
    }
}

/// Writes the field at `c` as `"key": value` after `out`; gives the cursor
/// after it and whether it matches `q` (see [`read_field`]).
fn emit_field(
    scan: &[u8],
    data: &[u8],
    lay: &Offsets,
    keys: &Vec<Vec<u8>>,
    dict: &Vec<Vec<u8>>,
    c: &Cursor,
    q: Option<&Query>,
    out: &mut Vec<u8>,
) -> (r: Result<(Cursor, bool), LumpiError>)
    requires
        c.vc <= data.len(),
        c.lc <= data.len(),
    ensures
        match read_field(scan@, data@, lay@, keys@.len(), dict@.len(), c@) {
            Err(k) => r matches Err(e) && kind_of(e) == k,
            Ok((kid, v, c2)) => r matches Ok((c3, mt)) && c3@ == c2 && c3.vc <= data.len() && c3.lc
                <= data.len() && final(out)@ == old(out)@ + key_head(views(keys@)[kid as int])
                + value_text(views(dict@), v) && mt == (q matches Some(t) && field_matches(
                t@,
                kid,
                v,
            )),
        },
{
    let ko_wide = 2 * (c.kc as u128) + lay.keys_off as u128;
    let to_wide = lay.types_off as u128 + c.kc as u128;
    if ko_wide + 2 > scan.len() as u128 || to_wide >= scan.len() as u128 {
        return Err(LumpiError::Truncated);
    }
    let ko = ko_wide as usize;
    let to = to_wide as usize;
    let kid = read_u16_at(scan, ko);
    let typ = scan[to];
    if kid as usize >= keys.len() {
        return Err(LumpiError::Truncated);
    }
    let ghost o0 = out@;
    let kb = &keys[kid as usize];
    out.push(0x22);
    append_bytes(out, kb.as_slice());
    out.push(0x22);
    out.push(0x3a);
    out.push(0x20);
    assert(out@ =~= o0 + key_head(views(keys@)[kid as int]));
    let ghost o1 = out@;
    if typ == TYPE_STRING {
        let so_wide = 4 * (c.sc as u128) + lay.sids_off as u128;
        if so_wide + 4 > scan.len() as u128 {
            return Err(LumpiError::Truncated);
        }
        let so = so_wide as usize;
        let vid = read_u32_at(scan, so);
        if vid as usize >= dict.len() {
            return Err(LumpiError::Truncated);
        }
        let sb = &dict[vid as usize];
        out.push(0x22);
        append_bytes(out, sb.as_slice());
        out.push(0x22);
        assert(out@ =~= o1 + quoted(views(dict@)[vid as int]));
        let mt = match q {
            Some(t) => t.key == kid && t.dict_id == Some(vid),
            None => false,
        };
        Ok((Cursor { kc: c.kc + 1, sc: c.sc + 1, vc: c.vc, llc: c.llc, lc: c.lc }, mt))
    } else if typ == TYPE_VARINT {
        match varint_size(data, c.vc) {
            None => Err(LumpiError::Truncated),
            Some(n) => {
                proof {
                    crate::varint::lemma_varint_len_pos(data@, c.vc as int);
                }
                let mut vc = c.vc;
                let v = decode_zigzag_varint(data, &mut vc);
                push_decimal_i64(v, out);
                let mt = match q {
                    Some(t) => t.key == kid && t.int == Some(v),
                    None => false,
                };
                Ok((Cursor { kc: c.kc + 1, sc: c.sc, vc: vc, llc: c.llc, lc: c.lc }, mt))
            },
        }
    } else if typ == TYPE_LITERAL || typ == TYPE_STRING_LIT {
        let lo_wide = 2 * (c.llc as u128) + lay.lens_off as u128;
        if lo_wide + 2 > data.len() as u128 {
            return Err(LumpiError::Truncated);
        }
        let lo = lo_wide as usize;
        let ln = read_u16_at(data, lo) as usize;
        if ln > data.len() - c.lc {
            return Err(LumpiError::Truncated);
        }
        let lit = &data[c.lc..c.lc + ln];
        if typ == TYPE_STRING_LIT {
            out.push(0x22);
            append_bytes(out, lit);
            out.push(0x22);
            assert(out@ =~= o1 + quoted(lit@));
        } else {
            append_bytes(out, lit);
        }
        let mt = match q {
            Some(t) => t.key == kid && bytes_eq(lit, t.value),
            None => false,
        };
        Ok((Cursor { kc: c.kc + 1, sc: c.sc, vc: c.vc, llc: c.llc + 1, lc: c.lc + ln }, mt))
    } else {
        Err(LumpiError::UnknownTypeByte)
    }
}

/// What a query looks for, taken by its contents.
pub open spec fn query_view(q: Option<&Query>) -> Option<Target> {
    match q {
        Some(t) => Some(t@),
        None => None,
    }
}

/// Writes the `nf` fields of a row at `c` after `row`, separated by `", "`
/// (see [`read_fields`]).
fn emit_fields(
    scan: &[u8],
    data: &[u8],
    lay: &Offsets,
    keys: &Vec<Vec<u8>>,
    dict: &Vec<Vec<u8>>,
    q: Option<&Query>,
    nf: u16,
    c: Cursor,
    row: &mut Vec<u8>,
) -> (r: Result<(Cursor, bool), LumpiError>)
    requires
        c.vc <= data.len(),
        c.lc <= data.len(),
    ensures
        match read_fields(
            scan@,
            data@,
            lay@,
            views(keys@),
            views(dict@),
            query_view(q),
            nf as nat,
            0,
            c@,
            old(row)@,
            false,
        ) {
            Err(k) => r matches Err(e) && kind_of(e) == k,
            Ok((t, c2, mt)) => r matches Ok((c3, m3)) && c3@ == c2 && c3.vc <= data.len() && c3.lc
                <= data.len() && final(row)@ == t && m3 == mt,
        },
{
    let ghost total = read_fields(
        scan@,
        data@,
        lay@,
        views(keys@),
        views(dict@),
        query_view(q),
        nf as nat,
        0,
        c@,
        old(row)@,
        false,
    );
    let mut i: u16 = 0;
    let mut cur = c;
    let mut matched = false;
    while i < nf
        invariant
            cur.vc <= data.len(),
            cur.lc <= data.len(),
            i <= nf,
            read_fields(
                scan@,
                data@,
                lay@,
                views(keys@),
                views(dict@),
                query_view(q),
                nf as nat,
                i as nat,
                cur@,
                row@,
                matched,
            ) == total,
            total == read_fields(
                scan@,
                data@,
                lay@,
                views(keys@),
                views(dict@),
                query_view(q),
                nf as nat,
                0,
                c@,
                old(row)@,
                false,
            ),
        decreases nf - i,
    {
        let ghost acc = row@;
        if i > 0 {
            row.push(0x2c);
            row.push(0x20);
        }
        assert(row@ =~= acc + (if i > 0 {
            seq![0x2cu8, 0x20u8]
        } else {
            Seq::empty()
        }));
        assert(views(keys@).len() == keys@.len() && views(dict@).len() == dict@.len());
        match emit_field(scan, data, lay, keys, dict, &cur, q, row) {
            Err(e) => {
                return Err(e);
            },
            Ok((c2, mt)) => {
                cur = c2;
                matched = matched || mt;
            },
        }
        i = i + 1;
    }
    Ok((cur, matched))
}

/// The rows `r..rows` of a frame, each written as a JSON object on a line of
/// its own after `acc`.
pub open spec fn read_rows(
    scan: Seq<u8>,
    data: Seq<u8>,
    lay: Layout,
    keys: Seq<Seq<u8>>,
    dict: Seq<Seq<u8>>,
    rows: nat,
    r: nat,
    c: Cur,
    acc: Seq<u8>,
) -> Result<Seq<u8>, ErrorKind>
    decreases rows - r,
{
    if r >= rows {
        Ok(acc)
    } else {
        let fo = lay.fpr_off + 2 * r;
        if fo + 2 > scan.len() {
            Err(ErrorKind::Truncated)
        } else {
            match read_fields(
                scan,
                data,
                lay,
                keys,
                dict,
                None,
                le_u16(scan, fo) as nat,
                0,
                c,
                seq![0x7bu8],
                false,
            ) {
                Err(e) => Err(e),
                Ok((t, c2, _)) => read_rows(
                    scan,
                    data,
                    lay,
                    keys,
                    dict,
                    rows,
                    r + 1,
                    c2,
                    acc + t + seq![0x7du8, 0x0au8],
                ),
            }
        }
    }
}

/// The rows `r..rows` of a frame that have a field matching `t`, each as a
/// JSON object and a newline, after `acc`.
pub open spec fn grep_rows(
    scan: Seq<u8>,
    data: Seq<u8>,
    lay: Layout,
    keys: Seq<Seq<u8>>,
    dict: Seq<Seq<u8>>,
    t: Target,
    rows: nat,
    r: nat,
    c: Cur,
    acc: Seq<Seq<u8>>,
) -> Result<Seq<Seq<u8>>, ErrorKind>
    decreases rows - r,
{
    if r >= rows {
        Ok(acc)
    } else {
        let fo = lay.fpr_off + 2 * r;
        if fo + 2 > scan.len() {
            Err(ErrorKind::Truncated)
        } else {
            match read_fields(
                scan,
                data,
                lay,
                keys,
                dict,
                Some(t),
                le_u16(scan, fo) as nat,
                0,
                c,
                seq![0x7bu8],
                false,
            ) {
                Err(e) => Err(e),
                Ok((txt, c2, mt)) => grep_rows(
                    scan,
                    data,
                    lay,
                    keys,
                    dict,
                    t,
                    rows,
                    r + 1,
                    c2,
                    if mt {
                        acc.push(txt + seq![0x7du8, 0x0au8])
                    } else {
                        acc
                    },
                ),
            }
        }
    }
}

/// Writes the `rc` rows of a frame after `out` (see [`read_rows`]); with a
/// query, keeps in `found` the rows that match it instead.
fn emit_rows(
    scan: &[u8],
    data: &[u8],
    lay: &Offsets,
    c0: Cursor,
    rc: u32,
    keys: &Vec<Vec<u8>>,
    dict: &Vec<Vec<u8>>,
    q: Option<&Query>,
    out: &mut Vec<u8>,
    found: &mut Vec<Vec<u8>>,
) -> (r: Result<(), LumpiError>)
    requires
        c0.vc <= data.len(),
        c0.lc <= data.len(),
    ensures
        q is None ==> match read_rows(
            scan@,
            data@,
            lay@,
            views(keys@),
            views(dict@),
            rc as nat,
            0,
            c0@,
            old(out)@,
        ) {
            Err(k) => r matches Err(e) && kind_of(e) == k,
            Ok(t) => r is Ok && final(out)@ == t,
        },
        q matches Some(t) ==> match grep_rows(
            scan@,
            data@,
            lay@,
            views(keys@),
            views(dict@),
            t@,
            rc as nat,
            0,
            c0@,
            views(old(found)@),
        ) {
            Err(k) => r matches Err(e) && kind_of(e) == k,
            Ok(t) => r is Ok && views(final(found)@) == t,
        },
{
    let ghost k = views(keys@);
    let ghost d = views(dict@);
    let mut r: u32 = 0;
    let mut cur = c0;
    while r < rc
        invariant
            cur.vc <= data.len(),
            cur.lc <= data.len(),
            r <= rc,
            k == views(keys@),
            d == views(dict@),
            q is None ==> read_rows(scan@, data@, lay@, k, d, rc as nat, r as nat, cur@, out@)
                == read_rows(scan@, data@, lay@, k, d, rc as nat, 0, c0@, old(out)@),
            q matches Some(t) ==> grep_rows(
                scan@,
                data@,
                lay@,
                k,
                d,
                t@,
                rc as nat,
                r as nat,
                cur@,
                views(found@),
            ) == grep_rows(scan@, data@, lay@, k, d, t@, rc as nat, 0, c0@, views(old(found)@)),
        decreases rc - r,
    {
        let fo_wide = 2 * (r as u128) + lay.fpr_off as u128;
        if fo_wide + 2 > scan.len() as u128 {
            return Err(LumpiError::Truncated);
        }
        let nf = read_u16_at(scan, fo_wide as usize);
        let mut row: Vec<u8> = Vec::new();
        row.push(0x7b);
        assert(row@ =~= seq![0x7bu8]);
        match emit_fields(scan, data, lay, keys, dict, q, nf, cur, &mut row) {
            Err(e) => {
                return Err(e);
            },
            Ok((c2, mt)) => {
                let ghost t = row@;
                row.push(0x7d);
                row.push(0x0a);
                assert(row@ =~= t + seq![0x7du8, 0x0au8]);
                match q {
                    None => {
                        let ghost o = out@;
                        append_bytes(out, row.as_slice());
                        assert(out@ =~= o + t + seq![0x7du8, 0x0au8]);
                    },
                    Some(_) => {
                        if mt {
                            let ghost f0 = views(found@);
                            found.push(row);
                            assert(views(found@) =~= f0.push(t + seq![0x7du8, 0x0au8]));
                        }
                    },
                }
                cur = c2;
            },
        }
        r = r + 1;
    }
    Ok(())
}

/// The scan block holds its two counts, and the offsets they give fit in a
/// `usize`.
pub open spec fn offsets_fit(scan: Seq<u8>) -> bool {
    scan.len() >= 8 && 8 + 3 * le_u32(scan, 0) + 4 * le_u32(scan, 4) <= usize::MAX
}

/// Where the literal lengths and the literal bytes of a data block begin;
/// `None` where its three counts do not fit in it.
pub open spec fn data_layout(data: Seq<u8>) -> Option<(int, int)> {
    if data.len() < 4 {
        None
    } else {
        let d = 4 + le_u32(data, 0) as int;
        if d + 4 > data.len() {
            None
        } else {
            let d2 = d + 4 + 2 * le_u32(data, d) as int;
            if d2 + 4 > data.len() {
                None
            } else {
                Some((d + 4, d2 + 4))
            }
        }
    }
}

/// The layout of a frame whose scan block is `scan` and whose literal lengths
/// begin at `lens_off`.
pub open spec fn layout_of(scan: Seq<u8>, lens_off: int) -> Layout {
    let tf = le_u32(scan, 0) as int;
    let sc = le_u32(scan, 4) as int;
    Layout {
        keys_off: 8,
        types_off: 8 + 2 * tf,
        sids_off: 8 + 3 * tf,
        fpr_off: 8 + 3 * tf + 4 * sc,
        lens_off: lens_off,
    }
}

/// The cursor of the first field of a frame whose literal bytes begin at
/// `lits_off`.
pub open spec fn first_cursor(lits_off: int) -> Cur {
    Cur { kc: 0, sc: 0, vc: 4, llc: 0, lc: lits_off }
}

/// The `rc` rows of a frame written after `acc`.
pub open spec fn frame_text(
    scan: Seq<u8>,
    data: Seq<u8>,
    rc: nat,
    keys: Seq<Seq<u8>>,
    dict: Seq<Seq<u8>>,
    acc: Seq<u8>,
) -> Result<Seq<u8>, ErrorKind> {
    if !offsets_fit(scan) {
        Err(ErrorKind::Truncated)
    } else {
        match data_layout(data) {
            None => Err(ErrorKind::Truncated),
            Some((lo, lits)) => read_rows(
                scan,
                data,
                layout_of(scan, lo),
                keys,
                dict,
                rc,
                0,
                first_cursor(lits),
                acc,
            ),
        }
    }
}

/// The `k` frames of an archive from `pos` on, written after `acc`.
pub open spec fn read_frames(
    p: Seq<u8>,
    pos: int,
    k: nat,
    keys: Seq<Seq<u8>>,
    dict: Seq<Seq<u8>>,
    acc: Seq<u8>,
) -> Result<Seq<u8>, ErrorKind>
    decreases k,
{
    if k == 0 {
        Ok(acc)
    } else if pos + 8 > p.len() {
        Err(ErrorKind::Truncated)
    } else {
        let s1 = pos + 8 + le_u32(p, pos + 4) as int;
        if s1 > p.len() {
            Err(ErrorKind::Truncated)
        } else {
            match zstd_decoded(p.subrange(pos + 8, s1)) {
                None => Err(ErrorKind::Zstd),
                Some(scan) => if s1 + 4 > p.len() {
                    Err(ErrorKind::Truncated)
                } else {
                    let d1 = s1 + 4 + le_u32(p, s1) as int;
                    if d1 > p.len() {
                        Err(ErrorKind::Truncated)
                    } else {
                        match zstd_decoded(p.subrange(s1 + 4, d1)) {
                            None => Err(ErrorKind::Zstd),
                            Some(data) => match frame_text(
                                scan,
                                data,
                                le_u32(p, pos) as nat,
                                keys,
                                dict,
                                acc,
                            ) {
                                Err(e) => Err(e),
                                Ok(acc2) => read_frames(p, d1, (k - 1) as nat, keys, dict, acc2),
                            },
                        }
                    }
                },
            }
        }
    }
}

/// The four bytes `LUMP`.
pub open spec fn magic() -> Seq<u8> {
    seq![0x4cu8, 0x55u8, 0x4du8, 0x50u8]
}

/// What is wrong with an archive's first ten bytes, if anything: too short
/// for the header, another magic, another major version, or no room for the
/// first length.
pub open spec fn header_fault(p: Seq<u8>) -> Option<ErrorKind> {
    if p.len() < 6 {
        Some(ErrorKind::FileTooSmall)
    } else if p.subrange(0, 4) != magic() {
        Some(ErrorKind::NotLumpFile)
    } else if p[4] != VERSION_MAJOR {
        Some(ErrorKind::UnsupportedVersion(p[4], p[5]))
    } else if p.len() < 10 {
        Some(ErrorKind::Truncated)
    } else {
        None
    }
}

/// The text of a raw archive: the frame after the stored hash decompressed,
/// if the hash is UTF-8 and that of the text.
pub open spec fn raw_text(p: Seq<u8>) -> Result<Seq<u8>, ErrorKind> {
    if p.len() < 74 {
        Err(ErrorKind::Truncated)
    } else if !vstd::utf8::valid_utf8(p.subrange(10, 74)) {
        Err(ErrorKind::InvalidHash)
    } else {
        match zstd_decoded(p.subrange(74, p.len() as int)) {
            None => Err(ErrorKind::Zstd),
            Some(raw) => if raw_hash(raw) != p.subrange(10, 74) {
                Err(ErrorKind::IntegrityCheckFailed)
            } else {
                Ok(raw)
            },
        }
    }
}

/// The keys of a columnar archive's schema block, after the length at 6.
pub open spec fn archive_schema(p: Seq<u8>, key: Seq<u8>) -> Result<(Seq<Seq<u8>>, Option<u16>, int), ErrorKind> {
    let s1 = 10 + le_u32(p, 6) as int;
    if s1 > p.len() {
        Err(ErrorKind::Truncated)
    } else {
        match zstd_decoded(p.subrange(10, s1)) {
            None => Err(ErrorKind::Zstd),
            Some(sb) => match schema_read(sb, key) {
                None => Err(ErrorKind::Truncated),
                Some((keys, target)) => Ok((keys, target, s1)),
            },
        }
    }
}

/// The strings of a columnar archive's dictionary block at `s1`, and where
/// the frame count stands.
pub open spec fn archive_dict(p: Seq<u8>, s1: int) -> Result<(Seq<Seq<u8>>, int), ErrorKind> {
    if s1 + 4 > p.len() {
        Err(ErrorKind::Truncated)
    } else {
        let d1 = s1 + 4 + le_u32(p, s1) as int;
        if d1 > p.len() {
            Err(ErrorKind::Truncated)
        } else {
            match zstd_decoded(p.subrange(s1 + 4, d1)) {
                None => Err(ErrorKind::Zstd),
                Some(db) => match dict_read(db) {
                    None => Err(ErrorKind::Truncated),
                    Some(dict) => if d1 + 4 > p.len() {
                        Err(ErrorKind::Truncated)
                    } else {
                        Ok((dict, d1))
                    },
                },
            }
        }
    }
}

/// What unpacking an archive gives: the packed text of a raw archive, or
/// the rows of a columnar one as JSON lines.
pub open spec fn unpacked(p: Seq<u8>) -> Result<Seq<u8>, ErrorKind> {
    match header_fault(p) {
        Some(k) => Err(k),
        None => if le_u32(p, 6) == RAW_MARK {
            raw_text(p)
        } else {
            match archive_schema(p, Seq::empty()) {
                Err(k) => Err(k),
                Ok((keys, _, s1)) => match archive_dict(p, s1) {
                    Err(k) => Err(k),
                    Ok((dict, d1)) => read_frames(p, d1 + 4, le_u32(p, d1) as nat, keys, dict, Seq::empty()),
                },
            }
        },
    }
}

/// The counts of a scan block and the offsets of its parts: field count,
/// string count, and where the key ids, types, string ids and row lengths
/// begin.
pub fn parse_scan_offsets(scan_raw: &[u8]) -> (r: (usize, usize, usize, usize, usize, usize))
    requires
        offsets_fit(scan_raw@),
    ensures
        r.0 == le_u32(scan_raw@, 0),
        r.1 == le_u32(scan_raw@, 4),
        r.2 == 8,
        r.3 == 8 + 2 * r.0,
        r.4 == r.3 + r.0,
        r.5 == r.4 + 4 * r.1,
{
    let total_fields = read_u32_at(scan_raw, 0) as usize;
    let string_count = read_u32_at(scan_raw, 4) as usize;
    let key_ids_off: usize = 8;
    let types_off = key_ids_off + total_fields * 2;
    let sids_off = types_off + total_fields;
    let fpr_off = sids_off + string_count * 4;
    (total_fields, string_count, key_ids_off, types_off, sids_off, fpr_off)
}

/// Whether the offsets of `scan` fit (see [`offsets_fit`]).
fn offsets_fit_exec(scan: &[u8]) -> (r: bool)
    ensures
        r == offsets_fit(scan@),
{
    if scan.len() < 8 {
        return false;
    }
    let tf = read_u32_at(scan, 0) as u128;
    let sc = read_u32_at(scan, 4) as u128;
    8 + 3 * tf + 4 * sc <= usize::MAX as u128
}

/// Where a data block's literal lengths and bytes begin (see [`data_layout`]).
fn data_offsets(data: &[u8]) -> (r: Option<(usize, usize)>)
    ensures
        match data_layout(data@) {
            None => r is None,
            Some((a, b)) => r matches Some((x, y)) && x == a && y == b && y <= data.len(),
        },
{
    if data.len() < 4 {
        return None;
    }
    let d = 4 + read_u32_at(data, 0) as u128;
    if d + 4 > data.len() as u128 {
        return None;
    }
    let d2 = d + 4 + 2 * (read_u32_at(data, d as usize) as u128);
    if d2 + 4 > data.len() as u128 {
        return None;
    }
    Some(((d + 4) as usize, (d2 + 4) as usize))
}

/// The offsets of a frame from its scan block and the literal lengths' offset.
fn frame_offsets(scan: &[u8], lens_off: usize) -> (r: Offsets)
    requires
        offsets_fit(scan@),
    ensures
        r@ == layout_of(scan@, lens_off as int),
{
    let (_tf, _sc, keys_off, types_off, sids_off, fpr_off) = parse_scan_offsets(scan);
    Offsets { keys_off, types_off, sids_off, fpr_off, lens_off }
}

/// Writes the `rc` rows of a frame after `out` (see [`frame_text`]).
fn emit_frame(
    scan: &[u8],
    data: &[u8],
    rc: u32,
    keys: &Vec<Vec<u8>>,
    dict: &Vec<Vec<u8>>,
    out: &mut Vec<u8>,
) -> (r: Result<(), LumpiError>)
    ensures
        match frame_text(scan@, data@, rc as nat, views(keys@), views(dict@), old(out)@) {
            Err(k) => r matches Err(e) && kind_of(e) == k,
            Ok(t) => r is Ok && final(out)@ == t,
        },
{
    if !offsets_fit_exec(scan) {
        return Err(LumpiError::Truncated);
    }
    let (lo, lits) = match data_offsets(data) {
        Some(t) => t,
        None => {
            return Err(LumpiError::Truncated);
        },
    };
    let lay = frame_offsets(scan, lo);
    let c0 = Cursor { kc: 0, sc: 0, vc: 4, llc: 0, lc: lits };
    let mut unused: Vec<Vec<u8>> = Vec::new();
    emit_rows(scan, data, &lay, c0, rc, keys, dict, None, out, &mut unused)
}

/// Writes the `k` frames from `pos` on after `out` (see [`read_frames`]).
fn emit_frames(
    p: &[u8],
    pos: usize,
    k: u32,
    keys: &Vec<Vec<u8>>,
    dict: &Vec<Vec<u8>>,
    out: &mut Vec<u8>,
) -> (r: Result<(), LumpiError>)
    requires
        pos <= p.len(),
    ensures
        match read_frames(p@, pos as int, k as nat, views(keys@), views(dict@), old(out)@) {
            Err(e) => r matches Err(x) && kind_of(x) == e,
            Ok(t) => r is Ok && final(out)@ == t,
        },
{
    let mut cur = pos;
    let mut left = k;
    while left > 0
        invariant
            cur <= p.len(),
            read_frames(p@, cur as int, left as nat, views(keys@), views(dict@), out@) == read_frames(
                p@,
                pos as int,
                k as nat,
                views(keys@),
                views(dict@),
                old(out)@,
            ),
        decreases left,
    {
        if p.len() - cur < 8 {
            return Err(LumpiError::Truncated);
        }
        let rc = read_u32_at(p, cur);
        let ss = read_u32_at(p, cur + 4) as usize;
        if ss > p.len() - cur - 8 {
            return Err(LumpiError::Truncated);
        }
        let s1 = cur + 8 + ss;
        let scan = match zstd_decode_all(&p[cur + 8..s1]) {
            Ok(v) => v,
            Err(e) => {
                return Err(LumpiError::Zstd(e));
            },
        };
        if p.len() - s1 < 4 {
            return Err(LumpiError::Truncated);
        }
        let ds = read_u32_at(p, s1) as usize;
        if ds > p.len() - s1 - 4 {
            return Err(LumpiError::Truncated);
        }
        let d1 = s1 + 4 + ds;
        let data = match zstd_decode_all(&p[s1 + 4..d1]) {
            Ok(v) => v,
            Err(e) => {
                return Err(LumpiError::Zstd(e));
            },
        };
        match emit_frame(scan.as_slice(), data.as_slice(), rc, keys, dict, out) {
            Err(e) => {
                return Err(e);
            },
            Ok(()) => {},
        }
        cur = d1;
        left = left - 1;
    }
    Ok(())
}

/// Checks the header (see [`header_fault`]).
fn check_header(p: &[u8]) -> (r: Result<(), LumpiError>)
    ensures
        match header_fault(p@) {
            Some(k) => r matches Err(e) && kind_of(e) == k,
            None => r is Ok && p.len() >= 10,
        },
{
    if p.len() < 6 {
        return Err(LumpiError::FileTooSmall);
    }
    if p[0] != 0x4c || p[1] != 0x55 || p[2] != 0x4d || p[3] != 0x50 {
        assert(p@.subrange(0, 4) != magic()) by {
            if p@.subrange(0, 4) == magic() {
                assert(p@.subrange(0, 4)[0] == p@[0]);
                assert(p@.subrange(0, 4)[1] == p@[1]);
                assert(p@.subrange(0, 4)[2] == p@[2]);
                assert(p@.subrange(0, 4)[3] == p@[3]);
            }
        }
        return Err(LumpiError::NotLumpFile);
    }
    assert(p@.subrange(0, 4) =~= magic());
    if p[4] != VERSION_MAJOR {
        return Err(LumpiError::UnsupportedVersion(p[4], p[5]));
    }
    if p.len() < 10 {
        return Err(LumpiError::Truncated);
    }
    Ok(())
}

/// The text of a raw archive (see [`raw_text`]).
fn read_raw(p: &[u8]) -> (r: Result<Vec<u8>, LumpiError>)
    requires
        p.len() >= 10,
    ensures
        match raw_text(p@) {
            Err(k) => r matches Err(e) && kind_of(e) == k,
            Ok(t) => r matches Ok(v) && v@ == t,
        },
{
    if p.len() < 74 {
        return Err(LumpiError::Truncated);
    }
    let stored = &p[10..74];
    if !utf8_check(stored) {
        return Err(LumpiError::InvalidHash);
    }
    let raw = match zstd_decode_all(&p[74..p.len()]) {
        Ok(v) => v,
        Err(e) => {
            return Err(LumpiError::Zstd(e));
        },
    };
    let h = sha256_hex(raw.as_slice());
    proof {
        lemma_hex_lower(sha256_of(raw@));
    }
    let hb = ascii_bytes(&h, Ghost(raw_hash(raw@)));
    if !bytes_eq(hb.as_slice(), stored) {
        return Err(LumpiError::IntegrityCheckFailed);
    }
    Ok(raw)
}

/// The keys of a columnar archive (see [`archive_schema`]).
fn read_archive_schema(p: &[u8], key: &[u8]) -> (r: Result<(Vec<Vec<u8>>, Option<u16>, usize), LumpiError>)
    requires
        p.len() >= 10,
    ensures
        match archive_schema(p@, key@) {
            Err(k) => r matches Err(e) && kind_of(e) == k,
            Ok((keys, t, s1)) => r matches Ok((v, t2, s2)) && views(v@) == keys && t2 == t && s2 == s1
                && s2 <= p.len(),
        },
{
    let ss = read_u32_at(p, 6) as usize;
    if ss > p.len() - 10 {
        return Err(LumpiError::Truncated);
    }
    let s1 = 10 + ss;
    let sb = match zstd_decode_all(&p[10..s1]) {
        Ok(v) => v,
        Err(e) => {
            return Err(LumpiError::Zstd(e));
        },
    };
    match read_schema(sb.as_slice(), key) {
        None => Err(LumpiError::Truncated),
        Some((keys, target)) => Ok((keys, target, s1)),
    }
}

/// The strings of a columnar archive (see [`archive_dict`]).
fn read_archive_dict(p: &[u8], s1: usize) -> (r: Result<(Vec<Vec<u8>>, usize), LumpiError>)
    requires
        s1 <= p.len(),
    ensures
        match archive_dict(p@, s1 as int) {
            Err(k) => r matches Err(e) && kind_of(e) == k,
            Ok((dict, d1)) => r matches Ok((v, d2)) && views(v@) == dict && d2 == d1 && d2 + 4 <= p.len(),
        },
{
    if p.len() - s1 < 4 {
        return Err(LumpiError::Truncated);
    }
    let ds = read_u32_at(p, s1) as usize;
    if ds > p.len() - s1 - 4 {
        return Err(LumpiError::Truncated);
    }
    let d1 = s1 + 4 + ds;
    let db = match zstd_decode_all(&p[s1 + 4..d1]) {
        Ok(v) => v,
        Err(e) => {
            return Err(LumpiError::Zstd(e));
        },
    };
    match read_dict(db.as_slice()) {
        None => Err(LumpiError::Truncated),
        Some(dict) => if p.len() - d1 < 4 {
            Err(LumpiError::Truncated)
        } else {
            Ok((dict, d1))
        },
    }
}

impl LumpiEngine {
    /// Unpacks an archive: the packed text of a raw archive, after its
    /// SHA-256 is checked; or each row of a columnar one as a JSON object on
    /// a line of its own (see [`unpacked`]).
    pub fn decompress_buffer(payload: &[u8]) -> (r: Result<Vec<u8>, LumpiError>)
        ensures
            match unpacked(payload@) {
                Err(k) => r matches Err(e) && kind_of(e) == k,
                Ok(t) => r matches Ok(v) && v@ == t,
            },
    {
        match check_header(payload) {
            Err(e) => {
                return Err(e);
            },
            Ok(()) => {},
        }
        let first = read_u32_at(payload, 6);
        if first == RAW_MARK {
            return read_raw(payload);
        }
        let no_key: Vec<u8> = Vec::new();
        assert(no_key@ =~= Seq::<u8>::empty());
        let (keys, _, s1) = match read_archive_schema(payload, no_key.as_slice()) {
            Ok(t) => t,
            Err(e) => {
                return Err(e);
            },
        };
        let (dict, d1) = match read_archive_dict(payload, s1) {
            Ok(t) => t,
            Err(e) => {
                return Err(e);
            },
        };
        let fc = read_u32_at(payload, d1);
        let mut out: Vec<u8> = Vec::new();
        match emit_frames(payload, d1 + 4, fc, &keys, &dict, &mut out) {
            Ok(()) => Ok(out),
            Err(e) => Err(e),
        }
    }
}

/// Whether one of the key ids of fields `i..tf` of a scan block is `tk`;
/// `None` where one read lies past the block.
pub open spec fn key_in_frame(scan: Seq<u8>, tf: nat, tk: u16, i: nat) -> Option<bool>
    decreases tf - i,
{
    if i >= tf {
        Some(false)
    } else if 8 + 2 * i + 2 > scan.len() {
        None
    } else if le_u16(scan, (8 + 2 * i) as int) == tk {
        Some(true)
    } else {
        key_in_frame(scan, tf, tk, i + 1)
    }
}

/// Whether among fields `i..tf` of a scan block (key ids at `ko`, types at
/// `to`, string ids at `so`, `sc` string ids having come before field `i`)
/// there is a string field of key `tk` with dictionary id `td`; `None` where
/// one read lies past the block. A string id is read only for a field of key
/// `tk`.
pub open spec fn string_match_from(
    scan: Seq<u8>,
    tf: nat,
    ko: int,
    to: int,
    so: int,
    tk: u16,
    td: u32,
    i: nat,
    sc: int,
) -> Option<bool>
    decreases tf - i,
{
    if i >= tf {
        Some(false)
    } else if ko + 2 * i + 2 > scan.len() || to + i >= scan.len() {
        None
    } else if scan[to + i] == TYPE_STRING {
        if le_u16(scan, ko + 2 * i) == tk {
            if so + 4 * sc + 4 > scan.len() {
                None
            } else if le_u32(scan, so + 4 * sc) == td {
                Some(true)
            } else {
                string_match_from(scan, tf, ko, to, so, tk, td, i + 1, sc + 1)
            }
        } else {
            string_match_from(scan, tf, ko, to, so, tk, td, i + 1, sc + 1)
        }
    } else {
        string_match_from(scan, tf, ko, to, so, tk, td, i + 1, sc)
    }
}

/// Whether among fields `i..tf` of a scan block (laid out as for
/// [`string_match_from`]) there is a field of key `tk` that can hold the
/// dictionary string of id `td`: a string field of that key with that id, or
/// a field of that key that is not a dictionary string (its value lies in the
/// data block). `None` where one read lies past the block.
pub open spec fn candidate_from(
    scan: Seq<u8>,
    tf: nat,
    ko: int,
    to: int,
    so: int,
    tk: u16,
    td: u32,
    i: nat,
    sc: int,
) -> Option<bool>
    decreases tf - i,
{
    if i >= tf {
        Some(false)
    } else if ko + 2 * i + 2 > scan.len() || to + i >= scan.len() {
        None
    } else if scan[to + i] == TYPE_STRING {
        if le_u16(scan, ko + 2 * i) == tk {
            if so + 4 * sc + 4 > scan.len() {
                None
            } else if le_u32(scan, so + 4 * sc) == td {
                Some(true)
            } else {
                candidate_from(scan, tf, ko, to, so, tk, td, i + 1, sc + 1)
            }
        } else {
            candidate_from(scan, tf, ko, to, so, tk, td, i + 1, sc + 1)
        }
    } else if le_u16(scan, ko + 2 * i) == tk {
        Some(true)
    } else {
        candidate_from(scan, tf, ko, to, so, tk, td, i + 1, sc)
    }
}

/// The first id of `d` at or after `i` whose string is `v`.
pub open spec fn first_index(d: Seq<Seq<u8>>, v: Seq<u8>, i: int) -> Option<u32>
    decreases d.len() - i,
{
    if i < 0 || i >= d.len() {
        None
    } else if d[i] == v {
        Some(i as u32)
    } else {
        first_index(d, v, i + 1)
    }
}

/// Whether a frame's rows are to be read for `t`, from its scan block alone:
/// a field of the target key must be among them, and, when the value is a
/// dictionary string, a field of that key that can hold it (see
/// [`candidate_from`]). `None` where a read lies past the block.
pub open spec fn frame_wanted(scan: Seq<u8>, t: Target) -> Option<bool> {
    let tf = le_u32(scan, 0) as nat;
    let lay0 = layout_of(scan, 0);
    match key_in_frame(scan, tf, t.key, 0) {
        None => None,
        Some(false) => Some(false),
        Some(true) => match t.dict_id {
            None => Some(true),
            Some(td) => candidate_from(scan, tf, 8, lay0.types_off, lay0.sids_off, t.key, td, 0, 0),
        },
    }
}

/// The matching rows of the `k` frames from `pos` on, after `acc`. A frame
/// whose scan block shows that none of its fields can match (see
/// [`frame_wanted`]) is skipped without its data block being read.
pub open spec fn grep_frames(
    p: Seq<u8>,
    pos: int,
    k: nat,
    keys: Seq<Seq<u8>>,
    dict: Seq<Seq<u8>>,
    t: Target,
    acc: Seq<Seq<u8>>,
) -> Result<Seq<Seq<u8>>, ErrorKind>
    decreases k,
{
    if k == 0 {
        Ok(acc)
    } else if pos + 8 > p.len() {
        Err(ErrorKind::Truncated)
    } else {
        let s1 = pos + 8 + le_u32(p, pos + 4) as int;
        if s1 > p.len() {
            Err(ErrorKind::Truncated)
        } else {
            match zstd_decoded(p.subrange(pos + 8, s1)) {
                None => Err(ErrorKind::Zstd),
                Some(scan) => if s1 + 4 > p.len() {
                    Err(ErrorKind::Truncated)
                } else {
                    let d1 = s1 + 4 + le_u32(p, s1) as int;
                    if !offsets_fit(scan) {
                        Err(ErrorKind::Truncated)
                    } else {
                        match frame_wanted(scan, t) {
                            None => Err(ErrorKind::Truncated),
                            Some(false) => grep_frames(p, d1, (k - 1) as nat, keys, dict, t, acc),
                            Some(true) => if d1 > p.len() {
                                Err(ErrorKind::Truncated)
                            } else {
                                match zstd_decoded(p.subrange(s1 + 4, d1)) {
                                    None => Err(ErrorKind::Zstd),
                                    Some(data) => match data_layout(data) {
                                        None => Err(ErrorKind::Truncated),
                                        Some((lo, lits)) => match grep_rows(
                                            scan,
                                            data,
                                            layout_of(scan, lo),
                                            keys,
                                            dict,
                                            t,
                                            le_u32(p, pos) as nat,
                                            0,
                                            first_cursor(lits),
                                            acc,
                                        ) {
                                            Err(e) => Err(e),
                                            Ok(acc2) => grep_frames(
                                                p,
                                                d1,
                                                (k - 1) as nat,
                                                keys,
                                                dict,
                                                t,
                                                acc2,
                                            ),
                                        },
                                    },
                                }
                            },
                        }
                    }
                },
            }
        }
    }
}

/// The lines of raw text from `i` on (split at newlines) that are not empty
/// and carry `key` with `value`, each with a newline, after `acc`.
pub open spec fn raw_grep(s: Seq<u8>, key: Seq<u8>, value: Seq<u8>, i: int, acc: Seq<Seq<u8>>) -> Seq<
    Seq<u8>,
>
    decreases s.len() + 1 - i,
{
    if i < 0 || i > s.len() {
        acc
    } else {
        let e = match find_from(s, 0x0a, i) {
            Some(q) => q,
            None => s.len() as int,
        };
        let line = s.subrange(i, e);
        let acc2 = if line.len() > 0 && raw_line_matches_spec(line, key, value) {
            acc.push(line.push(0x0a))
        } else {
            acc
        };
        if e < s.len() {
            proof {
                lemma_find_from(s, 0x0a, i);
            }
            raw_grep(s, key, value, e + 1, acc2)
        } else {
            acc2
        }
    }
}

/// What searching an archive for `key` = `value` gives: the matching lines of
/// a raw archive, or the matching rows of a columnar one as JSON lines (none
/// when the schema has no such key).
pub open spec fn grepped(p: Seq<u8>, key: Seq<u8>, value: Seq<u8>) -> Result<Seq<Seq<u8>>, ErrorKind> {
    match header_fault(p) {
        Some(k) => Err(k),
        None => if le_u32(p, 6) == RAW_MARK {
            match raw_text(p) {
                Err(k) => Err(k),
                Ok(raw) => Ok(raw_grep(raw, key, value, 0, Seq::empty())),
            }
        } else {
            match archive_schema(p, key) {
                Err(k) => Err(k),
                Ok((keys, target, s1)) => match target {
                    None => Ok(Seq::empty()),
                    Some(tk) => match archive_dict(p, s1) {
                        Err(k) => Err(k),
                        Ok((dict, d1)) => grep_frames(
                            p,
                            d1 + 4,
                            le_u32(p, d1) as nat,
                            keys,
                            dict,
                            Target {
                                key: tk,
                                dict_id: first_index(dict, value, 0),
                                int: parse_i64_spec(value),
                                value: value,
                            },
                            Seq::empty(),
                        ),
                    },
                },
            }
        },
    }
}

/// Whether a field of key `tk` stands among the first `tf` key ids (see
/// [`key_in_frame`]).
fn frame_has_key(scan: &[u8], tf: usize, tk: u16) -> (r: Option<bool>)
    ensures
        r == key_in_frame(scan@, tf as nat, tk, 0),
{
    let mut i: usize = 0;
    while i < tf
        invariant
            i <= tf,
            key_in_frame(scan@, tf as nat, tk, i as nat) == key_in_frame(scan@, tf as nat, tk, 0),
        decreases tf - i,
    {
        let o = 8 + 2 * (i as u128);
        if o + 2 > scan.len() as u128 {
            return None;
        }
        if read_u16_at(scan, o as usize) == tk {
            return Some(true);
        }
        i = i + 1;
    }
    Some(false)
}

/// Whether a string field of key `tk` with dictionary id `td` stands among
/// the `tf` fields of a scan block (see [`string_match_from`]).
fn string_match(
    scan: &[u8],
    tf: usize,
    ko: usize,
    to: usize,
    so: usize,
    tk: u16,
    td: u32,
) -> (r: Option<bool>)
    ensures
        r == string_match_from(scan@, tf as nat, ko as int, to as int, so as int, tk, td, 0, 0),
{
    let mut i: usize = 0;
    let mut sc: usize = 0;
    while i < tf
        invariant
            i <= tf,
            sc <= i,
            string_match_from(scan@, tf as nat, ko as int, to as int, so as int, tk, td, i as nat, sc as int)
                == string_match_from(scan@, tf as nat, ko as int, to as int, so as int, tk, td, 0, 0),
        decreases tf - i,
    {
        let ki = ko as u128 + 2 * (i as u128);
        let ti = to as u128 + i as u128;
        if ki + 2 > scan.len() as u128 || ti >= scan.len() as u128 {
            return None;
        }
        if scan[ti as usize] == TYPE_STRING {
            if read_u16_at(scan, ki as usize) == tk {
                let si = so as u128 + 4 * (sc as u128);
                if si + 4 > scan.len() as u128 {
                    return None;
                }
                if read_u32_at(scan, si as usize) == td {
                    return Some(true);
                }
            }
            sc = sc + 1;
        }
        i = i + 1;
    }
    Some(false)
}

/// Whether a field of key `tk` that can hold the dictionary string `td`
/// stands among the `tf` fields of a scan block (see [`candidate_from`]).
fn candidate(
    scan: &[u8],
    tf: usize,
    ko: usize,
    to: usize,
    so: usize,
    tk: u16,
    td: u32,
) -> (r: Option<bool>)
    ensures
        r == candidate_from(scan@, tf as nat, ko as int, to as int, so as int, tk, td, 0, 0),
{
    let mut i: usize = 0;
    let mut sc: usize = 0;
    while i < tf
        invariant
            i <= tf,
            sc <= i,
            candidate_from(scan@, tf as nat, ko as int, to as int, so as int, tk, td, i as nat, sc as int)
                == candidate_from(scan@, tf as nat, ko as int, to as int, so as int, tk, td, 0, 0),
        decreases tf - i,
    {
        let ki = ko as u128 + 2 * (i as u128);
        let ti = to as u128 + i as u128;
        if ki + 2 > scan.len() as u128 || ti >= scan.len() as u128 {
            return None;
        }
        let is_key = read_u16_at(scan, ki as usize) == tk;
        if scan[ti as usize] == TYPE_STRING {
            if is_key {
                let si = so as u128 + 4 * (sc as u128);
                if si + 4 > scan.len() as u128 {
                    return None;
                }
                if read_u32_at(scan, si as usize) == td {
                    return Some(true);
                }
            }
            sc = sc + 1;
        } else if is_key {
            return Some(true);
        }
        i = i + 1;
    }
    Some(false)
}

/// Whether the scan block has a string field of key `target_key_id` with
/// dictionary id `target_dict_id` (see [`string_match_from`]).
pub fn frame_has_string_match(
    scan_raw: &[u8],
    total_fields: usize,
    key_ids_off: usize,
    types_off: usize,
    sids_off: usize,
    target_key_id: u16,
    target_dict_id: u32,
) -> (r: bool)
    requires
        string_match_from(
            scan_raw@,
            total_fields as nat,
            key_ids_off as int,
            types_off as int,
            sids_off as int,
            target_key_id,
            target_dict_id,
            0,
            0,
        ) is Some,
    ensures
        Some(r) == string_match_from(
            scan_raw@,
            total_fields as nat,
            key_ids_off as int,
            types_off as int,
            sids_off as int,
            target_key_id,
            target_dict_id,
            0,
            0,
        ),
{
    match string_match(scan_raw, total_fields, key_ids_off, types_off, sids_off, target_key_id, target_dict_id) {
        Some(b) => b,
        None => false,
    }
}

/// The first id of `d` whose string is `v` (see [`first_index`]).
fn first_index_exec(d: &Vec<Vec<u8>>, v: &[u8]) -> (r: Option<u32>)
    ensures
        r == first_index(views(d@), v@, 0),
{
    let mut i: usize = 0;
    while i < d.len()
        invariant
            i <= d@.len(),
            first_index(views(d@), v@, i as int) == first_index(views(d@), v@, 0),
        decreases d.len() - i,
    {
        if bytes_eq(d[i].as_slice(), v) {
            return Some(i as u32);
        }
        i = i + 1;
    }
    None
}

/// Keeps in `found` the matching rows of the `k` frames from `pos` on (see
/// [`grep_frames`]).
fn grep_frames_exec(
    p: &[u8],
    pos: usize,
    k: u32,
    keys: &Vec<Vec<u8>>,
    dict: &Vec<Vec<u8>>,
    q: &Query,
    found: &mut Vec<Vec<u8>>,
) -> (r: Result<(), LumpiError>)
    requires
        pos <= p.len(),
    ensures
        match grep_frames(p@, pos as int, k as nat, views(keys@), views(dict@), q@, views(old(found)@)) {
            Err(e) => r matches Err(x) && kind_of(x) == e,
            Ok(t) => r is Ok && views(final(found)@) == t,
        },
{
    let mut cur: u128 = pos as u128;
    let mut left = k;
    while left > 0
        invariant
            cur <= p.len() as u128 + 0x2_0000_0000,
            grep_frames(p@, cur as int, left as nat, views(keys@), views(dict@), q@, views(found@))
                == grep_frames(p@, pos as int, k as nat, views(keys@), views(dict@), q@, views(old(found)@)),
        decreases left,
    {
        if cur + 8 > p.len() as u128 {
            return Err(LumpiError::Truncated);
        }
        let c = cur as usize;
        let rc = read_u32_at(p, c);
        let ss = read_u32_at(p, c + 4) as usize;
        if ss > p.len() - c - 8 {
            return Err(LumpiError::Truncated);
        }
        let s1 = c + 8 + ss;
        let scan = match zstd_decode_all(&p[c + 8..s1]) {
            Ok(v) => v,
            Err(e) => {
                return Err(LumpiError::Zstd(e));
            },
        };
        if p.len() - s1 < 4 {
            return Err(LumpiError::Truncated);
        }
        let d1 = s1 as u128 + 4 + read_u32_at(p, s1) as u128;
        if !offsets_fit_exec(scan.as_slice()) {
            return Err(LumpiError::Truncated);
        }
        let (tf, _sc, ko, to, so, _fpr) = parse_scan_offsets(scan.as_slice());
        let wanted = match frame_has_key(scan.as_slice(), tf, q.key) {
            None => None,
            Some(false) => Some(false),
            Some(true) => match q.dict_id {
                None => Some(true),
                Some(td) => candidate(scan.as_slice(), tf, ko, to, so, q.key, td),
            },
        };
        match wanted {
            None => {
                return Err(LumpiError::Truncated);
            },
            Some(false) => {},
            Some(true) => {
                if d1 > p.len() as u128 {
                    return Err(LumpiError::Truncated);
                }
                let data = match zstd_decode_all(&p[s1 + 4..d1 as usize]) {
                    Ok(v) => v,
                    Err(e) => {
                        return Err(LumpiError::Zstd(e));
                    },
                };
                let (lo, lits) = match data_offsets(data.as_slice()) {
                    Some(t) => t,
                    None => {
                        return Err(LumpiError::Truncated);
                    },
                };
                let lay = frame_offsets(scan.as_slice(), lo);
                let c0 = Cursor { kc: 0, sc: 0, vc: 4, llc: 0, lc: lits };
                let mut unused: Vec<u8> = Vec::new();
                match emit_rows(
                    scan.as_slice(),
                    data.as_slice(),
                    &lay,
                    c0,
                    rc,
                    keys,
                    dict,
                    Some(q),
                    &mut unused,
                    found,
                ) {
                    Err(e) => {
                        return Err(e);
                    },
                    Ok(()) => {},
                }
            },
        }
        cur = d1;
        left = left - 1;
    }
    Ok(())
}

/// The matching lines of raw text (see [`raw_grep`]).
fn raw_grep_exec(s: &[u8], key: &[u8], value: &[u8]) -> (r: Vec<Vec<u8>>)
    ensures
        views(r@) == raw_grep(s@, key@, value@, 0, Seq::empty()),
{
    let mut out: Vec<Vec<u8>> = Vec::new();
    let mut i: usize = 0;
    assert(views(out@) =~= Seq::<Seq<u8>>::empty());
    loop
        invariant
            i <= s.len(),
            raw_grep(s@, key@, value@, i as int, views(out@)) == raw_grep(
                s@,
                key@,
                value@,
                0,
                Seq::empty(),
            ),
        decreases s.len() - i,
    {
        proof {
            lemma_find_from(s@, 0x0a, i as int);
        }
        let e = match find_byte_from(s, 0x0a, i) {
            Some(q) => q,
            None => s.len(),
        };
        let line = &s[i..e];
        if line.len() > 0 && raw_line_matches(line, key, value) {
            let mut m = vstd::slice::slice_to_vec(line);
            m.push(0x0a);
            let ghost o = views(out@);
            out.push(m);
            assert(views(out@) =~= o.push(line@.push(0x0a)));
        }
        if e < s.len() {
            i = e + 1;
        } else {
            return out;
        }
    }
}

impl LumpiEngine {
    /// Searches an archive for rows where `key` has `value` (see
    /// [`grepped`]): each match is a line with its newline.
    pub fn grep_buffer(payload: &[u8], key: &[u8], value: &[u8]) -> (r: Result<Vec<Vec<u8>>, LumpiError>)
        ensures
            match grepped(payload@, key@, value@) {
                Err(k) => r matches Err(e) && kind_of(e) == k,
                Ok(t) => r matches Ok(v) && views(v@) == t,
            },
    {
        match check_header(payload) {
            Err(e) => {
                return Err(e);
            },
            Ok(()) => {},
        }
        let first = read_u32_at(payload, 6);
        if first == RAW_MARK {
            let raw = match read_raw(payload) {
                Ok(v) => v,
                Err(e) => {
                    return Err(e);
                },
            };
            return Ok(raw_grep_exec(raw.as_slice(), key, value));
        }
        let (keys, target, s1) = match read_archive_schema(payload, key) {
            Ok(t) => t,
            Err(e) => {
                return Err(e);
            },
        };
        let tk = match target {
            Some(t) => t,
            None => {
                let none: Vec<Vec<u8>> = Vec::new();
                assert(views(none@) =~= Seq::<Seq<u8>>::empty());
                return Ok(none);
            },
        };
        let (dict, d1) = match read_archive_dict(payload, s1) {
            Ok(t) => t,
            Err(e) => {
                return Err(e);
            },
        };
        let q = Query {
            key: tk,
            dict_id: first_index_exec(&dict, value),
            int: parse_i64(value),
            value: value,
        };
        let fc = read_u32_at(payload, d1);
        let mut found: Vec<Vec<u8>> = Vec::new();
        assert(views(found@) =~= Seq::<Seq<u8>>::empty());
        match grep_frames_exec(payload, d1 + 4, fc, &keys, &dict, &q, &mut found) {
            Ok(()) => Ok(found),
            Err(e) => Err(e),
        }
    }
}

} // verus!
