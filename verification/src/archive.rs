//! The `.lmp` archive format: a header, then either one raw zstd frame with
//! the SHA-256 of the packed text, or the engine's dictionaries and its
//! fields cut into frames of at most 65536 rows, each frame with a scan block
//! (key ids, types, string ids, row lengths) and a data block (varints and
//! literals), each block compressed on its own.
use vstd::prelude::*;
use crate::bytes::{push_u16, push_u32, u16_le_bytes, u32_le_bytes};
use crate::csv::csv_parse;
use crate::format::{detect_format_spec, strip_json_array_spec, InputFormat};
use crate::json::json_parse;
use crate::number::decimal_digits;
use crate::model::{
    empty_model, concat_map, lemma_concat_map_push, dict_bytes_of, dict_lens_of, lit_lens_of, literal_fits, lits_of, sids_of,
    sum_u16, types_of, varints_of, Model,
};
use crate::trusted::{hex_digit, hex_encode, hex_lower, sha256_digest, sha256_of, zstd_decoded, zstd_frame};

verus! {

pub const VERSION_MAJOR: u8 = 0x09;

pub const VERSION_MINOR: u8 = 0x00;

/// Rows per frame.
pub const ROWS_PER_FRAME: usize = 65536;

/// The zstd level of every block of an archive.
pub const BLOCK_LEVEL: i32 = 9;

/// Marks an archive that holds the packed text as one raw zstd frame.
pub const RAW_MARK: u32 = 0xffff_ffff;

/// The first four bytes of every archive: `LUMP`.
pub const MAGIC: [u8; 4] = [0x4c, 0x55, 0x4d, 0x50];

/// `LUMP` and the version.
pub open spec fn archive_header() -> Seq<u8> {
    seq![0x4cu8, 0x55u8, 0x4du8, 0x50u8, VERSION_MAJOR, VERSION_MINOR]
}

pub open spec fn u16s_le(s: Seq<u16>) -> Seq<u8> {
    concat_map(s, |x: u16| u16_le_bytes(x))
}

pub open spec fn u32s_le(s: Seq<u32>) -> Seq<u8> {
    concat_map(s, |x: u32| u32_le_bytes(x))
}

/// One key of the schema block: its length, its bytes, its id.
pub open spec fn schema_entry(keys: Seq<Seq<u8>>, i: int) -> Seq<u8> {
    u32_le_bytes(keys[i].len() as u32) + keys[i] + u16_le_bytes(i as u16)
}

/// The first `n` keys of the schema block, by id.
pub open spec fn schema_entries(keys: Seq<Seq<u8>>, n: nat) -> Seq<u8>
    decreases n,
{
    if n == 0 {
        Seq::empty()
    } else {
        schema_entries(keys, (n - 1) as nat) + schema_entry(keys, n - 1)
    }
}

/// The schema block: the number of keys, then each key by id.
pub open spec fn schema_block(keys: Seq<Seq<u8>>) -> Seq<u8> {
    u32_le_bytes(keys.len() as u32) + schema_entries(keys, keys.len())
}

/// The dictionary block: the strings' bytes, then their lengths.
pub open spec fn dict_block(vals: Seq<Seq<u8>>) -> Seq<u8> {
    u32_le_bytes(dict_bytes_of(vals).len() as u32) + dict_bytes_of(vals) + u32_le_bytes(
        vals.len() as u32,
    ) + u32s_le(dict_lens_of(vals))
}

/// Number of frames for `n` rows.
pub open spec fn frame_count(n: nat) -> nat {
    (n + 65535) / 65536
}

/// First row of frame `f`.
pub open spec fn frame_start(f: nat) -> nat {
    65536 * f
}

/// End of the rows of frame `f`.
pub open spec fn frame_end(m: Model, f: nat) -> nat {
    if 65536 * f + 65536 <= m.rows.len() {
        65536 * f + 65536
    } else {
        m.rows.len()
    }
}

/// Number of fields in the first `r` rows.
pub open spec fn row_fields(m: Model, r: nat) -> nat {
    sum_u16(m.rows.take(r as int))
}

/// Sum of the stored lengths of the literals among the first `k` fields.
pub open spec fn lit_span(m: Model, k: nat) -> nat {
    sum_u16(lit_lens_of(m.fields.take(k as int)))
}

/// The scan block of rows `ra..rb`: field count, string count, key ids,
/// types, string ids, fields per row.
pub open spec fn scan_rows_block(m: Model, ra: nat, rb: nat) -> Seq<u8> {
    let a = row_fields(m, ra) as int;
    let b = row_fields(m, rb) as int;
    let ff = m.fields.subrange(a, b);
    u32_le_bytes((b - a) as u32) + u32_le_bytes(sids_of(ff).len() as u32) + u16s_le(
        m.kstream.subrange(a, b),
    ) + types_of(ff) + u32s_le(sids_of(ff)) + u16s_le(m.rows.subrange(ra as int, rb as int))
}

/// The data block of rows `ra..rb`: varint bytes, literal lengths, literal
/// bytes.
pub open spec fn data_rows_block(m: Model, ra: nat, rb: nat) -> Seq<u8> {
    let a = row_fields(m, ra);
    let b = row_fields(m, rb);
    let ff = m.fields.subrange(a as int, b as int);
    let v = varints_of(ff);
    let l = lit_lens_of(ff);
    let bytes = lits_of(m.fields).subrange(lit_span(m, a) as int, lit_span(m, b) as int);
    u32_le_bytes(v.len() as u32) + v + u32_le_bytes(l.len() as u32) + u16s_le(l) + u32_le_bytes(
        bytes.len() as u32,
    ) + bytes
}

/// The scan block of frame `f`.
#[verifier::opaque]
pub open spec fn scan_block(m: Model, f: nat) -> Seq<u8> {
    scan_rows_block(m, frame_start(f), frame_end(m, f))
}

/// The data block of frame `f`.
#[verifier::opaque]
pub open spec fn data_block(m: Model, f: nat) -> Seq<u8> {
    data_rows_block(m, frame_start(f), frame_end(m, f))
}

/// Frame `f` of an archive, with `z` the compressed data block.
#[verifier::opaque]
pub open spec fn frame_bytes(m: Model, f: nat, z: Seq<u8>) -> Seq<u8> {
    let s = zstd_frame(scan_block(m, f), BLOCK_LEVEL);
    u32_le_bytes((frame_end(m, f) - frame_start(f)) as u32) + u32_le_bytes(s.len() as u32) + s
        + u32_le_bytes(z.len() as u32) + z
}

/// The frames of an archive, with `zs` the compressed data blocks.
pub open spec fn frames_concat(m: Model, zs: Seq<Seq<u8>>) -> Seq<u8>
    decreases zs.len(),
{
    if zs.len() == 0 {
        Seq::empty()
    } else {
        frames_concat(m, zs.drop_last()) + frame_bytes(m, (zs.len() - 1) as nat, zs.last())
    }
}

/// A columnar archive of `m`, with `zs` the compressed data blocks.
#[verifier::opaque]
pub open spec fn structured_layout(m: Model, zs: Seq<Seq<u8>>) -> Seq<u8> {
    let schema = zstd_frame(schema_block(m.keys), BLOCK_LEVEL);
    let dict = zstd_frame(dict_block(m.vals), BLOCK_LEVEL);
    archive_header() + u32_le_bytes(schema.len() as u32) + schema + u32_le_bytes(dict.len() as u32)
        + dict + u32_le_bytes(frame_count(m.rows.len()) as u32) + frames_concat(m, zs)
}

/// The counts and lengths of the blocks of rows `ra..rb` fit their 32-bit
/// fields, and their scan block can be indexed with a `usize`.
pub open spec fn rows_fit(m: Model, ra: nat, rb: nat) -> bool {
    let ff = m.fields.subrange(row_fields(m, ra) as int, row_fields(m, rb) as int);
    &&& ff.len() <= u32::MAX
    &&& varints_of(ff).len() <= u32::MAX
    &&& lits_of(ff).len() <= u32::MAX
    &&& 8 + 7 * ff.len() <= usize::MAX
}

/// The blocks of frame `f` fit (see [`rows_fit`]).
pub open spec fn frame_fits(m: Model, f: nat) -> bool {
    rows_fit(m, frame_start(f), frame_end(m, f))
}

/// Every count and length that a columnar archive of `m` stores fits its
/// field: each literal its 16-bit length, each key and the dictionary's bytes
/// their 32-bit lengths, the number of frames its 32-bit count, and each
/// frame's blocks as [`frame_fits`] says.
pub open spec fn model_fits(m: Model) -> bool {
    &&& forall|k: int| 0 <= k < m.fields.len() ==> literal_fits(#[trigger] m.fields[k])
    &&& forall|i: int| 0 <= i < m.keys.len() ==> (#[trigger] m.keys[i]).len() <= u32::MAX
    &&& dict_bytes_of(m.vals).len() <= u32::MAX
    &&& frame_count(m.rows.len()) <= u32::MAX
    &&& forall|f: nat| f < frame_count(m.rows.len()) ==> #[trigger] frame_fits(m, f)
}

/// `out` is a columnar archive of `m`: every count and length it stores fits
/// its field (a compressed block's length below the raw mark for the schema,
/// at most `u32::MAX` for the others), and every block decompresses to what
/// the model gives for it.
pub open spec fn is_structured_archive(out: Seq<u8>, m: Model) -> bool {
    &&& model_fits(m)
    &&& zstd_frame(schema_block(m.keys), BLOCK_LEVEL).len() < u32::MAX
    &&& zstd_frame(dict_block(m.vals), BLOCK_LEVEL).len() <= u32::MAX
    &&& zstd_decoded(zstd_frame(schema_block(m.keys), BLOCK_LEVEL)) == Some(schema_block(m.keys))
    &&& zstd_decoded(zstd_frame(dict_block(m.vals), BLOCK_LEVEL)) == Some(dict_block(m.vals))
    &&& exists|zs: Seq<Seq<u8>>|
        #![trigger structured_layout(m, zs)]
        {
            &&& zs.len() == frame_count(m.rows.len())
            &&& forall|f: int|
                0 <= f < zs.len() ==> zstd_decoded(#[trigger] zs[f]) == Some(data_block(m, f as nat))
                    && zstd_decoded(zstd_frame(scan_block(m, f as nat), BLOCK_LEVEL)) == Some(
                    scan_block(m, f as nat),
                ) && zs[f].len() <= u32::MAX && zstd_frame(scan_block(m, f as nat), BLOCK_LEVEL).len()
                    <= u32::MAX
            &&& out == structured_layout(m, zs)
        }
}

/// What compressing `raw` leaves in an engine that held `m`: the parsed
/// model, or nothing when the text is stored raw.
pub open spec fn compressed_model(m: Model, raw: Seq<u8>) -> Model {
    match parse_input(m, raw) {
        Some(m2) => m2,
        None => empty_model(),
    }
}

/// `(n + 65535) / 65536` is the number of frames that start below `n`.
/// A frame that starts below `n` is one of the `frame_count(n)` frames.
pub proof fn lemma_frame_below(n: nat, f: nat)
    requires
        65536 * f < n,
    ensures
        f < frame_count(n),
{
    vstd::arithmetic::div_mod::lemma_fundamental_div_mod((n + 65535) as int, 65536);
    let q = frame_count(n) as int;
    let r = ((n + 65535) % 65536) as int;
    assert(0 <= r < 65536);
    assert(n + 65535 == 65536 * q + r);
}

pub proof fn lemma_frame_count(n: nat, f: nat)
    requires
        f == 0 ==> n == 0,
        f > 0 ==> 65536 * (f - 1) < n <= 65536 * f,
    ensures
        frame_count(n) == f,
{
    if f > 0 {
        vstd::arithmetic::div_mod::lemma_fundamental_div_mod_converse(
            (n + 65535) as int,
            65536,
            f as int,
            n + 65535 - 65536 * f,
        );
    }
}

/// The lowercase hexadecimal SHA-256 of `raw`.
pub open spec fn raw_hash(raw: Seq<u8>) -> Seq<u8> {
    hex_lower(sha256_of(raw))
}

/// `out` is a raw archive of `raw`: the header, the raw mark, the 64 bytes of
/// `raw`'s hash, and a zstd frame that decompresses to `raw`.
pub open spec fn is_raw_archive(out: Seq<u8>, raw: Seq<u8>) -> bool {
    &&& out.len() >= 74
    &&& out.subrange(0, 6) == archive_header()
    &&& out.subrange(6, 10) == u32_le_bytes(RAW_MARK)
    &&& out.subrange(10, 74) == raw_hash(raw)
    &&& zstd_decoded(out.subrange(74, out.len() as int)) == Some(raw)
}

/// What the engine makes of its input: CSV or flat JSON objects by the
/// input's format (the brackets of a JSON array left out); `None` when it
/// gives up on the text and stores it raw.
pub open spec fn parse_input(m: Model, raw: Seq<u8>) -> Option<Model> {
    let fmt = detect_format_spec(raw);
    let data = if fmt == InputFormat::JsonArray {
        strip_json_array_spec(raw)
    } else {
        raw
    };
    if fmt == InputFormat::Csv {
        csv_parse(m, data)
    } else {
        json_parse(m, data)
    }
}

/// Appends each `u16` of `s` in little-endian order.
pub fn push_u16s(s: &[u16], out: &mut Vec<u8>)
    ensures
        final(out)@ == old(out)@ + u16s_le(s@),
{
    let mut i: usize = 0;
    while i < s.len()
        invariant
            i <= s.len(),
            out@ == old(out)@ + u16s_le(s@.take(i as int)),
        decreases s.len() - i,
    {
        proof {
            assert(s@.take(i + 1) =~= s@.take(i as int).push(s@[i as int]));
            lemma_concat_map_push(s@.take(i as int), s@[i as int], |x: u16| u16_le_bytes(x));
        }
        push_u16(s[i], out);
        i = i + 1;
    }
    assert(s@.take(s.len() as int) =~= s@);
}

/// Appends each `u32` of `s` in little-endian order.
pub fn push_u32s(s: &[u32], out: &mut Vec<u8>)
    ensures
        final(out)@ == old(out)@ + u32s_le(s@),
{
    let mut i: usize = 0;
    while i < s.len()
        invariant
            i <= s.len(),
            out@ == old(out)@ + u32s_le(s@.take(i as int)),
        decreases s.len() - i,
    {
        proof {
            assert(s@.take(i + 1) =~= s@.take(i as int).push(s@[i as int]));
            lemma_concat_map_push(s@.take(i as int), s@[i as int], |x: u32| u32_le_bytes(x));
        }
        push_u32(s[i], out);
        i = i + 1;
    }
    assert(s@.take(s.len() as int) =~= s@);
}

/// Why an archive could not be written or read.
#[derive(Debug, Clone, PartialEq, Eq)]
pub enum LumpiError {
    /// Shorter than the header.
    FileTooSmall,
    /// Does not begin with `LUMP`.
    NotLumpFile,
    /// A major version other than this one (major, minor).
    UnsupportedVersion(u8, u8),
    /// The stored hash of a raw archive is not UTF-8.
    InvalidHash,
    /// A raw archive does not decompress to text with its stored hash.
    IntegrityCheckFailed,
    /// A field's type byte is none of the four types.
    UnknownTypeByte,
    /// A count, length or id points past the end of what holds it.
    Truncated,
    /// A part of a columnar archive is too large for the field that stores
    /// its length or count (see [`model_fits`]).
    TooLarge,
    /// A compressed block of a columnar archive is too long for the 32-bit
    /// field that stores its length.
    BlockTooLarge,
    /// zstd reported an error (its text).
    Zstd(String),
}

/// Hexadecimal text is ASCII, two digits per byte.
pub proof fn lemma_hex_lower(s: Seq<u8>)
    ensures
        hex_lower(s).len() == 2 * s.len(),
        forall|i: int| 0 <= i < hex_lower(s).len() ==> #[trigger] hex_lower(s)[i] < 0x80,
    decreases s.len(),
{
    if s.len() > 0 {
        lemma_hex_lower(s.drop_last());
        let h = hex_lower(s);
        let t = hex_lower(s.drop_last());
        assert forall|i: int| 0 <= i < h.len() implies #[trigger] h[i] < 0x80 by {
            if i < t.len() {
                assert(h[i] == t[i]);
            }
        }
    }
}

/// The lowercase hexadecimal SHA-256 of `data`, 64 characters.
pub fn sha256_hex(data: &[u8]) -> (r: String)
    ensures
        r@ == raw_hash(data@).map_values(|b: u8| b as char),
        raw_hash(data@).len() == 64,
{
    let d = sha256_digest(data);
    proof {
        lemma_hex_lower(d@);
    }
    hex_encode(d.as_slice())
}

/// The bytes of ASCII text `s` whose characters are those of `b`.
pub(crate) fn ascii_bytes(s: &String, Ghost(b): Ghost<Seq<u8>>) -> (r: Vec<u8>)
    requires
        s@ == b.map_values(|x: u8| x as char),
        forall|i: int| 0 <= i < b.len() ==> #[trigger] b[i] < 0x80,
    ensures
        r@ == b,
{
    let r = s.as_str().as_bytes_vec();
    proof {
        let cs = b.map_values(|x: u8| x as char);
        assert(vstd::utf8::is_ascii_chars(cs));
        vstd::utf8::is_ascii_chars_encode_utf8(cs);
        assert forall|i: int| 0 <= i < b.len() implies r@[i] == b[i] by {
            assert(cs[i] as u8 == vstd::utf8::encode_utf8(cs)[i]);
        }
        assert(r@ =~= b);
    }
    r
}

/// The decimal digits of `v` as characters.
pub open spec fn decimal_chars(v: u8) -> Seq<char> {
    decimal_digits(v as nat).map_values(|b: u8| b as char)
}

/// The text an error is reported with.
pub open spec fn error_message(e: LumpiError) -> Seq<char> {
    match e {
        LumpiError::FileTooSmall => "file too small"@,
        LumpiError::NotLumpFile => "not a LUMP file"@,
        LumpiError::UnsupportedVersion(major, minor) => "unsupported version "@ + decimal_chars(major) + "."@
            + decimal_chars(minor) + ", need 9.x"@,
        LumpiError::InvalidHash => "invalid hash"@,
        LumpiError::IntegrityCheckFailed => "integrity check failed"@,
        LumpiError::UnknownTypeByte => "unknown type byte"@,
        LumpiError::Truncated => "archive is truncated or corrupt"@,
        LumpiError::TooLarge => "a part of the archive is too large for its length field"@,
        LumpiError::BlockTooLarge => "a compressed block is too large for its 32-bit length"@,
        LumpiError::Zstd(t) => t@,
    }
}

/// The digit `d` as text.
fn digit_text(d: u8) -> (r: &'static str)
    requires
        d < 10,
    ensures
        r@ == seq![(48 + d) as u8 as char],
{
    proof {
        reveal_strlit("0");
        reveal_strlit("1");
        reveal_strlit("2");
        reveal_strlit("3");
        reveal_strlit("4");
        reveal_strlit("5");
        reveal_strlit("6");
        reveal_strlit("7");
        reveal_strlit("8");
        reveal_strlit("9");
    }
    match d {
        0 => "0",
        1 => "1",
        2 => "2",
        3 => "3",
        4 => "4",
        5 => "5",
        6 => "6",
        7 => "7",
        8 => "8",
        _ => "9",
    }
}

/// Appends the decimal digits of `v`.
fn append_decimal(s: &mut String, v: u8)
    ensures
        final(s)@ == old(s)@ + decimal_chars(v),
{
    proof {
        reveal_with_fuel(decimal_digits, 3);
    }
    let ghost s0 = s@;
    if v >= 100 {
        s.append(digit_text(v / 100));
    }
    if v >= 10 {
        s.append(digit_text((v / 10) % 10));
    }
    s.append(digit_text(v % 10));
    proof {
        let ds = decimal_digits(v as nat);
        if v >= 100 {
            assert(decimal_digits((v / 10) as nat) == decimal_digits((v / 100) as nat).push((48 + (v / 10) % 10) as u8));
            assert(decimal_digits((v / 100) as nat) == seq![(48 + v / 100) as u8]);
        } else if v >= 10 {
            assert(decimal_digits((v / 10) as nat) == seq![(48 + v / 10) as u8]);
        }
        assert(s@ =~= s0 + ds.map_values(|b: u8| b as char));
    }
}

impl LumpiError {
    /// The text the error is reported with (see [`error_message`]).
    pub fn message(&self) -> (r: String)
        ensures
            r@ == error_message(*self),
    {
        match self {
            LumpiError::FileTooSmall => String::from_str("file too small"),
            LumpiError::NotLumpFile => String::from_str("not a LUMP file"),
            LumpiError::UnsupportedVersion(major, minor) => {
                let mut s = String::from_str("unsupported version ");
                append_decimal(&mut s, *major);
                s.append(".");
                append_decimal(&mut s, *minor);
                s.append(", need 9.x");
                s
            },
            LumpiError::InvalidHash => String::from_str("invalid hash"),
            LumpiError::IntegrityCheckFailed => String::from_str("integrity check failed"),
            LumpiError::UnknownTypeByte => String::from_str("unknown type byte"),
            LumpiError::Truncated => String::from_str("archive is truncated or corrupt"),
            LumpiError::TooLarge => String::from_str("a part of the archive is too large for its length field"),
            LumpiError::BlockTooLarge => String::from_str("a compressed block is too large for its 32-bit length"),
            LumpiError::Zstd(t) => t.clone(),
        }
    }
}

} // verus!
