use vstd::prelude::*;

verus! {

/// Little-endian value of the two bytes of `s` starting at `off`.
pub open spec fn le_u16(s: Seq<u8>, off: int) -> u16 {
    (s[off] as int + 256 * s[off + 1] as int) as u16
}

/// Little-endian value of the four bytes of `s` starting at `off`.
pub open spec fn le_u32(s: Seq<u8>, off: int) -> u32 {
    (s[off] as int + 256 * s[off + 1] as int + 65536 * s[off + 2] as int + 16777216 * s[off
        + 3] as int) as u32
}

/// The two little-endian bytes of `v`.
pub open spec fn u16_le_bytes(v: u16) -> Seq<u8> {
    seq![(v % 256) as u8, (v / 256) as u8]
}

/// The four little-endian bytes of `v`.
pub open spec fn u32_le_bytes(v: u32) -> Seq<u8> {
    seq![(v % 256) as u8, ((v / 256) % 256) as u8, ((v / 65536) % 256) as u8, (v / 16777216) as u8]
}

/// Reading back the bytes of a `u32` gives the `u32`.
pub proof fn lemma_u32_le_roundtrip(v: u32)
    ensures
        le_u32(u32_le_bytes(v), 0) == v,
        u32_le_bytes(v).len() == 4,
{
    let b = u32_le_bytes(v);
    assert(b[0] as int + 256 * b[1] as int + 65536 * b[2] as int + 16777216 * b[3] as int == v);
}

/// Reading back the bytes of a `u16` gives the `u16`.
pub proof fn lemma_u16_le_roundtrip(v: u16)
    ensures
        le_u16(u16_le_bytes(v), 0) == v,
        u16_le_bytes(v).len() == 2,
{
}

/// Appends the four little-endian bytes of `v` to `buf`.
pub fn push_u32(v: u32, buf: &mut Vec<u8>)
    ensures
        final(buf)@ == old(buf)@ + u32_le_bytes(v),
{
    let b0 = (v & 0xff) as u8;
    let b1 = ((v >> 8) & 0xff) as u8;
    let b2 = ((v >> 16) & 0xff) as u8;
    let b3 = (v >> 24) as u8;
    assert(v & 0xff == v % 256 && (v >> 8) & 0xff == (v / 256) % 256 && (v >> 16) & 0xff == (v
        / 65536) % 256 && v >> 24 == v / 16777216) by (bit_vector);
    buf.push(b0);
    buf.push(b1);
    buf.push(b2);
    buf.push(b3);
    assert(final(buf)@ =~= old(buf)@ + u32_le_bytes(v));
}

/// Appends the two little-endian bytes of `v` to `buf`.
pub fn push_u16(v: u16, buf: &mut Vec<u8>)
    ensures
        final(buf)@ == old(buf)@ + u16_le_bytes(v),
{
    let b0 = (v & 0xff) as u8;
    let b1 = (v >> 8) as u8;
    assert(v & 0xff == v % 256 && v >> 8 == v / 256) by (bit_vector);
    buf.push(b0);
    buf.push(b1);
    assert(final(buf)@ =~= old(buf)@ + u16_le_bytes(v));
}

/// Reads a little-endian `u32` at `*c` and moves `*c` past it.
pub fn read_u32(p: &[u8], c: &mut usize) -> (r: u32)
    requires
        *old(c) + 4 <= p.len(),
    ensures
        r == le_u32(p@, *old(c) as int),
        *final(c) == *old(c) + 4,
{
    let v = read_u32_at(p, *c);
    *c = *c + 4;
    v
}

/// Reads a little-endian `u16` at a fixed offset.
pub fn read_u16_at(p: &[u8], off: usize) -> (r: u16)
    requires
        off + 2 <= p.len(),
    ensures
        r == le_u16(p@, off as int),
{
    let a = p[off] as u16;
    let b = p[off + 1] as u16;
    assert(a | (b << 8) == a + 256 * b) by (bit_vector)
        requires
            a < 256,
            b < 256,
    ;
    a | (b << 8)
}

/// Reads a little-endian `u32` at a fixed offset.
pub fn read_u32_at(p: &[u8], off: usize) -> (r: u32)
    requires
        off + 4 <= p.len(),
    ensures
        r == le_u32(p@, off as int),
{
    let a = p[off] as u32;
    let b = p[off + 1] as u32;
    let c = p[off + 2] as u32;
    let d = p[off + 3] as u32;
    assert(a | (b << 8) | (c << 16) | (d << 24) == a + 256 * b + 65536 * c + 16777216 * d)
        by (bit_vector)
        requires
            a < 256,
            b < 256,
            c < 256,
            d < 256,
    ;
    a | (b << 8) | (c << 16) | (d << 24)
}

} // verus!

verus! {

/// Appends the bytes of `b` to `out`.
pub fn append_bytes(out: &mut Vec<u8>, b: &[u8])
    ensures
        final(out)@ == old(out)@ + b@,
{
    out.extend_from_slice(b);
    assert(final(out)@ =~= old(out)@ + b@);
}

} // verus!
