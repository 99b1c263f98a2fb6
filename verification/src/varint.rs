use vstd::prelude::*;

verus! {

/// Zigzag mapping of a signed integer onto an unsigned one:
/// 0, -1, 1, -2, 2, ... become 0, 1, 2, 3, 4, ...
pub open spec fn zigzag(n: i64) -> u64 {
    if n >= 0 {
        (2 * n) as u64
    } else {
        (-2 * n - 1) as u64
    }
}

/// Inverse of [`zigzag`].
pub open spec fn unzigzag(z: u64) -> i64 {
    if z % 2 == 0 {
        (z / 2) as i64
    } else {
        (-((z / 2) as int) - 1) as i64
    }
}

/// Base-128 little-endian bytes of `z`: seven bits per byte, the high bit set
/// on every byte but the last.
pub open spec fn varint_bytes(z: u64) -> Seq<u8>
    decreases z,
{
    if z < 0x80 {
        seq![z as u8]
    } else {
        proof {
            assert(z >= 0x80 ==> z >> 7 < z) by (bit_vector);
        }
        seq![((z & 0x7f) | 0x80) as u8] + varint_bytes(z >> 7)
    }
}

/// Number of bytes of the varint that starts at `c` in `s` (up to and including
/// the first byte below 0x80), or `None` when `s` ends first.
pub open spec fn varint_len(s: Seq<u8>, c: int) -> Option<nat>
    decreases s.len() - c,
{
    if c < 0 || c >= s.len() {
        None
    } else if s[c] < 0x80 {
        Some(1)
    } else {
        match varint_len(s, c + 1) {
            Some(n) => Some(n + 1),
            None => None,
        }
    }
}

/// Value of the first `k` base-128 groups of `s` starting at `c`, the first
/// group being the lowest, truncated to 64 bits.
pub open spec fn varint_value(s: Seq<u8>, c: int, k: nat) -> u64
    decreases k,
{
    if k == 0 {
        0
    } else {
        ((s[c] & 0x7f) as u64) | (varint_value(s, c + 1, (k - 1) as nat) << 7)
    }
}

/// The signed integer that the varint at `c` in `s` decodes to.
pub open spec fn decoded_varint(s: Seq<u8>, c: int) -> i64 {
    unzigzag(varint_value(s, c, varint_len(s, c).unwrap()))
}

proof fn lemma_zigzag_bits(n: i64)
    ensures
        ((n as u64) << 1u64) ^ ((n >> 63i64) as u64) == zigzag(n),
{
    assert(n >= 0 ==> ((n as u64) << 1u64) ^ ((n >> 63i64) as u64) == (2 * n) as u64)
        by (bit_vector);
    assert(n < 0 ==> ((n as u64) << 1u64) ^ ((n >> 63i64) as u64) == (-2 * n - 1) as u64)
        by (bit_vector);
}

proof fn lemma_unzigzag_bits(z: u64)
    ensures
        ((z >> 1u64) as i64) ^ ((-((z & 1u64) as i64)) as i64) == unzigzag(z),
{
    assert(z % 2 == 0 ==> ((z >> 1u64) as i64) ^ ((-((z & 1u64) as i64)) as i64) == (z / 2) as i64)
        by (bit_vector);
    assert(z % 2 == 1 ==> ((z >> 1u64) as i64) ^ ((-((z & 1u64) as i64)) as i64) == (-((z / 2) as int)
        - 1) as i64) by (bit_vector);
}

/// `unzigzag` undoes `zigzag`.
pub proof fn lemma_zigzag_roundtrip(n: i64)
    ensures
        unzigzag(zigzag(n)) == n,
{
}

/// The encoding of `z` is at most ten bytes long.
pub proof fn lemma_varint_bytes_len(z: u64)
    ensures
        1 <= varint_bytes(z).len() <= 10,
{
    assert(z >> 70u64 == 0) by (bit_vector);
    lemma_varint_bytes_len_bound(z, 10);
}

proof fn lemma_varint_bytes_len_bound(z: u64, k: u64)
    requires
        1 <= k <= 10,
        z >> (7 * k) == 0,
    ensures
        1 <= varint_bytes(z).len() <= k,
    decreases z,
{
    if z >= 0x80 {
        assert(z >= 0x80 ==> z >> 7 < z) by (bit_vector);
        assert(k >= 2) by (bit_vector)
            requires
                z >= 0x80,
                1 <= k <= 10,
                z >> (7 * k) == 0,
        ;
        let km = (k - 1) as u64;
        assert((z >> 7u64) >> (7 * km) == 0) by (bit_vector)
            requires
                km + 1 == k,
                1 <= k <= 10,
                z >> (7 * k) == 0,
        ;
        lemma_varint_bytes_len_bound(z >> 7, km);
    }
}

/// The varint bytes of `z`, followed by anything, are read back as one varint of
/// their own length.
pub proof fn lemma_varint_len_of_bytes(z: u64, pre: Seq<u8>, post: Seq<u8>)
    ensures
        varint_len(pre + varint_bytes(z) + post, pre.len() as int) == Some(varint_bytes(z).len()),
    decreases z,
{
    let s = pre + varint_bytes(z) + post;
    if z < 0x80 {
        assert(s[pre.len() as int] == z as u8);
    } else {
        assert(z >= 0x80 ==> z >> 7 < z) by (bit_vector);
        assert(z >= 0x80 ==> ((z & 0x7f) | 0x80) as u8 >= 0x80) by (bit_vector);
        let b = ((z & 0x7f) | 0x80) as u8;
        let pre2 = pre.push(b);
        assert(pre2 + varint_bytes(z >> 7) + post =~= s);
        lemma_varint_len_of_bytes(z >> 7, pre2, post);
        assert(s[pre.len() as int] == b);
    }
}

/// Decoding the varint bytes of `z` gives `z` back.
pub proof fn lemma_varint_value_of_bytes(z: u64, pre: Seq<u8>, post: Seq<u8>)
    ensures
        varint_value(pre + varint_bytes(z) + post, pre.len() as int, varint_bytes(z).len()) == z,
    decreases z,
{
    let s = pre + varint_bytes(z) + post;
    let c = pre.len() as int;
    if z < 0x80 {
        assert(s[c] == z as u8);
        assert(varint_value(s, c + 1, 0) == 0);
        assert(z < 0x80 ==> (((z as u8) & 0x7f) as u64) | (0u64 << 7u64) == z) by (bit_vector);
    } else {
        assert(z >= 0x80 ==> z >> 7 < z) by (bit_vector);
        let b = ((z & 0x7f) | 0x80) as u8;
        let pre2 = pre.push(b);
        assert(pre2 + varint_bytes(z >> 7) + post =~= s);
        lemma_varint_value_of_bytes(z >> 7, pre2, post);
        assert(s[c] == b);
        let rest = varint_value(s, c + 1, (varint_bytes(z).len() - 1) as nat);
        assert(rest == z >> 7);
        assert(((((z & 0x7f) | 0x80) as u8) & 0x7f) as u64 | ((z >> 7u64) << 7u64) == z)
            by (bit_vector);
    }
}

/// A signed integer written with zigzag varint encoding reads back as itself,
/// in at most ten bytes, whatever stands before and after it.
pub proof fn lemma_varint_roundtrip(n: i64, pre: Seq<u8>, post: Seq<u8>)
    ensures
        varint_len(pre + varint_bytes(zigzag(n)) + post, pre.len() as int) == Some(
            varint_bytes(zigzag(n)).len(),
        ),
        varint_bytes(zigzag(n)).len() <= 10,
        decoded_varint(pre + varint_bytes(zigzag(n)) + post, pre.len() as int) == n,
{
    lemma_varint_len_of_bytes(zigzag(n), pre, post);
    lemma_varint_value_of_bytes(zigzag(n), pre, post);
    lemma_varint_bytes_len(zigzag(n));
    lemma_zigzag_roundtrip(n);
}

/// Appends the zigzag varint encoding of `n` to `out`.
pub fn encode_zigzag_varint(n: i64, out: &mut Vec<u8>)
    ensures
        final(out)@ == old(out)@ + varint_bytes(zigzag(n)),
{
    proof {
        lemma_zigzag_bits(n);
    }
    let mut z: u64 = ((n as u64) << 1u64) ^ ((n >> 63i64) as u64);
    loop
        invariant
            out@ + varint_bytes(z) == old(out)@ + varint_bytes(zigzag(n)),
        decreases z,
    {
        if z < 0x80 {
            out.push(z as u8);
            assert(out@ =~= old(out)@ + varint_bytes(zigzag(n)));
            return;
        }
        let b = ((z as u8) & 0x7f) | 0x80;
        assert(((z as u8) & 0x7f) | 0x80 == ((z & 0x7f) | 0x80) as u8) by (bit_vector);
        let ghost before = out@;
        out.push(b);
        assert(z >= 0x80 ==> z >> 7 < z) by (bit_vector);
        assert(varint_bytes(z) == seq![b] + varint_bytes(z >> 7));
        assert(out@ + varint_bytes(z >> 7) =~= before + varint_bytes(z));
        z = z >> 7;
    }
}

proof fn lemma_varint_value_step(s: Seq<u8>, c: int, i: nat)
    requires
        i <= 9,
    ensures
        varint_value(s, c, i + 1) == varint_value(s, c, i) | (((s[c + i] & 0x7f) as u64) << ((7
            * i) as u64)),
    decreases i,
{
    let g0 = (s[c] & 0x7f) as u64;
    let gi = (s[c + i] & 0x7f) as u64;
    if i == 0 {
        assert(varint_value(s, c + 1, 0) == 0);
        assert(g0 | (0u64 << 7u64) == 0u64 | (g0 << 0u64)) by (bit_vector);
    } else {
        lemma_varint_value_step(s, c + 1, (i - 1) as nat);
        let a = varint_value(s, c + 1, (i - 1) as nat);
        let t = (7 * (i - 1)) as u64;
        assert(s[c + 1 + (i - 1)] == s[c + i]);
        assert(t <= 56 ==> g0 | ((a | (gi << t)) << 7u64) == (g0 | (a << 7u64)) | (gi << (t
            + 7))) by (bit_vector);
        assert(t + 7 == (7 * i) as u64);
    }
}

/// Reads the zigzag varint at `*cursor` and moves `*cursor` past it.
pub fn decode_zigzag_varint(data: &[u8], cursor: &mut usize) -> (r: i64)
    requires
        varint_len(data@, *old(cursor) as int) matches Some(n) && n <= 10,
    ensures
        *final(cursor) == *old(cursor) + varint_len(data@, *old(cursor) as int).unwrap(),
        r == decoded_varint(data@, *old(cursor) as int),
{
    let ghost start = *cursor as int;
    let ghost n = varint_len(data@, start).unwrap();
    let mut z: u64 = 0;
    let mut shift: u32 = 0;
    let mut i: usize = 0;
    loop
        invariant
            start == *old(cursor) as int,
            n == varint_len(data@, start).unwrap(),
            n <= 10,
            i < n,
            *cursor == start + i,
            shift == 7 * i,
            z == varint_value(data@, start, i as nat),
            varint_len(data@, start + i) == Some((n - i) as nat),
        decreases n - i,
    {
        let b = data[*cursor];
        proof {
            lemma_varint_value_step(data@, start, i as nat);
        }
        *cursor = *cursor + 1;
        z = z | (((b & 0x7f) as u64) << shift);
        shift = shift + 7;
        i = i + 1;
        if b < 0x80 {
            proof {
                lemma_unzigzag_bits(z);
            }
            let low: u64 = z & 1u64;
            assert(z & 1u64 <= 1) by (bit_vector);
            assert(z >> 1u64 <= 0x7fff_ffff_ffff_ffff) by (bit_vector);
            let neg: i64 = -(low as i64);
            let half: i64 = (z >> 1u64) as i64;
            return half ^ neg;
        }
    }
}

/// Moves `*cursor` past the varint that starts there.
pub fn skip_varint(data: &[u8], cursor: &mut usize)
    requires
        varint_len(data@, *old(cursor) as int) is Some,
    ensures
        *final(cursor) == *old(cursor) + varint_len(data@, *old(cursor) as int).unwrap(),
{
    let ghost start = *cursor as int;
    let ghost n = varint_len(data@, start).unwrap();
    let ghost mut left: nat = n;
    while data[*cursor] >= 0x80
        invariant
            start == *old(cursor) as int,
            n == varint_len(data@, start).unwrap(),
            start <= *cursor,
            *cursor < data.len(),
            left + (*cursor - start) == n,
            varint_len(data@, *cursor as int) == Some(left),
        decreases left,
    {
        assert(varint_len(data@, *cursor as int + 1) == Some((left - 1) as nat));
        *cursor = *cursor + 1;
        proof {
            left = (left - 1) as nat;
        }
    }
    *cursor = *cursor + 1;
}

/// The length of the varint at `c`, when it ends within ten bytes and before
/// `data` does; `None` otherwise.
pub fn varint_size(data: &[u8], c: usize) -> (r: Option<usize>)
    requires
        c <= data.len(),
    ensures
        match r {
            Some(n) => varint_len(data@, c as int) == Some(n as nat) && n <= 10,
            None => !(varint_len(data@, c as int) matches Some(n) && n <= 10),
        },
{
    let mut i: usize = 0;
    while i < 10
        invariant
            c <= data.len(),
            i <= 10,
            c + i <= data.len() + 10,
            varint_len(data@, c as int) == (match varint_len(data@, c + i) {
                Some(n) => Some((n + i) as nat),
                None => None::<nat>,
            }),
        decreases 10 - i,
    {
        if i >= data.len() - c {
            return None;
        }
        if data[c + i] < 0x80 {
            return Some(i + 1);
        }
        i = i + 1;
    }
    proof {
        match varint_len(data@, c + 10) {
            Some(n) => {
                assert(n >= 1) by {
                    lemma_varint_len_pos(data@, c + 10);
                }
            },
            None => {},
        }
    }
    None
}

/// A varint lies within the bytes that hold it, and has at least one byte.
pub proof fn lemma_varint_len_pos(s: Seq<u8>, c: int)
    ensures
        varint_len(s, c) matches Some(n) ==> n >= 1 && 0 <= c && c + n <= s.len(),
    decreases s.len() - c,
{
    if 0 <= c < s.len() && s[c] >= 0x80 {
        lemma_varint_len_pos(s, c + 1);
    }
}

} // verus!
