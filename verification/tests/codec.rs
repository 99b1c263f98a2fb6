use lumpi::bytes::{push_u32, read_u16_at, read_u32, read_u32_at};
use lumpi::reader::{frame_has_string_match, parse_scan_offsets};
use lumpi::model::high_cardinality;
use lumpi::text::{find_subslice, is_number_byte, raw_line_matches, trim_ascii_slice};
use lumpi::varint::{decode_zigzag_varint, encode_zigzag_varint, skip_varint};

#[test]
fn zigzag_varints_round_trip() {
    for &n in &[0i64, -1, 1, -64, 63, 64, 300, -300, i64::MAX, i64::MIN] {
        let mut buf = vec![0xAAu8];
        encode_zigzag_varint(n, &mut buf);
        let mut c = 1usize;
        assert_eq!(decode_zigzag_varint(&buf, &mut c), n);
        assert_eq!(c, buf.len());
        let mut c2 = 1usize;
        skip_varint(&buf, &mut c2);
        assert_eq!(c2, buf.len());
    }
}

#[test]
fn zigzag_varint_bytes() {
    let mut buf = Vec::new();
    encode_zigzag_varint(-1, &mut buf);
    assert_eq!(buf, vec![1]);
    buf.clear();
    encode_zigzag_varint(64, &mut buf);
    assert_eq!(buf, vec![0x80, 0x01]);
    buf.clear();
    encode_zigzag_varint(i64::MIN, &mut buf);
    assert_eq!(buf.len(), 10);
}

#[test]
fn little_endian_reads_and_writes() {
    let mut buf = Vec::new();
    push_u32(0x0403_0201, &mut buf);
    assert_eq!(buf, vec![1, 2, 3, 4]);
    let mut c = 0usize;
    assert_eq!(read_u32(&buf, &mut c), 0x0403_0201);
    assert_eq!(c, 4);
    assert_eq!(read_u16_at(&buf, 1), 0x0302);
    assert_eq!(read_u32_at(&buf, 0), 0x0403_0201);
}

#[test]
fn subslices_and_trimming() {
    assert_eq!(find_subslice(b"hello world", b"o w"), Some(4));
    assert_eq!(find_subslice(b"hello", b""), Some(0));
    assert_eq!(find_subslice(b"hello", b"xyz"), None);
    assert_eq!(trim_ascii_slice(b"  a b \t\n"), b"a b");
    assert_eq!(trim_ascii_slice(b"   "), b"");
    assert!(is_number_byte(b'7') && is_number_byte(b'e') && is_number_byte(b'-'));
    assert!(!is_number_byte(b'x'));
}

#[test]
fn raw_lines_match_key_and_value() {
    assert!(raw_line_matches(b"{\"k\": \"v\"}", b"k", b"v"));
    assert!(raw_line_matches(b"{\"k\":42,\"x\":1}", b"k", b"42"));
    assert!(!raw_line_matches(b"{\"k\":421}", b"k", b"42"));
    assert!(!raw_line_matches(b"{\"k\": \"vv\"}", b"k", b"v"));
    assert!(!raw_line_matches(b"{\"j\": \"v\"}", b"k", b"v"));
}

#[test]
fn raw_lines_are_matched_at_every_place_of_the_key() {
    assert!(raw_line_matches(b"{\"msg\":\"a\",\"a\":\"x\"}", b"a", b"x"));
    assert!(raw_line_matches(b"{\"k\": 1, \"k\": 2}", b"k", b"2"));
    assert!(!raw_line_matches(b"{\"msg\":\"a\",\"a\":\"y\"}", b"a", b"x"));
}

#[test]
fn scan_block_offsets_and_string_match() {
    // two fields (key 0 string id 5, key 1 integer), one string id, one row of 2 fields
    let mut scan = Vec::new();
    push_u32(2, &mut scan);
    push_u32(1, &mut scan);
    scan.extend_from_slice(&[0, 0, 1, 0]);
    scan.extend_from_slice(&[1, 0]);
    push_u32(5, &mut scan);
    scan.extend_from_slice(&[2, 0]);
    let (tf, sc, ko, to, so, fo) = parse_scan_offsets(&scan);
    assert_eq!((tf, sc, ko, to, so, fo), (2, 1, 8, 12, 14, 18));
    assert!(frame_has_string_match(&scan, tf, ko, to, so, 0, 5));
    assert!(!frame_has_string_match(&scan, tf, ko, to, so, 0, 6));
    assert!(!frame_has_string_match(&scan, tf, ko, to, so, 1, 5));
}

#[test]
fn high_cardinality_follows_the_f32_quotient() {
    let cases: [(u32, u32); 12] = [
        (100, 51),
        (100, 50),
        (99, 99),
        (200, 101),
        ((1 << 25) + 1, (1 << 24) + 1),
        ((1 << 25) + 3, (1 << 24) + 2),
        (u32::MAX, u32::MAX / 2 + 1),
        (u32::MAX, u32::MAX / 2 + 200),
        (u32::MAX, u32::MAX),
        ((1 << 24) + 1, (1 << 23) + 1),
        (16_777_217, 8_388_609),
        (3_000_000_001, 1_500_000_123),
    ];
    for (seen, new) in cases {
        let expected = seen >= 100 && (new as f32) / (seen as f32) > 0.5;
        assert_eq!(high_cardinality(seen, new), expected, "seen {} new {}", seen, new);
    }
    assert!(!high_cardinality((1 << 25) + 1, (1 << 24) + 1));
    let mut x: u64 = 12345;
    for _ in 0..20000 {
        x = x.wrapping_mul(6364136223846793005).wrapping_add(1442695040888963407);
        let seen = ((x >> 33) as u32).max(100);
        let off = ((x >> 7) & 0xff_ffff) as u32;
        let new = (seen / 2).saturating_add(off % 300).min(seen);
        let expected = (new as f32) / (seen as f32) > 0.5;
        assert_eq!(high_cardinality(seen, new), expected, "seen {} new {}", seen, new);
    }
}
