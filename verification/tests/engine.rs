use lumpi::archive::LumpiError;
use lumpi::engine::LumpiEngine;
use lumpi::format::InputFormat;

fn pack(text: &str) -> (Vec<u8>, String, bool) {
    let mut engine = LumpiEngine::new();
    let (out, hash) = engine.compress_buffer(text.as_bytes(), 2).expect("pack");
    (out, hash, engine.was_structured())
}

#[test]
fn jsonl_round_trip_is_canonical() {
    let text = "{\"level\": \"INFO\", \"status\": 200}\n{\"level\":\"ERROR\",\"status\":500}\n";
    let (out, hash, structured) = pack(text);
    assert!(structured);
    assert!(hash.is_empty());
    assert_eq!(&out[..4], b"LUMP");
    assert_eq!(out[4], 9);
    let back = LumpiEngine::decompress_buffer(&out).expect("unpack");
    assert_eq!(
        String::from_utf8(back).unwrap(),
        "{\"level\": \"INFO\", \"status\": 200}\n{\"level\": \"ERROR\", \"status\": 500}\n"
    );
}

#[test]
fn csv_unpacks_as_jsonl() {
    let text = "name,age,score\n\"bob\",42,1.5\nalice,-7,x\n";
    let (out, _, structured) = pack(text);
    assert!(structured);
    let back = LumpiEngine::decompress_buffer(&out).expect("unpack");
    assert_eq!(
        String::from_utf8(back).unwrap(),
        "{\"name\": \"bob\", \"age\": 42, \"score\": 1.5}\n{\"name\": \"alice\", \"age\": -7, \"score\": \"x\"}\n"
    );
}

#[test]
fn json_array_is_unwrapped() {
    let text = "[{\"a\": 1}, {\"a\": 2}]";
    let (out, _, structured) = pack(text);
    assert!(structured);
    let back = LumpiEngine::decompress_buffer(&out).expect("unpack");
    assert_eq!(String::from_utf8(back).unwrap(), "{\"a\": 1}\n{\"a\": 2}\n");
}

#[test]
fn null_and_floats_are_kept_as_literals() {
    let text = "{\"v\": null, \"f\": 2.50}\n";
    let (out, _, _) = pack(text);
    let back = LumpiEngine::decompress_buffer(&out).expect("unpack");
    assert_eq!(String::from_utf8(back).unwrap(), "{\"v\": null, \"f\": 2.50}\n");
}

#[test]
fn nested_json_falls_back_to_raw_and_is_byte_exact() {
    let text = "{\"a\": {\"b\": 1}}\n";
    let (out, hash, structured) = pack(text);
    assert!(!structured);
    assert_eq!(hash.len(), 64);
    assert_eq!(hash, lumpi::archive::sha256_hex(text.as_bytes()));
    assert_eq!(&out[6..10], &[0xff, 0xff, 0xff, 0xff]);
    assert_eq!(&out[10..74], hash.as_bytes());
    let back = LumpiEngine::decompress_buffer(&out).expect("unpack");
    assert_eq!(back, text.as_bytes());
}

#[test]
fn sha256_of_abc() {
    assert_eq!(
        lumpi::archive::sha256_hex(b"abc"),
        "ba7816bf8f01cfea414140de5dae2223b00361a396177a9cb410ff61f20015ad"
    );
}

#[test]
fn grep_structured_by_string_int_and_literal() {
    let text = "{\"level\": \"INFO\", \"code\": 7, \"f\": 1.5}\n{\"level\": \"ERROR\", \"code\": 9, \"f\": 2.5}\n";
    let (out, _, _) = pack(text);
    let m = LumpiEngine::grep_buffer(&out, b"level", b"ERROR").unwrap();
    assert_eq!(m, vec![b"{\"level\": \"ERROR\", \"code\": 9, \"f\": 2.5}\n".to_vec()]);
    let m = LumpiEngine::grep_buffer(&out, b"code", b"7").unwrap();
    assert_eq!(m, vec![b"{\"level\": \"INFO\", \"code\": 7, \"f\": 1.5}\n".to_vec()]);
    let m = LumpiEngine::grep_buffer(&out, b"f", b"2.5").unwrap();
    assert_eq!(m.len(), 1);
    let m = LumpiEngine::grep_buffer(&out, b"nokey", b"x").unwrap();
    assert!(m.is_empty());
    let m = LumpiEngine::grep_buffer(&out, b"level", b"DEBUG").unwrap();
    assert!(m.is_empty());
}

#[test]
fn grep_raw_archive_matches_lines() {
    let text = "{\"a\": {\"b\": 1}, \"k\": \"v\"}\n{\"a\": [1], \"k\": \"w\"}\n";
    let (out, _, structured) = pack(text);
    assert!(!structured);
    let m = LumpiEngine::grep_buffer(&out, b"k", b"w").unwrap();
    assert_eq!(m, vec![b"{\"a\": [1], \"k\": \"w\"}\n".to_vec()]);
}

#[test]
fn errors_of_bad_archives() {
    assert!(matches!(LumpiEngine::decompress_buffer(b"LUM"), Err(LumpiError::FileTooSmall)));
    assert!(matches!(LumpiEngine::decompress_buffer(b"NOPE\x09\x00\x00\x00\x00\x00"), Err(LumpiError::NotLumpFile)));
    assert!(matches!(
        LumpiEngine::decompress_buffer(b"LUMP\x08\x03\x00\x00\x00\x00"),
        Err(LumpiError::UnsupportedVersion(8, 3))
    ));
    assert!(matches!(LumpiEngine::decompress_buffer(b"LUMP\x09\x00\x00"), Err(LumpiError::Truncated)));
    let (mut out, _, _) = pack("{\"a\": {\"b\": 1}}\n");
    out[10] = 0xff;
    assert!(matches!(LumpiEngine::decompress_buffer(&out), Err(LumpiError::InvalidHash)));
    out[10] = b'0';
    assert!(matches!(LumpiEngine::decompress_buffer(&out), Err(LumpiError::IntegrityCheckFailed)));
    let (mut out, _, _) = pack("{\"a\": {\"b\": 1}}\n");
    let n = out.len();
    out[n - 3] ^= 0x55;
    out.truncate(n - 2);
    assert!(matches!(LumpiEngine::decompress_buffer(&out), Err(LumpiError::Zstd(_))));
}

#[test]
fn detect_format_and_labels() {
    assert_eq!(LumpiEngine::detect_format(b"  [1]"), InputFormat::JsonArray);
    assert_eq!(LumpiEngine::detect_format(b"\n{\"a\":1}"), InputFormat::JsonLines);
    assert_eq!(LumpiEngine::detect_format(b"   "), InputFormat::JsonLines);
    assert_eq!(LumpiEngine::detect_format(b"a,b\n1,2"), InputFormat::Csv);
    assert_eq!(InputFormat::JsonLines.label(), "JSONL");
    assert_eq!(InputFormat::JsonArray.label(), "JSON");
    assert_eq!(InputFormat::Csv.label(), "CSV");
    assert_eq!(LumpiEngine::strip_json_array(b" [ {\"a\":1} ] "), b" {\"a\":1} ");
}

#[test]
fn clear_empties_the_engine() {
    let mut engine = LumpiEngine::new();
    engine.compress_buffer(b"{\"a\": 1}\n", 1).unwrap();
    assert!(engine.was_structured());
    engine.clear();
    assert!(!engine.was_structured());
}

#[test]
fn high_cardinality_strings_become_literals() {
    let mut text = String::new();
    for i in 0..150 {
        text.push_str(&format!("{{\"id\": \"u{}\", \"lvl\": \"x\"}}\n", i));
    }
    let (out, _, _) = pack(&text);
    let back = LumpiEngine::decompress_buffer(&out).unwrap();
    assert_eq!(String::from_utf8(back).unwrap().replace(", ", ",").replace("\": ", "\":"), text.replace(", ", ",").replace("\": ", "\":"));
    let m = LumpiEngine::grep_buffer(&out, b"id", b"u149").unwrap();
    assert_eq!(m, vec![b"{\"id\": \"u149\", \"lvl\": \"x\"}\n".to_vec()]);
}

#[test]
fn many_rows_span_several_frames() {
    let mut text = String::new();
    for i in 0..70000u32 {
        text.push_str(&format!("{{\"n\": {}}}\n", i));
    }
    let (out, _, _) = pack(&text);
    let back = LumpiEngine::decompress_buffer(&out).unwrap();
    assert_eq!(String::from_utf8(back).unwrap(), text);
    let m = LumpiEngine::grep_buffer(&out, b"n", b"69999").unwrap();
    assert_eq!(m, vec![b"{\"n\": 69999}\n".to_vec()]);
}

#[test]
fn integers_are_normalized_and_whitespace_dropped() {
    let text = "{ \"n\" :  007 , \"m\": +5, \"z\": -0, \"big\": 99999999999999999999 }\n";
    let (out, _, structured) = pack(text);
    assert!(structured);
    let back = LumpiEngine::decompress_buffer(&out).unwrap();
    assert_eq!(
        String::from_utf8(back).unwrap(),
        "{\"n\": 7, \"m\": 5, \"z\": 0, \"big\": 99999999999999999999}\n"
    );
}

fn le32(p: &[u8], i: usize) -> usize {
    u32::from_le_bytes([p[i], p[i + 1], p[i + 2], p[i + 3]]) as usize
}

#[test]
fn a_skipped_frame_s_data_block_is_never_read() {
    let mut text = String::new();
    for _ in 0..65536u32 {
        text.push_str("{\"a\": 1}\n");
    }
    text.push_str("{\"b\": 2}\n");
    let (out, _, structured) = pack(&text);
    assert!(structured);
    let mut pos = 6;
    pos += 4 + le32(&out, pos);
    pos += 4 + le32(&out, pos);
    assert_eq!(le32(&out, pos), 2);
    pos += 4;
    assert_eq!(le32(&out, pos), 65536);
    let data_len_at = pos + 8 + le32(&out, pos + 4);
    let data_len = le32(&out, data_len_at);
    let mut spoiled = out.clone();
    for b in &mut spoiled[data_len_at + 4..data_len_at + 4 + data_len] {
        *b = 0xff;
    }
    let m = LumpiEngine::grep_buffer(&spoiled, b"b", b"2").unwrap();
    assert_eq!(m, vec![b"{\"b\": 2}\n".to_vec()]);
    assert_eq!(LumpiEngine::grep_buffer(&out, b"b", b"2").unwrap(), m);
    assert!(LumpiEngine::grep_buffer(&spoiled, b"a", b"1").is_err());
}

#[test]
fn search_results_are_unpacked_lines_in_order() {
    let text = "{\"k\": \"x\", \"n\": 1}\n{\"k\": \"y\"}\n{\"n\": 1, \"k\": \"x\"}\n{\"k\": 1}\n";
    let (out, _, structured) = pack(text);
    assert!(structured);
    let back = String::from_utf8(LumpiEngine::decompress_buffer(&out).unwrap()).unwrap();
    let lines: Vec<String> = back.split_inclusive('\n').map(|l| l.to_string()).collect();
    assert_eq!(lines.len(), 4);
    for (key, value, expected) in [("k", "x", 2usize), ("n", "1", 2), ("k", "1", 1), ("k", "z", 0)] {
        let found = LumpiEngine::grep_buffer(&out, key.as_bytes(), value.as_bytes()).unwrap();
        assert_eq!(found.len(), expected);
        let mut next = 0;
        for f in found {
            let f = String::from_utf8(f).unwrap();
            let at = lines[next..].iter().position(|l| *l == f).expect("a line of the unpacked text");
            next += at + 1;
        }
    }
}

#[test]
fn error_messages_and_magic() {
    assert_eq!(lumpi::archive::MAGIC, *b"LUMP");
    assert_eq!(LumpiError::FileTooSmall.message(), "file too small");
    assert_eq!(LumpiError::NotLumpFile.message(), "not a LUMP file");
    assert_eq!(LumpiError::UnsupportedVersion(8, 0).message(), "unsupported version 8.0, need 9.x");
    assert_eq!(LumpiError::UnsupportedVersion(255, 17).message(), "unsupported version 255.17, need 9.x");
    assert_eq!(LumpiError::Truncated.message(), "archive is truncated or corrupt");
    assert_eq!(LumpiError::Zstd("boom".to_string()).message(), "boom");
    let e = LumpiEngine::decompress_buffer(b"LUMP\x07\x03").unwrap_err();
    assert_eq!(e.message(), "unsupported version 7.3, need 9.x");
}

#[test]
fn hash_is_empty_exactly_when_columnar() {
    let (_, hash, structured) = pack("{\"a\": 1}\n");
    assert!(hash.is_empty() && structured);
    let (_, hash, structured) = pack("plain text\n");
    assert!(!hash.is_empty() && !structured);
}

#[test]
fn flat_json_lines_unpack_member_by_member() {
    let text = "  {\"a\":\"x \\\"y\\\"\",\"b\":1.5,\"c\\\\n\":-7}\n\n{\"d\":true,\"e\":null,\"f\":007}\n";
    let (out, hash, structured) = pack(text);
    assert!(structured && hash.is_empty());
    assert_eq!(
        String::from_utf8(LumpiEngine::decompress_buffer(&out).unwrap()).unwrap(),
        "{\"a\": \"x \\\"y\\\"\", \"b\": 1.5, \"c\\\\n\": -7}\n{\"d\": true, \"e\": null, \"f\": 7}\n"
    );
}
