use lumpi::archive::LumpiError;
use lumpi::engine::LumpiEngine;
use lumpi::text::{packed_path, split_pattern, unpacked_path};

fn u32le(v: u32) -> [u8; 4] {
    v.to_le_bytes()
}

/// A columnar archive with one key `k`, an empty dictionary, and one frame of
/// one row whose single field has the given type byte and data block.
fn one_field_archive(type_byte: u8, data: &[u8]) -> Vec<u8> {
    let mut schema = Vec::new();
    schema.extend_from_slice(&u32le(1));
    schema.extend_from_slice(&u32le(1));
    schema.push(b'k');
    schema.extend_from_slice(&[0, 0]);
    let mut dict = Vec::new();
    dict.extend_from_slice(&u32le(0));
    dict.extend_from_slice(&u32le(0));
    let mut scan = Vec::new();
    scan.extend_from_slice(&u32le(1));
    scan.extend_from_slice(&u32le(0));
    scan.extend_from_slice(&[0, 0]);
    scan.push(type_byte);
    scan.extend_from_slice(&[1, 0]);
    let schema_z = zstd::encode_all(&schema[..], 3).unwrap();
    let dict_z = zstd::encode_all(&dict[..], 3).unwrap();
    let scan_z = zstd::encode_all(&scan[..], 3).unwrap();
    let data_z = zstd::encode_all(data, 3).unwrap();
    let mut out = b"LUMP\x09\x00".to_vec();
    out.extend_from_slice(&u32le(schema_z.len() as u32));
    out.extend_from_slice(&schema_z);
    out.extend_from_slice(&u32le(dict_z.len() as u32));
    out.extend_from_slice(&dict_z);
    out.extend_from_slice(&u32le(1));
    out.extend_from_slice(&u32le(1));
    out.extend_from_slice(&u32le(scan_z.len() as u32));
    out.extend_from_slice(&scan_z);
    out.extend_from_slice(&u32le(data_z.len() as u32));
    out.extend_from_slice(&data_z);
    out
}

#[test]
fn hand_written_archive_with_a_varint() {
    // varint block: one byte 0x54 = zigzag(42); no literals
    let mut data = Vec::new();
    data.extend_from_slice(&u32le(1));
    data.push(0x54);
    data.extend_from_slice(&u32le(0));
    data.extend_from_slice(&u32le(0));
    let out = one_field_archive(0, &data);
    let back = LumpiEngine::decompress_buffer(&out).unwrap();
    assert_eq!(back, b"{\"k\": 42}\n".to_vec());
    let found = LumpiEngine::grep_buffer(&out, b"k", b"42").unwrap();
    assert_eq!(found, vec![b"{\"k\": 42}\n".to_vec()]);
}

#[test]
fn hand_written_archive_with_a_literal() {
    let mut data = Vec::new();
    data.extend_from_slice(&u32le(0));
    data.extend_from_slice(&u32le(1));
    data.extend_from_slice(&[4, 0]);
    data.extend_from_slice(&u32le(4));
    data.extend_from_slice(b"true");
    let out = one_field_archive(2, &data);
    assert_eq!(LumpiEngine::decompress_buffer(&out).unwrap(), b"{\"k\": true}\n".to_vec());
    let out = one_field_archive(3, &data);
    assert_eq!(LumpiEngine::decompress_buffer(&out).unwrap(), b"{\"k\": \"true\"}\n".to_vec());
}

#[test]
fn unknown_type_byte_is_refused() {
    let mut data = Vec::new();
    data.extend_from_slice(&u32le(0));
    data.extend_from_slice(&u32le(0));
    data.extend_from_slice(&u32le(0));
    let out = one_field_archive(9, &data);
    assert!(matches!(LumpiEngine::decompress_buffer(&out), Err(LumpiError::UnknownTypeByte)));
}

#[test]
fn a_literal_past_its_block_is_truncated() {
    let mut data = Vec::new();
    data.extend_from_slice(&u32le(0));
    data.extend_from_slice(&u32le(1));
    data.extend_from_slice(&[9, 0]);
    data.extend_from_slice(&u32le(2));
    data.extend_from_slice(b"ab");
    let out = one_field_archive(2, &data);
    assert!(matches!(LumpiEngine::decompress_buffer(&out), Err(LumpiError::Truncated)));
}

#[test]
fn a_cut_archive_is_truncated() {
    let mut engine = LumpiEngine::new();
    let (out, _) = engine.compress_buffer(b"{\"a\": 1}\n{\"a\": 2}\n", 1).unwrap();
    let cut = &out[..out.len() - 5];
    assert!(matches!(LumpiEngine::decompress_buffer(cut), Err(LumpiError::Truncated)));
    assert!(matches!(LumpiEngine::grep_buffer(cut, b"a", b"1"), Err(LumpiError::Truncated)));
}

#[test]
fn header_errors_of_grep() {
    assert!(matches!(LumpiEngine::grep_buffer(b"LUMP", b"a", b"b"), Err(LumpiError::FileTooSmall)));
    assert!(matches!(LumpiEngine::grep_buffer(b"lump\x09\x00", b"a", b"b"), Err(LumpiError::NotLumpFile)));
}

#[test]
fn csv_with_too_many_fields_is_stored_raw() {
    let text = b"a,b\n1,2,3\n";
    let mut engine = LumpiEngine::new();
    let (out, hash) = engine.compress_buffer(text, 1).unwrap();
    assert!(!engine.was_structured());
    assert_eq!(hash.len(), 64);
    assert_eq!(LumpiEngine::decompress_buffer(&out).unwrap(), text.to_vec());
}

#[test]
fn empty_input_is_stored_raw() {
    let mut engine = LumpiEngine::new();
    let (out, hash) = engine.compress_buffer(b"", 1).unwrap();
    assert!(!engine.was_structured());
    assert_eq!(hash, "e3b0c44298fc1c149afbf4c8996fb92427ae41e4649b934ca495991b7852b855");
    assert_eq!(LumpiEngine::decompress_buffer(&out).unwrap(), Vec::<u8>::new());
}

#[test]
fn csv_blank_lines_and_crlf() {
    let text = b"x,y\r\n1,a\r\n\r\n  \n2,b\r\n";
    let mut engine = LumpiEngine::new();
    let (out, _) = engine.compress_buffer(text, 1).unwrap();
    assert!(engine.was_structured());
    assert_eq!(
        String::from_utf8(LumpiEngine::decompress_buffer(&out).unwrap()).unwrap(),
        "{\"x\": 1, \"y\": \"a\"}\n{\"x\": 2, \"y\": \"b\"}\n"
    );
}

#[test]
fn escaped_quotes_stay_in_strings() {
    let text = b"{\"msg\": \"say \\\"hi\\\"\", \"n\": 1}\n";
    let mut engine = LumpiEngine::new();
    let (out, _) = engine.compress_buffer(text, 1).unwrap();
    assert_eq!(
        String::from_utf8(LumpiEngine::decompress_buffer(&out).unwrap()).unwrap(),
        "{\"msg\": \"say \\\"hi\\\"\", \"n\": 1}\n"
    );
}

#[test]
fn a_value_that_is_also_a_dictionary_string_is_still_found_as_an_integer() {
    // "5" is a dictionary string of key `a`; key `k` holds 5 as an integer.
    let text = b"{\"a\": \"5\"}\n{\"k\": 5}\n";
    let mut engine = LumpiEngine::new();
    let (out, _) = engine.compress_buffer(text, 1).unwrap();
    assert_eq!(LumpiEngine::grep_buffer(&out, b"k", b"5").unwrap(), vec![b"{\"k\": 5}\n".to_vec()]);
    let text = b"{\"a\":5,\"b\":\"5\"}";
    let mut engine = LumpiEngine::new();
    let (out, _) = engine.compress_buffer(text, 1).unwrap();
    assert!(engine.was_structured());
    assert_eq!(
        LumpiEngine::grep_buffer(&out, b"a", b"5").unwrap(),
        vec![b"{\"a\": 5, \"b\": \"5\"}\n".to_vec()]
    );
    assert_eq!(
        LumpiEngine::grep_buffer(&out, b"b", b"5").unwrap(),
        vec![b"{\"a\": 5, \"b\": \"5\"}\n".to_vec()]
    );
}

#[test]
fn a_frame_without_the_string_is_skipped_but_loses_no_match() {
    let text = b"{\"a\": \"x\"}\n{\"a\": \"y\"}\n";
    let mut engine = LumpiEngine::new();
    let (out, _) = engine.compress_buffer(text, 1).unwrap();
    assert_eq!(LumpiEngine::grep_buffer(&out, b"a", b"y").unwrap(), vec![b"{\"a\": \"y\"}\n".to_vec()]);
    assert!(LumpiEngine::grep_buffer(&out, b"a", b"z").unwrap().is_empty());
    assert!(LumpiEngine::grep_buffer(&out, b"b", b"x").unwrap().is_empty());
}

fn assert_stored_raw(text: &[u8]) {
    let mut engine = LumpiEngine::new();
    let (out, hash) = engine.compress_buffer(text, 1).unwrap();
    assert!(!engine.was_structured());
    assert_eq!(hash.len(), 64);
    assert_eq!(LumpiEngine::decompress_buffer(&out).unwrap(), text.to_vec());
}

#[test]
fn text_cut_inside_an_object_is_stored_raw() {
    assert_stored_raw(b"{\"a\"");
    assert_stored_raw(b"{\"a\": 1}\n{\"b\": 2");
    assert_stored_raw(b"{\"a\": \"x\"");
}

#[test]
fn bytes_between_objects_are_not_dropped() {
    assert_stored_raw(b"{\"a\":1}\nxyz\n{\"a\":2}");
    assert_stored_raw(b"{\"a\":1}\nxyz");
    assert_stored_raw(b"{\"a\": 1, xyz \"b\": 2}\n");
    assert_stored_raw(b"{\"a\" xyz: 1}\n");
}

#[test]
fn empty_objects_are_kept_as_records() {
    let mut engine = LumpiEngine::new();
    let (out, hash) = engine.compress_buffer(b"{}\n{\"a\":1}", 1).unwrap();
    assert!(engine.was_structured());
    assert!(hash.is_empty());
    assert_eq!(LumpiEngine::decompress_buffer(&out).unwrap(), b"{}\n{\"a\": 1}\n".to_vec());
    let mut engine = LumpiEngine::new();
    let (out, _) = engine.compress_buffer(b"{\"a\":1}\n{ }\n", 1).unwrap();
    assert!(engine.was_structured());
    assert_eq!(LumpiEngine::decompress_buffer(&out).unwrap(), b"{\"a\": 1}\n{}\n".to_vec());
    assert_eq!(LumpiEngine::grep_buffer(&out, b"a", b"1").unwrap(), vec![b"{\"a\": 1}\n".to_vec()]);
    assert_stored_raw(b"{}\n{}\n");
}

#[test]
fn literals_too_long_for_their_length_field_are_stored_raw() {
    let mut text = b"{\"a\": 1.".to_vec();
    text.extend(std::iter::repeat(b'5').take(70000));
    text.extend_from_slice(b"}\n");
    assert_stored_raw(&text);
    let mut text = b"{\"a\": 1.".to_vec();
    text.extend(std::iter::repeat(b'5').take(60000));
    text.extend_from_slice(b"}\n");
    let mut engine = LumpiEngine::new();
    let (out, _) = engine.compress_buffer(&text, 1).unwrap();
    assert!(engine.was_structured());
    let mut expected = b"{\"a\": 1.".to_vec();
    expected.extend(std::iter::repeat(b'5').take(60000));
    expected.extend_from_slice(b"}\n");
    assert_eq!(LumpiEngine::decompress_buffer(&out).unwrap(), expected);
}

fn unpack_csv(text: &[u8]) -> String {
    let mut engine = LumpiEngine::new();
    let (out, hash) = engine.compress_buffer(text, 1).unwrap();
    assert!(engine.was_structured());
    assert!(hash.is_empty());
    String::from_utf8(LumpiEngine::decompress_buffer(&out).unwrap()).unwrap()
}

#[test]
fn csv_strings_are_escaped_for_json() {
    assert_eq!(unpack_csv(b"x\na\"b\n"), "{\"x\": \"a\\\"b\"}\n");
    assert_eq!(unpack_csv(b"x\n\"a\\b\"\n"), "{\"x\": \"a\\\\b\"}\n");
    assert_eq!(unpack_csv(b"x\"y\n1\n"), "{\"x\\\"y\": 1}\n");
    assert_eq!(unpack_csv(b"x\na\tb\n"), "{\"x\": \"a\\u0009b\"}\n");
    assert_eq!(unpack_csv(b"x\na\x1fb\n"), "{\"x\": \"a\\u001fb\"}\n");
}

#[test]
fn keys_with_escaped_quotes_are_stored_raw() {
    assert_stored_raw(b"{\"a\\\"b\": 1}\n");
}

#[test]
fn keys_with_other_escapes_are_kept() {
    let text = b"{\"a\\nb\": 1, \"c\\\\\": 2}\n";
    let mut engine = LumpiEngine::new();
    let (out, _) = engine.compress_buffer(text, 1).unwrap();
    assert!(engine.was_structured());
    assert_eq!(LumpiEngine::decompress_buffer(&out).unwrap(), text.to_vec());
}

#[test]
fn objects_separated_by_commas_and_spaces_are_columnar() {
    let text = b"  {\"a\":1} , {\"a\" :\t2}\n\n";
    let mut engine = LumpiEngine::new();
    let (out, _) = engine.compress_buffer(text, 1).unwrap();
    assert!(engine.was_structured());
    assert_eq!(LumpiEngine::decompress_buffer(&out).unwrap(), b"{\"a\": 1}\n{\"a\": 2}\n".to_vec());
}

#[test]
fn csv_fields_that_are_not_json_numbers_are_strings() {
    let mut engine = LumpiEngine::new();
    let (out, _) = engine.compress_buffer(b"x\n-\n1-2\n12\n1.5\n-0.25e+3\n1.\n01.5\n", 1).unwrap();
    assert!(engine.was_structured());
    assert_eq!(
        String::from_utf8(LumpiEngine::decompress_buffer(&out).unwrap()).unwrap(),
        "{\"x\": \"-\"}\n{\"x\": \"1-2\"}\n{\"x\": 12}\n{\"x\": 1.5}\n{\"x\": -0.25e+3}\n{\"x\": \"1.\"}\n{\"x\": \"01.5\"}\n"
    );
}

#[test]
fn patterns_and_paths() {
    assert_eq!(split_pattern(b"level=ERROR"), Some((&b"level"[..], &b"ERROR"[..])));
    assert_eq!(split_pattern(b"a=b=c"), Some((&b"a"[..], &b"b=c"[..])));
    assert_eq!(split_pattern(b"=x"), Some((&b""[..], &b"x"[..])));
    assert_eq!(split_pattern(b"novalue"), None);
    assert_eq!(packed_path(b"logs.jsonl"), b"logs.jsonl.lmp".to_vec());
    assert_eq!(unpacked_path(b"logs.jsonl.lmp"), b"logs.jsonl".to_vec());
    assert_eq!(unpacked_path(b"logs.bin"), b"logs.bin.out".to_vec());
    assert_eq!(unpacked_path(b"lmp"), b"lmp.out".to_vec());
}

#[test]
fn repacking_after_clear_gives_the_same_archive() {
    let text = b"{\"a\": \"x\", \"b\": 3}\n{\"a\": \"y\", \"b\": -3}\n";
    let mut engine = LumpiEngine::new();
    let (first, _) = engine.compress_buffer(text, 1).unwrap();
    engine.clear();
    let (second, _) = engine.compress_buffer(text, 1).unwrap();
    assert_eq!(first, second);
}
