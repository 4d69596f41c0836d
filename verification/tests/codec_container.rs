use hypostasis::Error;
use hypostasis::appstate::App;
use hypostasis::codec::{Document, parse_document, serialize_document};
use hypostasis::container::{compress, decompress};
use hypostasis::refset::parse_ref_set;
use hypostasis::report::{format_pair, merge_into};
use hypostasis::value::Value;

fn dict(entries: Vec<(&[u8], Value)>) -> Value {
    Value::Dict(entries.into_iter().map(|(k, v)| (k.to_vec(), v)).collect())
}

fn sample_root() -> Value {
    dict(vec![
        (b"null", Value::Null),
        (b"yes", Value::Bool(true)),
        (b"no", Value::Bool(false)),
        (b"i32", Value::I32(-123456)),
        (b"u32", Value::U32(0xDEADBEEF)),
        (b"i64", Value::I64(-9_000_000_000)),
        (b"u64", Value::U64(0xFFFF_FFFF_FFFF_FFFF)),
        (b"f32", Value::F32Bits(0x3F80_0000)),
        (b"f64", Value::F64Bits(0x3FF0_0000_0000_0000)),
        (b"text", Value::Str(b"hello world".to_vec())),
        (
            b"list",
            Value::Arr(vec![
                Value::U32(1),
                Value::Str(vec![]),
                Value::Arr(vec![Value::Null]),
                dict(vec![(b"inner", Value::I32(7))]),
            ]),
        ),
    ])
}

#[test]
fn document_round_trip_big_endian() {
    let doc = Document { root: sample_root(), big_endian: true };
    let bytes = serialize_document(&doc);
    assert_eq!(&bytes[0..2], b"BY");
    let back = parse_document(&bytes).expect("round trip parse");
    assert_eq!(back.root, sample_root());
    assert!(back.big_endian);
}

#[test]
fn document_round_trip_little_endian() {
    let doc = Document { root: sample_root(), big_endian: false };
    let bytes = serialize_document(&doc);
    assert_eq!(&bytes[0..2], b"YB");
    let back = parse_document(&bytes).expect("round trip parse");
    assert_eq!(back.root, sample_root());
    assert!(!back.big_endian);
}

#[test]
fn double_round_trip_is_stable() {
    let doc = Document { root: sample_root(), big_endian: true };
    let bytes = serialize_document(&doc);
    let once = parse_document(&bytes).unwrap();
    let bytes2 = serialize_document(&once);
    let twice = parse_document(&bytes2).unwrap();
    assert_eq!(bytes, bytes2);
    assert_eq!(once.root, twice.root);
    assert_eq!(once.big_endian, twice.big_endian);
}

#[test]
fn parse_rejects_unknown_marker() {
    assert_eq!(parse_document(&[0u8, 1, 2, 3]), Err(Error::Decode));
}

#[test]
fn parse_rejects_short_buffer() {
    assert_eq!(parse_document(&[66u8]), Err(Error::Decode));
}

#[test]
fn parse_rejects_trailing_bytes() {
    let doc = Document { root: dict(vec![]), big_endian: true };
    let mut bytes = serialize_document(&doc);
    bytes.push(0);
    assert_eq!(parse_document(&bytes), Err(Error::Decode));
}

#[test]
fn parse_rejects_non_map_root() {
    // order mark, then a lone null node
    let bytes = vec![66u8, 89u8, 0u8];
    assert_eq!(parse_document(&bytes), Err(Error::Decode));
}

#[test]
fn container_round_trip() {
    let raw = vec![0u8, 1, 2, 3, 254, 255];
    let packed = compress(&raw);
    assert_eq!(decompress(&packed), Ok(raw));
}

#[test]
fn container_round_trip_empty() {
    let raw: Vec<u8> = vec![];
    let packed = compress(&raw);
    assert_eq!(decompress(&packed), Ok(raw));
}

#[test]
fn decompress_rejects_bad_signature() {
    let raw = vec![9u8, 9, 9];
    let mut packed = compress(&raw);
    packed[0] = 88;
    assert_eq!(decompress(&packed), Err(Error::Format));
}

#[test]
fn decompress_rejects_wrong_length() {
    let raw = vec![9u8, 9, 9];
    let mut packed = compress(&raw);
    packed[11] = 7;
    assert_eq!(decompress(&packed), Err(Error::Format));
}

#[test]
fn decompress_rejects_short_input() {
    assert_eq!(decompress(&[67u8, 77, 80, 48]), Err(Error::Format));
}

#[test]
fn ref_set_parses_decimal_list() {
    let v = parse_ref_set(&b"1,22,333,4294967295".to_vec()).expect("well-formed list");
    assert_eq!(v, vec![1, 22, 333, 4294967295]);
}

#[test]
fn ref_set_rejects_malformed_text() {
    assert_eq!(parse_ref_set(&b"".to_vec()), None);
    assert_eq!(parse_ref_set(&b"1,,2".to_vec()), None);
    assert_eq!(parse_ref_set(&b"1,2,".to_vec()), None);
    assert_eq!(parse_ref_set(&b"12a".to_vec()), None);
    assert_eq!(parse_ref_set(&b"4294967296".to_vec()), None);
}

#[test]
fn format_pair_pads_to_two_digits() {
    assert_eq!(format_pair(5, 0xabc), b"0x05 => 0xabc".to_vec());
    assert_eq!(format_pair(0, 0), b"0x00 => 0x00".to_vec());
    assert_eq!(format_pair(255, 16), b"0xff => 0x10".to_vec());
    assert_eq!(format_pair(0xDEADBEEF, 1), b"0xdeadbeef => 0x01".to_vec());
}

#[test]
fn merge_into_deduplicates_pairs() {
    let mut report: Vec<(u32, u32)> = Vec::new();
    merge_into(&mut report, &vec![(1, 2), (3, 4)]);
    merge_into(&mut report, &vec![(3, 4), (5, 6)]);
    assert_eq!(report, vec![(1, 2), (3, 4), (5, 6)]);
}

#[test]
fn app_state_transitions() {
    let mut app = App::new();
    assert!(!app.show_error);
    assert!(app.error.is_none());
    assert_eq!(app.objects.len(), 0);
    app.set_folder(String::from("project"));
    assert_eq!(app.folder, "project");
    app.report_failure(String::from("bad file"));
    assert!(app.show_error);
    assert_eq!(app.error, Some(String::from("bad file")));
    app.dismiss_error();
    assert!(!app.show_error);
    assert!(app.error.is_none());
    app.report_success(vec![String::from("0x05 => 0x10")]);
    assert_eq!(app.objects, vec![String::from("0x05 => 0x10")]);
    assert!(!app.show_error);
}
