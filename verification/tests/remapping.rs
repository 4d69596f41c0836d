use hypostasis::Error;
use hypostasis::codec::{Document, parse_document, serialize_document};
use hypostasis::container::{compress, decompress};
use hypostasis::pipeline::process_buffer;
use hypostasis::remap::{object_new_id, remap_document, tbl_find};
use hypostasis::value::Value;

fn dict(entries: Vec<(&[u8], Value)>) -> Value {
    Value::Dict(entries.into_iter().map(|(k, v)| (k.to_vec(), v)).collect())
}

fn entry_with_id(id: u32) -> Value {
    dict(vec![(b"HashId", Value::U32(id))])
}

fn link_to(id: u32) -> Value {
    dict(vec![(b"DestUnitHashId", Value::U32(id))])
}

fn doc_with_objs(objs: Vec<Value>) -> Document {
    Document { root: dict(vec![(b"Objs", Value::Arr(objs))]), big_endian: true }
}

fn get(entries: &Value, key: &[u8]) -> Value {
    match entries {
        Value::Dict(es) => {
            for (k, v) in es {
                if k.as_slice() == key {
                    return clone_value(v);
                }
            }
            panic!("key missing");
        }
        _ => panic!("not a map"),
    }
}

fn clone_value(v: &Value) -> Value {
    match v {
        Value::Null => Value::Null,
        Value::Bool(b) => Value::Bool(*b),
        Value::I32(x) => Value::I32(*x),
        Value::U32(x) => Value::U32(*x),
        Value::I64(x) => Value::I64(*x),
        Value::U64(x) => Value::U64(*x),
        Value::F32Bits(x) => Value::F32Bits(*x),
        Value::F64Bits(x) => Value::F64Bits(*x),
        Value::Str(s) => Value::Str(s.clone()),
        Value::Arr(items) => Value::Arr(items.iter().map(clone_value).collect()),
        Value::Dict(es) => Value::Dict(
            es.iter().map(|(k, v)| (k.clone(), clone_value(v))).collect(),
        ),
    }
}

fn nth_obj(doc: &Document, i: usize) -> Value {
    match get(&doc.root, b"Objs") {
        Value::Arr(objs) => clone_value(&objs[i]),
        _ => panic!("object list is not an array"),
    }
}

#[test]
fn checksum_is_deterministic() {
    let a = entry_with_id(5);
    let b = entry_with_id(5);
    assert_eq!(object_new_id(&a), object_new_id(&a));
    assert_eq!(object_new_id(&a), object_new_id(&b));
}

#[test]
fn remap_rewrites_link_and_own_id() {
    // an object with identifier 5, and another whose link targets it
    let expected_x = object_new_id(&entry_with_id(5));
    let doc = doc_with_objs(vec![
        entry_with_id(5),
        dict(vec![
            (b"HashId", Value::U32(9)),
            (b"LinksToObj", Value::Arr(vec![link_to(5)])),
        ]),
    ]);
    let refs: Vec<u32> = vec![];
    let (out, tbl) = remap_document(doc, &refs).expect("remap");
    assert_eq!(tbl_find(&tbl, 5), Some(expected_x));
    // the link now targets the new identifier
    let second = nth_obj(&out, 1);
    match get(&second, b"LinksToObj") {
        Value::Arr(links) => {
            assert_eq!(get(&links[0], b"DestUnitHashId"), Value::U32(expected_x));
        }
        _ => panic!("links are not an array"),
    }
    // the object's own advertised identifier follows its new identifier,
    // so the document stays internally consistent
    let first = nth_obj(&out, 0);
    assert_eq!(get(&first, b"HashId"), Value::U32(expected_x));
}

#[test]
fn reference_set_member_is_never_remapped() {
    let doc = doc_with_objs(vec![
        entry_with_id(5),
        dict(vec![
            (b"HashId", Value::U32(9)),
            (b"LinksToObj", Value::Arr(vec![link_to(5)])),
        ]),
    ]);
    let refs: Vec<u32> = vec![5];
    let (out, tbl) = remap_document(doc, &refs).expect("remap");
    // 5 never appears as an old identifier
    assert_eq!(tbl_find(&tbl, 5), None);
    // the object and the link that targets it are untouched
    assert_eq!(get(&nth_obj(&out, 0), b"HashId"), Value::U32(5));
    match get(&nth_obj(&out, 1), b"LinksToObj") {
        Value::Arr(links) => {
            assert_eq!(get(&links[0], b"DestUnitHashId"), Value::U32(5));
        }
        _ => panic!("links are not an array"),
    }
}

#[test]
fn every_foreign_id_is_recorded() {
    let doc = doc_with_objs(vec![entry_with_id(5), entry_with_id(6)]);
    let refs: Vec<u32> = vec![];
    let (_, tbl) = remap_document(doc, &refs).expect("remap");
    assert!(tbl_find(&tbl, 5).is_some());
    assert!(tbl_find(&tbl, 6).is_some());
    assert_eq!(tbl.len(), 2);
}

#[test]
fn entry_without_usable_id_is_skipped() {
    let doc = doc_with_objs(vec![
        dict(vec![]),
        dict(vec![(b"HashId", Value::Str(b"nope".to_vec()))]),
        entry_with_id(7),
    ]);
    let refs: Vec<u32> = vec![];
    let (_, tbl) = remap_document(doc, &refs).expect("remap");
    assert_eq!(tbl.len(), 1);
    assert!(tbl_find(&tbl, 7).is_some());
}

#[test]
fn remap_fails_without_object_list() {
    let doc = Document { root: dict(vec![]), big_endian: true };
    let refs: Vec<u32> = vec![];
    assert!(matches!(remap_document(doc, &refs), Err(Error::Schema)));
}

#[test]
fn remap_fails_when_object_list_is_not_an_array() {
    let doc = Document {
        root: dict(vec![(b"Objs", Value::U32(1))]),
        big_endian: true,
    };
    let refs: Vec<u32> = vec![];
    assert!(matches!(remap_document(doc, &refs), Err(Error::Schema)));
}

#[test]
fn remap_fails_on_entry_that_is_not_a_map() {
    let doc = doc_with_objs(vec![Value::U32(3)]);
    let refs: Vec<u32> = vec![];
    assert!(matches!(remap_document(doc, &refs), Err(Error::Schema)));
}

#[test]
fn remap_fails_on_malformed_link_record() {
    let doc = doc_with_objs(vec![dict(vec![
        (b"HashId", Value::U32(9)),
        (b"LinksToObj", Value::Arr(vec![dict(vec![])])),
    ])]);
    let refs: Vec<u32> = vec![];
    assert!(matches!(remap_document(doc, &refs), Err(Error::Schema)));
}

#[test]
fn link_outside_table_is_untouched() {
    let doc = doc_with_objs(vec![dict(vec![
        (b"HashId", Value::U32(9)),
        (b"LinksToObj", Value::Arr(vec![link_to(1234)])),
    ])]);
    let refs: Vec<u32> = vec![9];
    let (out, tbl) = remap_document(doc, &refs).expect("remap");
    assert_eq!(tbl.len(), 0);
    match get(&nth_obj(&out, 0), b"LinksToObj") {
        Value::Arr(links) => {
            assert_eq!(get(&links[0], b"DestUnitHashId"), Value::U32(1234));
        }
        _ => panic!("links are not an array"),
    }
}

#[test]
fn process_buffer_runs_the_whole_pipeline() {
    let expected_x = object_new_id(&entry_with_id(5));
    let doc = doc_with_objs(vec![
        entry_with_id(5),
        dict(vec![
            (b"HashId", Value::U32(9)),
            (b"LinksToObj", Value::Arr(vec![link_to(5)])),
        ]),
    ]);
    let raw = serialize_document(&doc);
    let packed = compress(&raw);
    let refs: Vec<u32> = vec![9];
    let (out_packed, tbl) = process_buffer(&packed, &refs).expect("pipeline");
    assert_eq!(tbl, vec![(5, expected_x)]);
    let out_raw = decompress(&out_packed).expect("unpack");
    let out_doc = parse_document(&out_raw).expect("reparse");
    assert!(out_doc.big_endian);
    assert_eq!(get(&nth_obj(&out_doc, 0), b"HashId"), Value::U32(expected_x));
    match get(&nth_obj(&out_doc, 1), b"LinksToObj") {
        Value::Arr(links) => {
            assert_eq!(get(&links[0], b"DestUnitHashId"), Value::U32(expected_x));
        }
        _ => panic!("links are not an array"),
    }
}

#[test]
fn process_buffer_reports_stage_errors() {
    let refs: Vec<u32> = vec![];
    assert!(matches!(process_buffer(&[1u8, 2, 3], &refs), Err(Error::Format)));
    let packed = compress(&vec![1u8, 2, 3]);
    assert!(matches!(process_buffer(&packed, &refs), Err(Error::Decode)));
    let doc = Document { root: dict(vec![]), big_endian: false };
    let packed2 = compress(&serialize_document(&doc));
    assert!(matches!(process_buffer(&packed2, &refs), Err(Error::Schema)));
}
