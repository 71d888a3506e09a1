use cbor_ffi::access::{
    array_at, as_bytes, as_signed, as_simple, as_string, as_tag, bytes_value, copy_value,
    keys_are_usable, kind_of, map_at, map_entry_at, map_value, owned_value, simple_value, size,
    string_value, tag_at, usable_as_key,
};
use cbor_ffi::document::{parse, serialize};
use cbor_ffi::error::CborError;
use cbor_ffi::format::Mode;
use cbor_ffi::value::{CborValue, Payload};
use cbor_ffi::{
    capped, is_reserved_simple, KIND_ARRAY, KIND_BYTES, KIND_MAP, KIND_SIGNED, KIND_SIMPLE,
    KIND_STRING, KIND_TAGGED, MAX_DEPTH_LIMIT, STATUS_KEY_NOT_FOUND, STATUS_OUT_OF_BOUND,
    STATUS_TYPE_MISMATCH,
};

fn text(s: &str) -> CborValue<'static> {
    CborValue::TextString(Payload::Owned(s.as_bytes().to_vec()))
}

fn owned_bytes(b: &[u8]) -> CborValue<'static> {
    CborValue::ByteString(Payload::Owned(b.to_vec()))
}

fn sample_map() -> CborValue<'static> {
    // {1: "one", "k": h'0102', 1: "again"}
    CborValue::CborMap(vec![
        (CborValue::Int(1), text("one")),
        (text("k"), owned_bytes(&[1, 2])),
        (CborValue::Int(1), text("again")),
    ])
}

#[test]
fn capped_clamps_to_the_limit() {
    assert_eq!(capped(0), 0);
    assert_eq!(capped(17), 17);
    assert_eq!(capped(MAX_DEPTH_LIMIT), MAX_DEPTH_LIMIT);
    assert_eq!(capped(usize::MAX), MAX_DEPTH_LIMIT);
}

#[test]
fn reserved_simple_values_are_24_to_31() {
    assert!(!is_reserved_simple(23));
    assert!(is_reserved_simple(24));
    assert!(is_reserved_simple(31));
    assert!(!is_reserved_simple(32));
}

#[test]
fn kinds_are_reported() {
    assert_eq!(kind_of(&CborValue::Int(-3)), KIND_SIGNED);
    assert_eq!(kind_of(&owned_bytes(&[])), KIND_BYTES);
    assert_eq!(kind_of(&text("x")), KIND_STRING);
    assert_eq!(kind_of(&CborValue::Array(vec![])), KIND_ARRAY);
    assert_eq!(kind_of(&sample_map()), KIND_MAP);
    let tagged = CborValue::Tagged { tag: 1, payload: Box::new(CborValue::Int(0)) };
    assert_eq!(kind_of(&tagged), KIND_TAGGED);
    assert_eq!(kind_of(&CborValue::Simple(20)), KIND_SIMPLE);
}

#[test]
fn string_values_must_be_utf8() {
    assert_eq!(string_value("é".as_bytes()), Some(text("é")));
    assert_eq!(string_value(b""), Some(text("")));
    assert_eq!(string_value(&[0xff]), None);
    assert_eq!(string_value(&[0xc3]), None);
}

#[test]
fn bytes_values_copy_their_payload() {
    let payload = [9u8, 8, 7];
    assert_eq!(bytes_value(&payload), owned_bytes(&[9, 8, 7]));
}

#[test]
fn reserved_simple_values_cannot_be_built() {
    assert_eq!(simple_value(20), Some(CborValue::Simple(20)));
    assert_eq!(simple_value(24), None);
    assert_eq!(simple_value(31), None);
    assert_eq!(simple_value(255), Some(CborValue::Simple(255)));
}

#[test]
fn maps_pair_up_their_items() {
    let m = map_value(vec![CborValue::Int(1), text("a"), text("b"), CborValue::Int(2)]).unwrap();
    assert_eq!(
        m,
        CborValue::CborMap(vec![(CborValue::Int(1), text("a")), (text("b"), CborValue::Int(2))])
    );
    assert_eq!(map_value(vec![]), Some(CborValue::CborMap(vec![])));
}

#[test]
fn maps_refuse_container_keys() {
    assert_eq!(map_value(vec![CborValue::Array(vec![]), CborValue::Int(0)]), None);
    let tagged = CborValue::Tagged { tag: 2, payload: Box::new(CborValue::Int(0)) };
    assert_eq!(map_value(vec![CborValue::Int(0), CborValue::Int(0), tagged, CborValue::Int(0)]), None);
    // A container as a value is fine.
    assert!(map_value(vec![CborValue::Int(0), CborValue::Array(vec![])]).is_some());
}

#[test]
fn key_usability() {
    assert!(usable_as_key(&CborValue::Int(0)));
    assert!(usable_as_key(&CborValue::Simple(22)));
    assert!(!usable_as_key(&CborValue::Array(vec![])));
    assert!(!usable_as_key(&sample_map()));
    assert!(keys_are_usable(&sample_map()));
    let nested = CborValue::Array(vec![CborValue::CborMap(vec![(
        CborValue::Array(vec![]),
        CborValue::Int(0),
    )])]);
    assert!(!keys_are_usable(&nested));
}

#[test]
fn copies_are_equal() {
    let v = CborValue::Array(vec![sample_map(), CborValue::Tagged { tag: 5, payload: Box::new(text("t")) }]);
    assert_eq!(copy_value(&v), v);
}

#[test]
fn scalar_accessors() {
    assert_eq!(as_signed(&CborValue::Int(-9)), Ok(-9));
    assert_eq!(as_signed(&text("x")), Err(STATUS_TYPE_MISMATCH));
    assert_eq!(as_simple(&CborValue::Simple(21)), Ok(21));
    assert_eq!(as_simple(&CborValue::Int(21)), Err(STATUS_TYPE_MISMATCH));
    assert_eq!(as_bytes(&owned_bytes(&[4, 5])), Ok(&[4u8, 5][..]));
    assert_eq!(as_bytes(&text("x")), Err(STATUS_TYPE_MISMATCH));
    assert_eq!(as_string(&text("hi")), Ok(&b"hi"[..]));
    assert_eq!(as_string(&owned_bytes(&[])), Err(STATUS_TYPE_MISMATCH));
    let tagged = CborValue::Tagged { tag: 32, payload: Box::new(text("u")) };
    assert_eq!(as_tag(&tagged), Ok(32));
    assert_eq!(as_tag(&CborValue::Int(0)), Err(STATUS_TYPE_MISMATCH));
}

#[test]
fn container_accessors() {
    let arr = CborValue::Array(vec![CborValue::Int(10), CborValue::Int(20)]);
    assert_eq!(size(&arr), Ok(2));
    assert_eq!(size(&sample_map()), Ok(3));
    assert_eq!(size(&CborValue::Int(0)), Err(STATUS_TYPE_MISMATCH));
    assert_eq!(array_at(&arr, 1), Ok(&CborValue::Int(20)));
    assert_eq!(array_at(&arr, 2), Err(STATUS_OUT_OF_BOUND));
    assert_eq!(array_at(&sample_map(), 0), Err(STATUS_TYPE_MISMATCH));
    let m = sample_map();
    assert_eq!(map_entry_at(&m, 1, true), Ok(&text("k")));
    assert_eq!(map_entry_at(&m, 1, false), Ok(&owned_bytes(&[1, 2])));
    assert_eq!(map_entry_at(&m, 3, true), Err(STATUS_OUT_OF_BOUND));
    assert_eq!(map_entry_at(&arr, 0, false), Err(STATUS_TYPE_MISMATCH));
}

#[test]
fn map_lookup_finds_the_first_matching_key() {
    let m = sample_map();
    assert_eq!(map_at(&m, &CborValue::Int(1)), Ok(&text("one")));
    assert_eq!(map_at(&m, &text("k")), Ok(&owned_bytes(&[1, 2])));
    assert_eq!(map_at(&m, &CborValue::Int(2)), Err(STATUS_KEY_NOT_FOUND));
    assert_eq!(map_at(&m, &text("K")), Err(STATUS_KEY_NOT_FOUND));
    assert_eq!(map_at(&m, &CborValue::Array(vec![])), Err(STATUS_TYPE_MISMATCH));
    assert_eq!(map_at(&CborValue::Int(1), &CborValue::Int(1)), Err(STATUS_TYPE_MISMATCH));
}

#[test]
fn tag_lookup_checks_the_tag() {
    let tagged = CborValue::Tagged { tag: 7, payload: Box::new(CborValue::Int(3)) };
    assert_eq!(tag_at(&tagged, 7), Ok(&CborValue::Int(3)));
    assert_eq!(tag_at(&tagged, 8), Err(STATUS_KEY_NOT_FOUND));
    assert_eq!(tag_at(&CborValue::Int(3), 7), Err(STATUS_TYPE_MISMATCH));
}

#[test]
fn serialize_writes_exact_bytes() {
    let v = CborValue::Array(vec![
        CborValue::Int(0),
        CborValue::Int(23),
        CborValue::Int(24),
        CborValue::Int(-1),
        CborValue::Int(-25),
        CborValue::Int(1000),
        CborValue::Int(i64::MIN),
        CborValue::Simple(21),
        CborValue::Simple(100),
        text("a"),
        CborValue::Tagged { tag: 1, payload: Box::new(CborValue::Int(2)) },
    ]);
    let expected = vec![
        0x8b, 0x00, 0x17, 0x18, 0x18, 0x20, 0x38, 0x18, 0x19, 0x03, 0xe8, 0x3b, 0x7f, 0xff,
        0xff, 0xff, 0xff, 0xff, 0xff, 0xff, 0xf5, 0xf8, 0x64, 0x61, 0x61, 0xc1, 0x02,
    ];
    assert_eq!(serialize(&v, Mode::Nondet, 8), Ok(expected.clone()));
    assert_eq!(serialize(&v, Mode::Det, 8), Ok(expected));
}

#[test]
fn det_serialization_sorts_map_keys_by_encoding() {
    // {"b": 0, 10: 1, -1: 2, "a": 3}
    let v = CborValue::CborMap(vec![
        (text("b"), CborValue::Int(0)),
        (CborValue::Int(10), CborValue::Int(1)),
        (CborValue::Int(-1), CborValue::Int(2)),
        (text("a"), CborValue::Int(3)),
    ]);
    assert_eq!(
        serialize(&v, Mode::Nondet, 4),
        Ok(vec![0xa4, 0x61, 0x62, 0x00, 0x0a, 0x01, 0x20, 0x02, 0x61, 0x61, 0x03])
    );
    assert_eq!(
        serialize(&v, Mode::Det, 4),
        Ok(vec![0xa4, 0x0a, 0x01, 0x20, 0x02, 0x61, 0x61, 0x03, 0x61, 0x62, 0x00])
    );
}

#[test]
fn det_serialization_rejects_duplicate_keys() {
    let v = CborValue::CborMap(vec![
        (CborValue::Int(1), CborValue::Int(0)),
        (CborValue::Int(1), CborValue::Int(2)),
    ]);
    assert_eq!(serialize(&v, Mode::Det, 4), Err(CborError::DuplicateMapKey));
    assert_eq!(serialize(&v, Mode::Nondet, 4), Ok(vec![0xa2, 0x01, 0x00, 0x01, 0x02]));
}

#[test]
fn reserved_simple_values_cannot_be_serialized() {
    assert_eq!(serialize(&CborValue::Simple(24), Mode::Nondet, 4), Err(CborError::ReservedSimple));
}

#[test]
fn serialize_depth_limit() {
    let v = CborValue::Array(vec![CborValue::Array(vec![CborValue::Int(0)])]);
    assert_eq!(serialize(&v, Mode::Nondet, 2), Ok(vec![0x81, 0x81, 0x00]));
    assert_eq!(serialize(&v, Mode::Nondet, 1), Err(CborError::DepthExceeded { limit: 1 }));
}

fn parse_err(bytes: &[u8], mode: Mode) -> CborError {
    parse(bytes, mode, 16).unwrap_err()
}

#[test]
fn parse_reports_each_malformation() {
    assert_eq!(parse_err(&[], Mode::Nondet), CborError::UnexpectedEnd);
    assert_eq!(parse_err(&[0x18], Mode::Nondet), CborError::UnexpectedEnd);
    assert_eq!(parse_err(&[0x62, 0x61], Mode::Nondet), CborError::UnexpectedEnd);
    assert_eq!(parse_err(&[0x00, 0x00], Mode::Nondet), CborError::TrailingBytes);
    assert_eq!(parse_err(&[0x5f], Mode::Nondet), CborError::IndefiniteLength);
    assert_eq!(parse_err(&[0x9f], Mode::Nondet), CborError::IndefiniteLength);
    assert_eq!(parse_err(&[0xff], Mode::Nondet), CborError::UnexpectedBreak);
    assert_eq!(parse_err(&[0x1c], Mode::Nondet), CborError::ReservedInfo);
    assert_eq!(parse_err(&[0xf9, 0x00, 0x00], Mode::Nondet), CborError::UnsupportedFloat);
    assert_eq!(parse_err(&[0xf8, 0x10], Mode::Nondet), CborError::InvalidSimpleEncoding);
    assert_eq!(
        parse_err(&[0x1b, 0xff, 0xff, 0xff, 0xff, 0xff, 0xff, 0xff, 0xff], Mode::Nondet),
        CborError::IntegerOutOfRange
    );
    assert_eq!(parse_err(&[0x61, 0xff], Mode::Nondet), CborError::InvalidUtf8);
    assert_eq!(parse_err(&[0xa1, 0x80, 0x00], Mode::Nondet), CborError::ContainerKey);
}

#[test]
fn det_parse_rejects_non_canonical_input() {
    assert_eq!(parse(&[0x18, 0x01], Mode::Nondet, 4), Ok(CborValue::Int(1)));
    assert_eq!(parse_err(&[0x18, 0x01], Mode::Det), CborError::NonCanonicalHead);
    assert_eq!(parse_err(&[0xa2, 0x02, 0x00, 0x01, 0x00], Mode::Det), CborError::MapKeyOrder);
    assert_eq!(parse_err(&[0xa2, 0x01, 0x00, 0x01, 0x00], Mode::Det), CborError::MapKeyOrder);
    assert_eq!(
        parse(&[0xa2, 0x01, 0x00, 0x02, 0x00], Mode::Det, 4),
        Ok(CborValue::CborMap(vec![
            (CborValue::Int(1), CborValue::Int(0)),
            (CborValue::Int(2), CborValue::Int(0)),
        ]))
    );
}

#[test]
fn parse_reads_extreme_integers() {
    let min = [0x3b, 0x7f, 0xff, 0xff, 0xff, 0xff, 0xff, 0xff, 0xff];
    assert_eq!(parse(&min, Mode::Det, 1), Ok(CborValue::Int(i64::MIN)));
    let max = [0x1b, 0x7f, 0xff, 0xff, 0xff, 0xff, 0xff, 0xff, 0xff];
    assert_eq!(parse(&max, Mode::Det, 1), Ok(CborValue::Int(i64::MAX)));
    let below = [0x3b, 0x80, 0x00, 0x00, 0x00, 0x00, 0x00, 0x00, 0x00];
    assert_eq!(parse(&below, Mode::Nondet, 1), Err(CborError::IntegerOutOfRange));
}

fn nested_arrays(depth: usize) -> Vec<u8> {
    let mut bytes = vec![0x81; depth];
    bytes.push(0x00);
    bytes
}

#[test]
fn parse_depth_is_capped() {
    // 300 arrays around an integer: 301 levels.
    let deep = nested_arrays(300);
    assert_eq!(
        parse(&deep, Mode::Nondet, usize::MAX),
        Err(CborError::DepthExceeded { limit: MAX_DEPTH_LIMIT })
    );
    let fits = nested_arrays(MAX_DEPTH_LIMIT);
    assert!(parse(&fits, Mode::Nondet, usize::MAX).is_ok());
    assert!(parse(&nested_arrays(2), Mode::Nondet, 2).is_ok());
    assert_eq!(parse(&nested_arrays(3), Mode::Nondet, 2), Err(CborError::DepthExceeded { limit: 2 }));
}

#[test]
fn nondet_round_trip_gives_back_the_value() {
    let v = CborValue::Array(vec![
        sample_map(),
        CborValue::Tagged { tag: 1_000_000, payload: Box::new(CborValue::Int(-70_000)) },
        CborValue::Simple(22),
        owned_bytes(&[0; 30]),
    ]);
    let bytes = serialize(&v, Mode::Nondet, 8).unwrap();
    assert_eq!(parse(&bytes, Mode::Nondet, 8), Ok(v));
}

#[test]
fn det_serialization_is_det_parseable_and_stable() {
    let v = CborValue::CborMap(vec![
        (text("zz"), CborValue::Array(vec![CborValue::Int(300)])),
        (CborValue::Int(-5), CborValue::Simple(20)),
        (owned_bytes(&[1]), CborValue::Int(0)),
    ]);
    let bytes = serialize(&v, Mode::Det, 8).unwrap();
    let parsed = parse(&bytes, Mode::Det, 8).unwrap();
    assert_eq!(serialize(&parsed, Mode::Det, 8), Ok(bytes.clone()));
    assert_eq!(serialize(&parsed, Mode::Nondet, 8), Ok(bytes));
}

#[test]
fn det_parsed_input_serializes_to_itself() {
    let canonical = [0xa2, 0x01, 0x82, 0x18, 0x18, 0x40, 0x61, 0x61, 0xc2, 0x41, 0x00];
    let parsed = parse(&canonical, Mode::Det, 8).unwrap();
    assert_eq!(serialize(&parsed, Mode::Det, 8), Ok(canonical.to_vec()));
}

#[test]
fn error_messages() {
    assert_eq!(CborError::TrailingBytes.message(), "Trailing bytes after the CBOR item");
    assert_eq!(
        CborError::DepthExceeded { limit: 256 }.message(),
        "Maximum CBOR nesting depth exceeded (limit 256)"
    );
    assert_eq!(CborError::UnknownNodeType { node_type: 9 }.message(), "Unknown CBOR node type 9");
}

#[test]
fn serialize_depth_is_capped() {
    let mut v = CborValue::Int(0);
    for _ in 0..300 {
        v = CborValue::Array(vec![v]);
    }
    assert_eq!(
        serialize(&v, Mode::Nondet, usize::MAX),
        Err(CborError::DepthExceeded { limit: MAX_DEPTH_LIMIT })
    );
    let mut w = CborValue::Int(0);
    for _ in 0..MAX_DEPTH_LIMIT {
        w = CborValue::Tagged { tag: 0, payload: Box::new(w) };
    }
    assert!(serialize(&w, Mode::Det, usize::MAX).is_ok());
}

#[test]
fn det_accepted_documents_read_the_same_without_checks() {
    let canonical = [0xa2, 0x20, 0x61, 0x78, 0x63, 0x61, 0x62, 0x63, 0x83, 0x01, 0x02, 0x03];
    let det = parse(&canonical, Mode::Det, 4).unwrap();
    assert_eq!(parse(&canonical, Mode::Nondet, 4), Ok(det));
}

#[test]
fn every_parsed_key_can_be_looked_up() {
    let encoded = [0xa3, 0x01, 0x61, 0x61, 0x42, 0x00, 0x01, 0x02, 0xf5, 0x03];
    let m = parse(&encoded, Mode::Nondet, 4).unwrap();
    for i in 0..size(&m).unwrap() {
        let k = map_entry_at(&m, i, true).unwrap();
        let x = map_entry_at(&m, i, false).unwrap();
        assert_eq!(map_at(&m, k), Ok(x));
    }
}

#[test]
fn det_serialization_ignores_entry_order() {
    let entries = vec![
        (text("b"), CborValue::Int(0)),
        (CborValue::Int(10), CborValue::Array(vec![CborValue::Int(1)])),
        (owned_bytes(&[7]), CborValue::Simple(20)),
        (CborValue::Int(-1), CborValue::Int(2)),
    ];
    let forward = CborValue::CborMap(entries.iter().map(|(k, v)| (copy_value(k), copy_value(v))).collect());
    let backward = CborValue::CborMap(entries.iter().rev().map(|(k, v)| (copy_value(k), copy_value(v))).collect());
    let a = serialize(&forward, Mode::Det, 4).unwrap();
    let b = serialize(&backward, Mode::Det, 4).unwrap();
    assert_eq!(a, b);
    assert_ne!(serialize(&forward, Mode::Nondet, 4).unwrap(), serialize(&backward, Mode::Nondet, 4).unwrap());
}

#[test]
fn parsed_documents_reserialize_in_normal_form() {
    // [h'' as a two-byte length, 5 as a three-byte integer]: {1: 2, 1: 3}
    let loose = [0x82, 0x58, 0x00, 0x19, 0x00, 0x05];
    let v = parse(&loose, Mode::Nondet, 4).unwrap();
    let tight = serialize(&v, Mode::Nondet, 4).unwrap();
    assert_eq!(tight, vec![0x82, 0x40, 0x05]);
    assert_eq!(parse(&tight, Mode::Nondet, 4), Ok(v));
    let dup = [0xa2, 0x01, 0x02, 0x01, 0x03];
    let m = parse(&dup, Mode::Nondet, 4).unwrap();
    assert_eq!(serialize(&m, Mode::Nondet, 4), Ok(dup.to_vec()));
}

#[test]
fn det_serialization_ignores_nested_map_order() {
    let inner_a = CborValue::CborMap(vec![(CborValue::Int(2), text("x")), (CborValue::Int(1), text("y"))]);
    let inner_b = CborValue::CborMap(vec![(CborValue::Int(1), text("y")), (CborValue::Int(2), text("x"))]);
    let a = CborValue::Array(vec![CborValue::Tagged { tag: 9, payload: Box::new(inner_a) }]);
    let b = CborValue::Array(vec![CborValue::Tagged { tag: 9, payload: Box::new(inner_b) }]);
    assert_eq!(
        serialize(&a, Mode::Det, 8),
        Ok(vec![0x81, 0xc9, 0xa2, 0x01, 0x61, 0x79, 0x02, 0x61, 0x78])
    );
    assert_eq!(serialize(&a, Mode::Det, 8), serialize(&b, Mode::Det, 8));
    let dup_a = CborValue::Array(vec![CborValue::CborMap(vec![
        (CborValue::Int(1), CborValue::Int(0)),
        (CborValue::Int(1), CborValue::Int(5)),
    ])]);
    let dup_b = CborValue::Array(vec![CborValue::CborMap(vec![
        (CborValue::Int(1), CborValue::Int(5)),
        (CborValue::Int(1), CborValue::Int(0)),
    ])]);
    assert!(serialize(&dup_a, Mode::Det, 8).is_err());
    assert!(serialize(&dup_b, Mode::Det, 8).is_err());
}

#[test]
fn larger_depths_change_nothing_accepted() {
    let encoded = [0x82, 0x81, 0x01, 0xa1, 0x02, 0x81, 0x03];
    let shallow = parse(&encoded, Mode::Nondet, 3).unwrap();
    for d in [3, 4, 100, MAX_DEPTH_LIMIT, usize::MAX] {
        assert_eq!(parse(&encoded, Mode::Nondet, d).as_ref(), Ok(&shallow));
        assert_eq!(serialize(&shallow, Mode::Nondet, d), Ok(encoded.to_vec()));
    }
    assert_eq!(parse(&encoded, Mode::Nondet, 2), Err(CborError::DepthExceeded { limit: 2 }));
}

fn borrows(v: &CborValue) -> bool {
    match v {
        CborValue::ByteString(p) | CborValue::TextString(p) => matches!(p, Payload::Borrowed(_)),
        _ => false,
    }
}

#[test]
fn built_strings_borrow_the_callers_bytes() {
    let data = [1u8, 2, 3];
    let b = bytes_value(&data);
    assert!(borrows(&b));
    assert_eq!(as_bytes(&b).unwrap().as_ptr(), data.as_ptr());
    let t = string_value(b"hey").unwrap();
    assert!(borrows(&t));
}

#[test]
fn parsed_strings_borrow_the_input() {
    let encoded = [0x82, 0x42, 0xaa, 0xbb, 0x61, 0x7a];
    let v = parse(&encoded, Mode::Nondet, 4).unwrap();
    let first = array_at(&v, 0).unwrap();
    let second = array_at(&v, 1).unwrap();
    assert!(borrows(first) && borrows(second));
    assert_eq!(as_bytes(first).unwrap().as_ptr(), encoded[2..].as_ptr());
    assert_eq!(as_string(second).unwrap().as_ptr(), encoded[5..].as_ptr());
}

#[test]
fn shallow_copies_keep_borrowing_and_owned_copies_own() {
    let data = [5u8, 6];
    let v = CborValue::Array(vec![bytes_value(&data), owned_bytes(&[7])]);
    let shallow = copy_value(&v);
    assert_eq!(shallow, v);
    assert!(borrows(array_at(&shallow, 0).unwrap()));
    assert_eq!(as_bytes(array_at(&shallow, 0).unwrap()).unwrap().as_ptr(), data.as_ptr());
    assert!(!borrows(array_at(&shallow, 1).unwrap()));
    let owned: CborValue<'static> = owned_value(&v);
    assert_eq!(owned, v);
    assert!(!borrows(array_at(&owned, 0).unwrap()));
    assert_ne!(as_bytes(array_at(&owned, 0).unwrap()).unwrap().as_ptr(), data.as_ptr());
}
