use cbor_ffi::document::{parse_det, parse_nondet, serialize_det, serialize_nondet};
use cbor_ffi::error::CborError;
use cbor_ffi::nodes::{
    CborNode, CBOR_TYPE_ARRAY, CBOR_TYPE_BYTES, CBOR_TYPE_INT, CBOR_TYPE_MAP, CBOR_TYPE_SIMPLE,
    CBOR_TYPE_TAGGED, CBOR_TYPE_TEXT,
};

fn node(node_type: u8, value: u64) -> CborNode {
    CborNode { node_type, value, ..Default::default() }
}

#[test]
fn default_node_is_blank() {
    let n = CborNode::default();
    assert_eq!(
        n,
        CborNode { node_type: 0, negative: 0, value: 0, offset: 0, len: 0, first_child: 0 }
    );
}

#[test]
fn parse_lays_out_nodes_exactly() {
    // [-2, h'aa', "b", 24(simple 22)]  →  tagged 24 around simple(22)
    let encoded = [0x84, 0x21, 0x41, 0xaa, 0x61, 0x62, 0xd8, 0x18, 0xf6];
    let nodes = parse_nondet(&encoded, 4).unwrap();
    assert_eq!(nodes.len(), 6);
    assert_eq!(nodes[0], CborNode { node_type: CBOR_TYPE_ARRAY, value: 4, first_child: 1, ..Default::default() });
    assert_eq!(nodes[1], CborNode { node_type: CBOR_TYPE_INT, negative: 1, value: 1, ..Default::default() });
    assert_eq!(nodes[2], CborNode { node_type: CBOR_TYPE_BYTES, offset: 3, len: 1, ..Default::default() });
    assert_eq!(nodes[3], CborNode { node_type: CBOR_TYPE_TEXT, offset: 5, len: 1, ..Default::default() });
    assert_eq!(nodes[4], CborNode { node_type: CBOR_TYPE_TAGGED, value: 24, first_child: 5, ..Default::default() });
    assert_eq!(nodes[5], node(CBOR_TYPE_SIMPLE, 22));
    assert_eq!(serialize_nondet(&nodes, &encoded, 4), Ok(encoded.to_vec()));
}

#[test]
fn node_round_trip_of_det_input() {
    let encoded = [0xa2, 0x01, 0x80, 0x61, 0x61, 0xa1, 0x20, 0xf4];
    let nodes = parse_det(&encoded, 4).unwrap();
    assert_eq!(serialize_det(&nodes, &encoded, 4), Ok(encoded.to_vec()));
    assert_eq!(serialize_nondet(&nodes, &encoded, 4), Ok(encoded.to_vec()));
}

#[test]
fn det_parse_errors_on_nodes() {
    assert_eq!(parse_det(&[0x19, 0x00, 0x05], 4), Err(CborError::NonCanonicalHead));
    assert_eq!(parse_nondet(&[0x19, 0x00, 0x05], 4).map(|n| n.len()), Ok(1));
    assert_eq!(parse_det(&[0xa2, 0x61, 0x62, 0x00, 0x61, 0x61, 0x00], 4), Err(CborError::MapKeyOrder));
}

#[test]
fn node_serialization_errors() {
    assert_eq!(
        serialize_nondet(&[node(9, 0)], &[], 4),
        Err(CborError::UnknownNodeType { node_type: 9 })
    );
    let bytes = CborNode { node_type: CBOR_TYPE_BYTES, offset: 1, len: 2, ..Default::default() };
    assert_eq!(serialize_nondet(&[bytes], &[0, 0], 4), Err(CborError::PayloadOutOfBounds));
    assert_eq!(serialize_nondet(&[bytes], &[0, 7, 8], 4), Ok(vec![0x42, 7, 8]));
    assert_eq!(serialize_nondet(&[node(CBOR_TYPE_SIMPLE, 300)], &[], 4), Err(CborError::SimpleOutOfRange));
    assert_eq!(serialize_nondet(&[node(CBOR_TYPE_SIMPLE, 24)], &[], 4), Err(CborError::ReservedSimple));
    assert_eq!(serialize_nondet(&[node(CBOR_TYPE_SIMPLE, 255)], &[], 4), Ok(vec![0xf8, 0xff]));
    assert_eq!(serialize_nondet(&[node(CBOR_TYPE_INT, u64::MAX)], &[], 4), Err(CborError::IntegerOutOfRange));
    let tagged = CborNode { node_type: CBOR_TYPE_TAGGED, value: 3, first_child: 1, ..Default::default() };
    assert_eq!(serialize_nondet(&[tagged], &[], 4), Err(CborError::ChildOutOfBounds));
    let map = CborNode { node_type: CBOR_TYPE_MAP, value: 1, first_child: 1, ..Default::default() };
    assert_eq!(serialize_nondet(&[map], &[], 4), Err(CborError::ChildOutOfBounds));
    assert_eq!(serialize_nondet(&[], &[], 4), Err(CborError::ChildOutOfBounds));
}

#[test]
fn node_maps_with_duplicate_keys_fail_only_in_det_mode() {
    let nodes = [
        CborNode { node_type: CBOR_TYPE_MAP, value: 2, first_child: 1, ..Default::default() },
        node(CBOR_TYPE_INT, 1),
        node(CBOR_TYPE_INT, 0),
        node(CBOR_TYPE_INT, 1),
        node(CBOR_TYPE_INT, 2),
    ];
    assert_eq!(serialize_nondet(&nodes, &[], 4), Ok(vec![0xa2, 0x01, 0x00, 0x01, 0x02]));
    assert_eq!(serialize_det(&nodes, &[], 4), Err(CborError::DuplicateMapKey));
}
