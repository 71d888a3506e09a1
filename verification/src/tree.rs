//! Rebuilding a CBOR item from a flat node array.

use vstd::prelude::*;
use crate::error::CborError;
use crate::nodes::{
    lemma_node_entries_err, lemma_node_items_err, node_entries, node_item, node_items, CborNode,
    CBOR_TYPE_ARRAY, CBOR_TYPE_BYTES, CBOR_TYPE_INT, CBOR_TYPE_MAP, CBOR_TYPE_SIMPLE,
    CBOR_TYPE_TAGGED, CBOR_TYPE_TEXT,
};
use crate::value::{model, model_entries, model_seq, payloads_all, Cbor, CborValue, Payload};

verus! {

/// A copy of `src`.
pub(crate) fn copy_bytes(src: &[u8]) -> (r: Vec<u8>)
    ensures
        r@ == src@,
{
    let mut out: Vec<u8> = Vec::new();
    crate::serialize::push_all(&mut out, src);
    out
}

/// The item node `idx` describes, its payloads borrowed from `payload`.
pub fn node_value<'a>(
    nodes: &[CborNode],
    payload: &'a [u8],
    idx: usize,
    budget: usize,
    limit: usize,
) -> (r: Result<CborValue<'a>, CborError>)
    ensures
        match node_item(nodes@, payload@, idx as int, budget as nat, limit) {
            Ok(v) => r matches Ok(x) && x@ == v && payloads_all(x, true),
            Err(e) => r matches Err(e2) && e2 == e,
        },
    decreases budget, 1nat,
{
    if idx >= nodes.len() {
        return Err(CborError::ChildOutOfBounds);
    }
    let nd = nodes[idx];
    if nd.node_type == CBOR_TYPE_INT {
        if nd.value > i64::MAX as u64 {
            return Err(CborError::IntegerOutOfRange);
        }
        if nd.negative == 0 {
            return Ok(CborValue::Int(nd.value as i64));
        } else {
            let m = nd.value as i64;
            return Ok(CborValue::Int(-1 - m));
        }
    }
    if nd.node_type == CBOR_TYPE_BYTES || nd.node_type == CBOR_TYPE_TEXT {
        let plen = payload.len();
        if nd.len > plen || nd.offset > plen - nd.len {
            return Err(CborError::PayloadOutOfBounds);
        }
        let bytes: &'a [u8] = &payload[nd.offset..nd.offset + nd.len];
        if nd.node_type == CBOR_TYPE_BYTES {
            return Ok(CborValue::ByteString(Payload::Borrowed(bytes)));
        } else {
            return Ok(CborValue::TextString(Payload::Borrowed(bytes)));
        }
    }
    if nd.node_type == CBOR_TYPE_SIMPLE {
        if nd.value > 255 {
            return Err(CborError::SimpleOutOfRange);
        }
        return Ok(CborValue::Simple(nd.value as u8));
    }
    if nd.node_type != CBOR_TYPE_ARRAY && nd.node_type != CBOR_TYPE_MAP && nd.node_type
        != CBOR_TYPE_TAGGED {
        return Err(CborError::UnknownNodeType { node_type: nd.node_type });
    }
    if budget == 0 {
        return Err(CborError::DepthExceeded { limit });
    }
    if nd.node_type == CBOR_TYPE_TAGGED {
        if nd.first_child >= nodes.len() {
            return Err(CborError::ChildOutOfBounds);
        }
        return match node_value(nodes, payload, nd.first_child, budget - 1, limit) {
            Ok(x) => Ok(CborValue::Tagged { tag: nd.value, payload: Box::new(x) }),
            Err(e) => Err(e),
        };
    }
    if nd.value == 0 {
        if nd.node_type == CBOR_TYPE_ARRAY {
            let items: Vec<CborValue<'a>> = Vec::new();
            assert(model_seq(items@) =~= Seq::<Cbor>::empty());
            return Ok(CborValue::Array(items));
        } else {
            let entries: Vec<(CborValue<'a>, CborValue<'a>)> = Vec::new();
            assert(model_entries(entries@) =~= Seq::<(Cbor, Cbor)>::empty());
            return Ok(CborValue::CborMap(entries));
        }
    }
    let width: u64 = if nd.node_type == CBOR_TYPE_ARRAY { 1 } else { 2 };
    if nd.value > (usize::MAX as u64) / width {
        return Err(CborError::ChildCountOutOfRange);
    }
    let span = (nd.value * width) as usize;
    if nd.first_child > usize::MAX - span {
        return Err(CborError::ChildRangeOverflow);
    }
    if nd.first_child + span > nodes.len() {
        return Err(CborError::ChildOutOfBounds);
    }
    let count = nd.value as usize;
    if nd.node_type == CBOR_TYPE_ARRAY {
        node_array(nodes, payload, nd.first_child, count, budget - 1, limit)
    } else {
        node_map(nodes, payload, nd.first_child, count, budget - 1, limit)
    }
}

/// The array of the `count` nodes from `first`.
fn node_array<'a>(
    nodes: &[CborNode],
    payload: &'a [u8],
    first: usize,
    count: usize,
    budget: usize,
    limit: usize,
) -> (r: Result<CborValue<'a>, CborError>)
    requires
        first + count <= nodes@.len(),
        first + count <= usize::MAX,
    ensures
        match node_items(nodes@, payload@, first as int, count as nat, budget as nat, limit) {
            Ok(items) => r matches Ok(x) && x@ == Cbor::Array(items) && payloads_all(x, true),
            Err(e) => r matches Err(e2) && e2 == e,
        },
    decreases budget, 2nat,
{
    let mut items: Vec<CborValue<'a>> = Vec::new();
    let mut i: usize = 0;
    while i < count
        invariant
            i <= count,
            first + count <= nodes@.len(),
            first + count <= usize::MAX,
            node_items(nodes@, payload@, first as int, i as nat, budget as nat, limit) == Ok::<
                Seq<Cbor>,
                CborError,
            >(model_seq(items@)),
            forall|j: int| 0 <= j < items@.len() ==> payloads_all(#[trigger] items@[j], true),
        decreases count - i,
    {
        match node_value(nodes, payload, first + i, budget, limit) {
            Ok(x) => {
                let ghost old_items = items@;
                items.push(x);
                assert(items@.drop_last() =~= old_items);
            },
            Err(e) => {
                proof {
                    lemma_node_items_err(nodes@, payload@, first as int, (i + 1) as nat, count as nat, budget as nat, limit);
                }
                return Err(e);
            },
        }
        i += 1;
    }
    let r = CborValue::Array(items);
    assert(payloads_all(r, true));
    Ok(r)
}

/// The map of the `2 * count` nodes from `first`, key then value.
fn node_map<'a>(
    nodes: &[CborNode],
    payload: &'a [u8],
    first: usize,
    count: usize,
    budget: usize,
    limit: usize,
) -> (r: Result<CborValue<'a>, CborError>)
    requires
        first + 2 * count <= nodes@.len(),
        first + 2 * count <= usize::MAX,
    ensures
        match node_entries(nodes@, payload@, first as int, count as nat, budget as nat, limit) {
            Ok(es) => r matches Ok(x) && x@ == Cbor::CborMap(es) && payloads_all(x, true),
            Err(e) => r matches Err(e2) && e2 == e,
        },
    decreases budget, 2nat,
{
    let mut entries: Vec<(CborValue<'a>, CborValue<'a>)> = Vec::new();
    let mut i: usize = 0;
    while i < count
        invariant
            i <= count,
            first + 2 * count <= nodes@.len(),
            first + 2 * count <= usize::MAX,
            node_entries(nodes@, payload@, first as int, i as nat, budget as nat, limit) == Ok::<
                Seq<(Cbor, Cbor)>,
                CborError,
            >(model_entries(entries@)),
            forall|j: int|
                0 <= j < entries@.len() ==> payloads_all((#[trigger] entries@[j]).0, true) && payloads_all(
                    entries@[j].1,
                    true,
                ),
        decreases count - i,
    {
        let k = match node_value(nodes, payload, first + 2 * i, budget, limit) {
            Ok(k) => k,
            Err(e) => {
                proof {
                    lemma_node_entries_err(nodes@, payload@, first as int, (i + 1) as nat, count as nat, budget as nat, limit);
                }
                return Err(e);
            },
        };
        match node_value(nodes, payload, first + 2 * i + 1, budget, limit) {
            Ok(x) => {
                let ghost old_entries = entries@;
                entries.push((k, x));
                assert(entries@.drop_last() =~= old_entries);
            },
            Err(e) => {
                proof {
                    lemma_node_entries_err(nodes@, payload@, first as int, (i + 1) as nat, count as nat, budget as nat, limit);
                }
                return Err(e);
            },
        }
        i += 1;
    }
    let r = CborValue::CborMap(entries);
    assert(payloads_all(r, true));
    Ok(r)
}

} // verus!
