//! Whole documents: parsing and serializing trees and node arrays.

use vstd::prelude::*;
use crate::access::{keys_are_usable, keys_usable};
use crate::capped;
use crate::error::CborError;
use crate::format::{lemma_parse_item_facts, parse_document, parse_item, serialization, Mode};
use crate::nodes::{lemma_rep_node_item, node_document, rep_in, CborNode};
use crate::parse::{lay_document, parse_nodes};
use crate::serialize::ser_into;
use crate::tree::node_value;
use crate::value::{payloads_all, Cbor, CborValue};

verus! {

/// The serialization of the item a node array describes.
pub open spec fn node_serialization(
    nodes: Seq<CborNode>,
    payload: Seq<u8>,
    mode: Mode,
    max_depth: usize,
) -> Result<Seq<u8>, CborError> {
    match node_document(nodes, payload, max_depth) {
        Ok(v) => serialization(v, mode, max_depth),
        Err(e) => Err(e),
    }
}

/// What a function that produces bytes promises for a specified outcome.
pub open spec fn bytes_outcome(spec: Result<Seq<u8>, CborError>, r: Result<Vec<u8>, CborError>) -> bool {
    match spec {
        Ok(s) => r matches Ok(out) && out@ == s,
        Err(e) => r matches Err(e2) && e2 == e,
    }
}

/// What a node parse promises: the nodes [`lay_document`] lays out, which
/// represent the document, with payloads pointing into the input.
pub open spec fn nodes_outcome(
    b: Seq<u8>,
    mode: Mode,
    max_depth: usize,
    r: Result<Vec<CborNode>, CborError>,
) -> bool {
    match parse_document(b, mode, max_depth) {
        Ok(v) => r matches Ok(nodes) && rep_in(nodes@, b, 0, v, 0, nodes@.len() as int) && nodes@
            == lay_document(b, mode, max_depth),
        Err(e) => r matches Err(e2) && e2 == e,
    }
}

/// Serialize `value`, nesting at most `capped(max_depth)` deep.
pub fn serialize(value: &CborValue, mode: Mode, max_depth: usize) -> (r: Result<Vec<u8>, CborError>)
    ensures
        bytes_outcome(serialization(value@, mode, capped(max_depth)), r),
{
    let depth = capped(max_depth);
    let mut out: Vec<u8> = Vec::new();
    match ser_into(value, mode, depth, depth, &mut out) {
        Ok(()) => Ok(out),
        Err(e) => Err(e),
    }
}

/// Parse a whole document, nesting at most `capped(max_depth)` deep, with
/// no array, map or tagged value as a map key; byte and text payloads
/// borrow `bytes`.
pub fn parse<'a>(bytes: &'a [u8], mode: Mode, max_depth: usize) -> (r: Result<CborValue<'a>, CborError>)
    ensures
        match parse_document(bytes@, mode, capped(max_depth)) {
            Ok(v) => if keys_usable(v) {
                r matches Ok(x) && x@ == v && payloads_all(x, true)
            } else {
                r matches Err(e) && e == CborError::ContainerKey
            },
            Err(e) => r matches Err(e2) && e2 == e,
        },
{
    let depth = capped(max_depth);
    let nodes = match parse_nodes(bytes, mode, depth) {
        Ok(nodes) => nodes,
        Err(e) => return Err(e),
    };
    let n = nodes.len();
    proof {
        let v = parse_document(bytes@, mode, depth)->Ok_0;
        lemma_parse_item_facts(bytes@, 0, mode, depth as nat, depth);
        lemma_rep_node_item(nodes@, bytes@, 0, v, 0, nodes@.len() as int, depth as nat, depth);
    }
    let value = match node_value(nodes.as_slice(), bytes, 0, depth, depth) {
        Ok(value) => value,
        Err(e) => return Err(e),
    };
    if !keys_are_usable(&value) {
        return Err(CborError::ContainerKey);
    }
    Ok(value)
}

/// Parse a whole document into a node array, nesting at most
/// `capped(max_depth)` deep; byte and text payloads are ranges of `encoded`.
pub fn parse_nondet(encoded: &[u8], max_depth: usize) -> (r: Result<Vec<CborNode>, CborError>)
    ensures
        nodes_outcome(encoded@, Mode::Nondet, capped(max_depth), r),
{
    parse_nodes(encoded, Mode::Nondet, capped(max_depth))
}

/// Parse a whole document that must be deterministically encoded into a
/// node array, nesting at most `capped(max_depth)` deep.
pub fn parse_det(encoded: &[u8], max_depth: usize) -> (r: Result<Vec<CborNode>, CborError>)
    ensures
        nodes_outcome(encoded@, Mode::Det, capped(max_depth), r),
{
    parse_nodes(encoded, Mode::Det, capped(max_depth))
}

/// Serialize the item a node array describes, keeping map order; payload
/// ranges refer to `payload`.
pub fn serialize_nondet(nodes: &[CborNode], payload: &[u8], max_depth: usize) -> (r: Result<
    Vec<u8>,
    CborError,
>)
    ensures
        bytes_outcome(node_serialization(nodes@, payload@, Mode::Nondet, capped(max_depth)), r),
{
    serialize_nodes(nodes, payload, Mode::Nondet, max_depth)
}

/// Serialize the item a node array describes, deterministically.
pub fn serialize_det(nodes: &[CborNode], payload: &[u8], max_depth: usize) -> (r: Result<
    Vec<u8>,
    CborError,
>)
    ensures
        bytes_outcome(node_serialization(nodes@, payload@, Mode::Det, capped(max_depth)), r),
{
    serialize_nodes(nodes, payload, Mode::Det, max_depth)
}

fn serialize_nodes(nodes: &[CborNode], payload: &[u8], mode: Mode, max_depth: usize) -> (r: Result<
    Vec<u8>,
    CborError,
>)
    ensures
        bytes_outcome(node_serialization(nodes@, payload@, mode, capped(max_depth)), r),
{
    let depth = capped(max_depth);
    let value = match node_value(nodes, payload, 0, depth, depth) {
        Ok(value) => value,
        Err(e) => return Err(e),
    };
    serialize(&value, mode, max_depth)
}

} // verus!
