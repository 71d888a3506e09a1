//! A larger depth allowance changes nothing that a smaller one accepted.

use vstd::prelude::*;
use crate::format::{
    parse_document, parse_entries, parse_head, parse_item, parse_items, ser_entries, ser_item,
    ser_items, serialization, Mode, MAJOR_ARRAY, MAJOR_BYTES, MAJOR_MAP, MAJOR_NEGATIVE,
    MAJOR_SIMPLE, MAJOR_TEXT, MAJOR_UNSIGNED,
};
use crate::value::Cbor;

verus! {

/// An item parsed within one budget parses the same within any larger one.
proof fn lemma_parse_item_deeper(
    b: Seq<u8>,
    pos: int,
    mode: Mode,
    budget: nat,
    limit: usize,
    budget2: nat,
    limit2: usize,
)
    requires
        parse_item(b, pos, mode, budget, limit) is Ok,
        budget <= budget2,
    ensures
        parse_item(b, pos, mode, budget2, limit2) == parse_item(b, pos, mode, budget, limit),
    decreases budget, 0nat, 0nat,
{
    match parse_head(b, pos) {
        Err(_) => {},
        Ok((major, info, arg, p)) => {
            if major != MAJOR_SIMPLE && major != MAJOR_UNSIGNED && major != MAJOR_NEGATIVE
                && major != MAJOR_BYTES && major != MAJOR_TEXT && budget > 0 {
                let (b1, b2) = ((budget - 1) as nat, (budget2 - 1) as nat);
                if major == MAJOR_ARRAY {
                    lemma_parse_items_deeper(b, p, arg as nat, mode, b1, limit, b2, limit2);
                } else if major == MAJOR_MAP {
                    lemma_parse_entries_deeper(b, p, arg as nat, mode, b1, limit, b2, limit2);
                } else {
                    lemma_parse_item_deeper(b, p, mode, b1, limit, b2, limit2);
                }
            }
        },
    }
}

proof fn lemma_parse_items_deeper(
    b: Seq<u8>,
    pos: int,
    n: nat,
    mode: Mode,
    budget: nat,
    limit: usize,
    budget2: nat,
    limit2: usize,
)
    requires
        parse_items(b, pos, n, mode, budget, limit) is Ok,
        budget <= budget2,
    ensures
        parse_items(b, pos, n, mode, budget2, limit2) == parse_items(b, pos, n, mode, budget, limit),
    decreases budget, 1nat, n,
{
    if n > 0 {
        lemma_parse_items_deeper(b, pos, (n - 1) as nat, mode, budget, limit, budget2, limit2);
        let p = parse_items(b, pos, (n - 1) as nat, mode, budget, limit)->Ok_0.1;
        lemma_parse_item_deeper(b, p, mode, budget, limit, budget2, limit2);
    }
}

proof fn lemma_parse_entries_deeper(
    b: Seq<u8>,
    pos: int,
    n: nat,
    mode: Mode,
    budget: nat,
    limit: usize,
    budget2: nat,
    limit2: usize,
)
    requires
        parse_entries(b, pos, n, mode, budget, limit) is Ok,
        budget <= budget2,
    ensures
        parse_entries(b, pos, n, mode, budget2, limit2) == parse_entries(b, pos, n, mode, budget, limit),
    decreases budget, 1nat, n,
{
    if n > 0 {
        lemma_parse_entries_deeper(b, pos, (n - 1) as nat, mode, budget, limit, budget2, limit2);
        let p = parse_entries(b, pos, (n - 1) as nat, mode, budget, limit)->Ok_0.2;
        lemma_parse_item_deeper(b, p, mode, budget, limit, budget2, limit2);
        let q = parse_item(b, p, mode, budget, limit)->Ok_0.1;
        lemma_parse_item_deeper(b, q, mode, budget, limit, budget2, limit2);
    }
}

/// A document that parses with depth `max_depth` parses to the same item
/// with any larger depth.
pub proof fn law_parse_depth_monotone(b: Seq<u8>, mode: Mode, max_depth: usize, larger: usize)
    requires
        max_depth <= larger,
        parse_document(b, mode, max_depth) is Ok,
    ensures
        parse_document(b, mode, larger) == parse_document(b, mode, max_depth),
{
    lemma_parse_item_deeper(b, 0, mode, max_depth as nat, max_depth, larger as nat, larger);
}

/// An item serialized within one budget serializes the same within any
/// larger one.
proof fn lemma_ser_item_deeper(
    v: Cbor,
    mode: Mode,
    budget: nat,
    limit: usize,
    budget2: nat,
    limit2: usize,
)
    requires
        ser_item(v, mode, budget, limit) is Ok,
        budget <= budget2,
    ensures
        ser_item(v, mode, budget2, limit2) == ser_item(v, mode, budget, limit),
    decreases budget, 0nat, 0nat,
{
    match v {
        Cbor::Array(items) => {
            lemma_ser_items_deeper(items, mode, (budget - 1) as nat, limit, (budget2 - 1) as nat, limit2);
        },
        Cbor::CborMap(es) => {
            lemma_ser_entries_deeper(es, mode, (budget - 1) as nat, limit, (budget2 - 1) as nat, limit2);
        },
        Cbor::Tagged(_, x) => {
            lemma_ser_item_deeper(*x, mode, (budget - 1) as nat, limit, (budget2 - 1) as nat, limit2);
        },
        _ => {},
    }
}

proof fn lemma_ser_items_deeper(
    items: Seq<Cbor>,
    mode: Mode,
    budget: nat,
    limit: usize,
    budget2: nat,
    limit2: usize,
)
    requires
        ser_items(items, mode, budget, limit) is Ok,
        budget <= budget2,
    ensures
        ser_items(items, mode, budget2, limit2) == ser_items(items, mode, budget, limit),
    decreases budget, 1nat, items.len(),
{
    if items.len() > 0 {
        lemma_ser_items_deeper(items.drop_last(), mode, budget, limit, budget2, limit2);
        lemma_ser_item_deeper(items.last(), mode, budget, limit, budget2, limit2);
    }
}

proof fn lemma_ser_entries_deeper(
    es: Seq<(Cbor, Cbor)>,
    mode: Mode,
    budget: nat,
    limit: usize,
    budget2: nat,
    limit2: usize,
)
    requires
        ser_entries(es, mode, budget, limit) is Ok,
        budget <= budget2,
    ensures
        ser_entries(es, mode, budget2, limit2) == ser_entries(es, mode, budget, limit),
    decreases budget, 1nat, es.len(),
{
    if es.len() > 0 {
        lemma_ser_entries_deeper(es.drop_last(), mode, budget, limit, budget2, limit2);
        lemma_ser_item_deeper(es.last().0, mode, budget, limit, budget2, limit2);
        lemma_ser_item_deeper(es.last().1, mode, budget, limit, budget2, limit2);
    }
}

/// An item that serializes with depth `max_depth` serializes to the same
/// bytes with any larger depth.
pub proof fn law_serialize_depth_monotone(v: Cbor, mode: Mode, max_depth: usize, larger: usize)
    requires
        max_depth <= larger,
        serialization(v, mode, max_depth) is Ok,
    ensures
        serialization(v, mode, larger) == serialization(v, mode, max_depth),
{
    lemma_ser_item_deeper(v, mode, max_depth as nat, max_depth, larger as nat, larger);
}

} // verus!
