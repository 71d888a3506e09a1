//! The flat node array: a document as a preorder array of nodes in which
//! the children of each container occupy a contiguous block.

use vstd::prelude::*;
use crate::error::CborError;
use crate::value::{within_depth, Cbor};

verus! {

/// An integer; `negative` set means the value is `-1 - value`.
pub const CBOR_TYPE_INT: u8 = 0;
/// A byte string whose payload is `len` bytes at `offset`.
pub const CBOR_TYPE_BYTES: u8 = 1;
/// A UTF-8 text string whose payload is `len` bytes at `offset`.
pub const CBOR_TYPE_TEXT: u8 = 2;
/// An array of `value` children starting at `first_child`.
pub const CBOR_TYPE_ARRAY: u8 = 3;
/// A map of `value` entries: `2 * value` children starting at
/// `first_child`, key then value.
pub const CBOR_TYPE_MAP: u8 = 4;
/// A tag `value` whose payload is the child at `first_child`.
pub const CBOR_TYPE_TAGGED: u8 = 5;
/// A simple value `value`.
pub const CBOR_TYPE_SIMPLE: u8 = 6;

/// One node of the flat array.
#[derive(Clone, Copy, PartialEq, Eq, Structural, Debug)]
pub struct CborNode {
    pub node_type: u8,
    pub negative: u8,
    pub value: u64,
    pub offset: usize,
    pub len: usize,
    pub first_child: usize,
}

impl Default for CborNode {
    fn default() -> (r: CborNode)
        ensures
            r == blank_node(),
    {
        CborNode { node_type: 0, negative: 0, value: 0, offset: 0, len: 0, first_child: 0 }
    }
}

/// A node with every field zero.
pub open spec fn blank_node() -> CborNode {
    CborNode { node_type: 0, negative: 0, value: 0, offset: 0, len: 0, first_child: 0 }
}

/// The node of an integer.
pub open spec fn int_node(i: i64) -> CborNode {
    if i >= 0 {
        CborNode { node_type: CBOR_TYPE_INT, value: i as u64, ..blank_node() }
    } else {
        CborNode { node_type: CBOR_TYPE_INT, negative: 1, value: (-1 - i) as u64, ..blank_node() }
    }
}

/// The node of a simple value.
pub open spec fn simple_node(s: u8) -> CborNode {
    CborNode { node_type: CBOR_TYPE_SIMPLE, value: s as u64, ..blank_node() }
}

/// Whether `nd` is a string node of type `t` whose payload in `b` is `p`.
pub open spec fn payload_node(nd: CborNode, t: u8, b: Seq<u8>, p: Seq<u8>) -> bool {
    &&& nd.node_type == t
    &&& nd.negative == 0
    &&& nd.value == 0
    &&& nd.first_child == 0
    &&& nd.len == p.len()
    &&& nd.offset + nd.len <= b.len()
    &&& b.subrange(nd.offset as int, nd.offset + nd.len) == p
}

/// Whether `nd` is the node of a container of type `t` with `n` children.
pub open spec fn container_node(nd: CborNode, t: u8, count: nat, n: nat, lo: int, hi: int) -> bool {
    &&& nd.node_type == t
    &&& nd.negative == 0
    &&& nd.value == count
    &&& nd.offset == 0
    &&& nd.len == 0
    &&& n == 0 ==> nd.first_child == 0
    &&& n > 0 ==> lo <= nd.first_child && nd.first_child + n <= hi
}

/// Whether the node at `idx` of `nodes` represents `v`, with payloads in `b`
/// and every descendant in the index range `lo..hi`.
pub open spec fn rep_in(nodes: Seq<CborNode>, b: Seq<u8>, idx: int, v: Cbor, lo: int, hi: int) -> bool
    decreases v,
{
    &&& 0 <= idx < nodes.len()
    &&& match v {
        Cbor::Int(i) => nodes[idx] == int_node(i),
        Cbor::Bytes(p) => payload_node(nodes[idx], CBOR_TYPE_BYTES, b, p),
        Cbor::Text(p) => payload_node(nodes[idx], CBOR_TYPE_TEXT, b, p),
        Cbor::Simple(s) => nodes[idx] == simple_node(s),
        Cbor::Array(items) => {
            &&& container_node(nodes[idx], CBOR_TYPE_ARRAY, items.len(), items.len(), lo, hi)
            &&& forall|i: int|
                0 <= i < items.len() ==> rep_in(
                    nodes,
                    b,
                    nodes[idx].first_child + i,
                    #[trigger] items[i],
                    lo,
                    hi,
                )
        },
        Cbor::CborMap(es) => {
            &&& container_node(nodes[idx], CBOR_TYPE_MAP, es.len(), 2 * es.len(), lo, hi)
            &&& forall|i: int|
                0 <= i < es.len() ==> rep_in(
                    nodes,
                    b,
                    nodes[idx].first_child + 2 * i,
                    (#[trigger] es[i]).0,
                    lo,
                    hi,
                ) && rep_in(nodes, b, nodes[idx].first_child + 2 * i + 1, es[i].1, lo, hi)
        },
        Cbor::Tagged(t, x) => {
            &&& nodes[idx].node_type == CBOR_TYPE_TAGGED
            &&& nodes[idx].negative == 0
            &&& nodes[idx].value == t
            &&& nodes[idx].offset == 0
            &&& nodes[idx].len == 0
            &&& lo <= nodes[idx].first_child < hi
            &&& rep_in(nodes, b, nodes[idx].first_child as int, *x, lo, hi)
        },
    }
}

} // verus!

verus! {

/// A representation stays valid while its node and its index range are
/// left alone.
pub proof fn lemma_rep_frame(
    n1: Seq<CborNode>,
    n2: Seq<CborNode>,
    b: Seq<u8>,
    idx: int,
    v: Cbor,
    lo: int,
    hi: int,
)
    requires
        rep_in(n1, b, idx, v, lo, hi),
        0 <= idx < n2.len(),
        n2[idx] == n1[idx],
        hi <= n1.len(),
        hi <= n2.len(),
        forall|k: int| lo <= k < hi ==> n2[k] == n1[k],
    ensures
        rep_in(n2, b, idx, v, lo, hi),
    decreases v,
{
    match v {
        Cbor::Array(items) => {
            assert forall|i: int| 0 <= i < items.len() implies rep_in(
                n2,
                b,
                n2[idx].first_child + i,
                #[trigger] items[i],
                lo,
                hi,
            ) by {
                lemma_rep_frame(n1, n2, b, n1[idx].first_child + i, items[i], lo, hi);
            }
        },
        Cbor::CborMap(es) => {
            assert forall|i: int| 0 <= i < es.len() implies rep_in(
                n2,
                b,
                n2[idx].first_child + 2 * i,
                (#[trigger] es[i]).0,
                lo,
                hi,
            ) && rep_in(n2, b, n2[idx].first_child + 2 * i + 1, es[i].1, lo, hi) by {
                lemma_rep_frame(n1, n2, b, n1[idx].first_child + 2 * i, es[i].0, lo, hi);
                lemma_rep_frame(n1, n2, b, n1[idx].first_child + 2 * i + 1, es[i].1, lo, hi);
            }
        },
        Cbor::Tagged(t, x) => {
            lemma_rep_frame(n1, n2, b, n1[idx].first_child as int, *x, lo, hi);
        },
        _ => {},
    }
}

/// A representation within a range is one within any wider range.
pub proof fn lemma_rep_widen(
    nodes: Seq<CborNode>,
    b: Seq<u8>,
    idx: int,
    v: Cbor,
    lo: int,
    hi: int,
    lo2: int,
    hi2: int,
)
    requires
        rep_in(nodes, b, idx, v, lo, hi),
        lo2 <= lo,
        hi <= hi2,
    ensures
        rep_in(nodes, b, idx, v, lo2, hi2),
    decreases v,
{
    match v {
        Cbor::Array(items) => {
            assert forall|i: int| 0 <= i < items.len() implies rep_in(
                nodes,
                b,
                nodes[idx].first_child + i,
                #[trigger] items[i],
                lo2,
                hi2,
            ) by {
                lemma_rep_widen(nodes, b, nodes[idx].first_child + i, items[i], lo, hi, lo2, hi2);
            }
        },
        Cbor::CborMap(es) => {
            assert forall|i: int| 0 <= i < es.len() implies rep_in(
                nodes,
                b,
                nodes[idx].first_child + 2 * i,
                (#[trigger] es[i]).0,
                lo2,
                hi2,
            ) && rep_in(nodes, b, nodes[idx].first_child + 2 * i + 1, es[i].1, lo2, hi2) by {
                lemma_rep_widen(nodes, b, nodes[idx].first_child + 2 * i, es[i].0, lo, hi, lo2, hi2);
                lemma_rep_widen(
                    nodes,
                    b,
                    nodes[idx].first_child + 2 * i + 1,
                    es[i].1,
                    lo,
                    hi,
                    lo2,
                    hi2,
                );
            }
        },
        Cbor::Tagged(t, x) => {
            lemma_rep_widen(nodes, b, nodes[idx].first_child as int, *x, lo, hi, lo2, hi2);
        },
        _ => {},
    }
}

} // verus!

verus! {

/// The item that node `idx` describes, with payloads in `payload` and
/// containers nested at most `budget` deep. `limit` is the depth reported
/// when that is exceeded. The first failure in document order is the one
/// reported.
pub open spec fn node_item(
    nodes: Seq<CborNode>,
    payload: Seq<u8>,
    idx: int,
    budget: nat,
    limit: usize,
) -> Result<Cbor, CborError>
    decreases budget, 0nat, 0nat,
{
    if idx < 0 || idx >= nodes.len() {
        Err(CborError::ChildOutOfBounds)
    } else {
        let nd = nodes[idx];
        if nd.node_type == CBOR_TYPE_INT {
            if nd.value > i64::MAX {
                Err(CborError::IntegerOutOfRange)
            } else if nd.negative == 0 {
                Ok(Cbor::Int(nd.value as i64))
            } else {
                Ok(Cbor::Int((-1 - nd.value) as i64))
            }
        } else if nd.node_type == CBOR_TYPE_BYTES || nd.node_type == CBOR_TYPE_TEXT {
            if nd.offset + nd.len > payload.len() {
                Err(CborError::PayloadOutOfBounds)
            } else if nd.node_type == CBOR_TYPE_BYTES {
                Ok(Cbor::Bytes(payload.subrange(nd.offset as int, nd.offset + nd.len)))
            } else {
                Ok(Cbor::Text(payload.subrange(nd.offset as int, nd.offset + nd.len)))
            }
        } else if nd.node_type == CBOR_TYPE_SIMPLE {
            if nd.value > 255 {
                Err(CborError::SimpleOutOfRange)
            } else {
                Ok(Cbor::Simple(nd.value as u8))
            }
        } else if nd.node_type == CBOR_TYPE_ARRAY || nd.node_type == CBOR_TYPE_MAP
            || nd.node_type == CBOR_TYPE_TAGGED {
            if budget == 0 {
                Err(CborError::DepthExceeded { limit })
            } else if nd.node_type == CBOR_TYPE_TAGGED {
                if nd.first_child >= nodes.len() {
                    Err(CborError::ChildOutOfBounds)
                } else {
                    match node_item(nodes, payload, nd.first_child as int, (budget - 1) as nat, limit) {
                        Ok(x) => Ok(Cbor::Tagged(nd.value, Box::new(x))),
                        Err(e) => Err(e),
                    }
                }
            } else {
                let width = if nd.node_type == CBOR_TYPE_ARRAY { 1int } else { 2int };
                if nd.value == 0 {
                    if nd.node_type == CBOR_TYPE_ARRAY {
                        Ok(Cbor::Array(Seq::empty()))
                    } else {
                        Ok(Cbor::CborMap(Seq::empty()))
                    }
                } else if width * nd.value > usize::MAX {
                    Err(CborError::ChildCountOutOfRange)
                } else if nd.first_child + width * nd.value > usize::MAX {
                    Err(CborError::ChildRangeOverflow)
                } else if nd.first_child + width * nd.value > nodes.len() {
                    Err(CborError::ChildOutOfBounds)
                } else if nd.node_type == CBOR_TYPE_ARRAY {
                    match node_items(
                        nodes,
                        payload,
                        nd.first_child as int,
                        nd.value as nat,
                        (budget - 1) as nat,
                        limit,
                    ) {
                        Ok(items) => Ok(Cbor::Array(items)),
                        Err(e) => Err(e),
                    }
                } else {
                    match node_entries(
                        nodes,
                        payload,
                        nd.first_child as int,
                        nd.value as nat,
                        (budget - 1) as nat,
                        limit,
                    ) {
                        Ok(es) => Ok(Cbor::CborMap(es)),
                        Err(e) => Err(e),
                    }
                }
            }
        } else {
            Err(CborError::UnknownNodeType { node_type: nd.node_type })
        }
    }
}

/// The items of the `n` nodes from `first`.
pub open spec fn node_items(
    nodes: Seq<CborNode>,
    payload: Seq<u8>,
    first: int,
    n: nat,
    budget: nat,
    limit: usize,
) -> Result<Seq<Cbor>, CborError>
    decreases budget, 1nat, n,
{
    if n == 0 {
        Ok(Seq::empty())
    } else {
        match node_items(nodes, payload, first, (n - 1) as nat, budget, limit) {
            Ok(xs) => match node_item(nodes, payload, first + n - 1, budget, limit) {
                Ok(x) => Ok(xs.push(x)),
                Err(e) => Err(e),
            },
            Err(e) => Err(e),
        }
    }
}

/// The `n` entries of the `2 * n` nodes from `first`, key then value.
pub open spec fn node_entries(
    nodes: Seq<CborNode>,
    payload: Seq<u8>,
    first: int,
    n: nat,
    budget: nat,
    limit: usize,
) -> Result<Seq<(Cbor, Cbor)>, CborError>
    decreases budget, 1nat, n,
{
    if n == 0 {
        Ok(Seq::empty())
    } else {
        match node_entries(nodes, payload, first, (n - 1) as nat, budget, limit) {
            Ok(es) => match node_item(nodes, payload, first + 2 * (n - 1), budget, limit) {
                Ok(k) => match node_item(nodes, payload, first + 2 * (n - 1) + 1, budget, limit) {
                    Ok(x) => Ok(es.push((k, x))),
                    Err(e) => Err(e),
                },
                Err(e) => Err(e),
            },
            Err(e) => Err(e),
        }
    }
}

/// The item a whole node array describes, from its first node.
pub open spec fn node_document(nodes: Seq<CborNode>, payload: Seq<u8>, max_depth: usize) -> Result<
    Cbor,
    CborError,
> {
    node_item(nodes, payload, 0, max_depth as nat, max_depth)
}

/// A failure within the first `k` items is the failure of all `n`.
pub proof fn lemma_node_items_err(
    nodes: Seq<CborNode>,
    payload: Seq<u8>,
    first: int,
    k: nat,
    n: nat,
    budget: nat,
    limit: usize,
)
    requires
        k <= n,
        node_items(nodes, payload, first, k, budget, limit) is Err,
    ensures
        node_items(nodes, payload, first, n, budget, limit) == node_items(
            nodes,
            payload,
            first,
            k,
            budget,
            limit,
        ),
    decreases n,
{
    if k < n {
        lemma_node_items_err(nodes, payload, first, k, (n - 1) as nat, budget, limit);
    }
}

/// A failure within the first `k` entries is the failure of all `n`.
pub proof fn lemma_node_entries_err(
    nodes: Seq<CborNode>,
    payload: Seq<u8>,
    first: int,
    k: nat,
    n: nat,
    budget: nat,
    limit: usize,
)
    requires
        k <= n,
        node_entries(nodes, payload, first, k, budget, limit) is Err,
    ensures
        node_entries(nodes, payload, first, n, budget, limit) == node_entries(
            nodes,
            payload,
            first,
            k,
            budget,
            limit,
        ),
    decreases n,
{
    if k < n {
        lemma_node_entries_err(nodes, payload, first, k, (n - 1) as nat, budget, limit);
    }
}

} // verus!

verus! {

/// Nodes that each describe an item describe the sequence of them.
proof fn lemma_node_items_from(
    nodes: Seq<CborNode>,
    payload: Seq<u8>,
    first: int,
    items: Seq<Cbor>,
    k: nat,
    budget: nat,
    limit: usize,
)
    requires
        k <= items.len(),
        forall|i: int|
            0 <= i < items.len() ==> node_item(nodes, payload, first + i, budget, limit) == Ok::<
                Cbor,
                CborError,
            >(#[trigger] items[i]),
    ensures
        node_items(nodes, payload, first, k, budget, limit) == Ok::<Seq<Cbor>, CborError>(
            items.take(k as int),
        ),
    decreases k,
{
    if k > 0 {
        lemma_node_items_from(nodes, payload, first, items, (k - 1) as nat, budget, limit);
        assert(items.take(k as int) =~= items.take(k - 1).push(items[k - 1]));
    } else {
        assert(items.take(0) =~= Seq::<Cbor>::empty());
    }
}

/// Nodes that each describe a key or a value describe the entries.
proof fn lemma_node_entries_from(
    nodes: Seq<CborNode>,
    payload: Seq<u8>,
    first: int,
    es: Seq<(Cbor, Cbor)>,
    k: nat,
    budget: nat,
    limit: usize,
)
    requires
        k <= es.len(),
        forall|i: int|
            0 <= i < es.len() ==> node_item(nodes, payload, first + 2 * i, budget, limit) == Ok::<
                Cbor,
                CborError,
            >((#[trigger] es[i]).0) && node_item(nodes, payload, first + 2 * i + 1, budget, limit)
                == Ok::<Cbor, CborError>(es[i].1),
    ensures
        node_entries(nodes, payload, first, k, budget, limit) == Ok::<
            Seq<(Cbor, Cbor)>,
            CborError,
        >(es.take(k as int)),
    decreases k,
{
    if k > 0 {
        lemma_node_entries_from(nodes, payload, first, es, (k - 1) as nat, budget, limit);
        assert(es.take(k as int) =~= es.take(k - 1).push(es[k - 1]));
    } else {
        assert(es.take(0) =~= Seq::<(Cbor, Cbor)>::empty());
    }
}

/// Nodes that represent an item, within the depth budget, are rebuilt into
/// that item.
pub proof fn lemma_rep_node_item(
    nodes: Seq<CborNode>,
    b: Seq<u8>,
    idx: int,
    v: Cbor,
    lo: int,
    hi: int,
    budget: nat,
    limit: usize,
)
    requires
        rep_in(nodes, b, idx, v, lo, hi),
        hi <= nodes.len(),
        nodes.len() <= usize::MAX,
        within_depth(v, budget),
    ensures
        node_item(nodes, b, idx, budget, limit) == Ok::<Cbor, CborError>(v),
    decreases v,
{
    let nd = nodes[idx];
    match v {
        Cbor::Array(items) => {
            assert forall|i: int| 0 <= i < items.len() implies node_item(
                nodes,
                b,
                nd.first_child + i,
                (budget - 1) as nat,
                limit,
            ) == Ok::<Cbor, CborError>(#[trigger] items[i]) by {
                lemma_rep_node_item(nodes, b, nd.first_child + i, items[i], lo, hi, (budget - 1) as nat, limit);
            }
            lemma_node_items_from(nodes, b, nd.first_child as int, items, items.len(), (budget - 1) as nat, limit);
            assert(items.take(items.len() as int) =~= items);
            if items.len() == 0 {
                assert(items =~= Seq::<Cbor>::empty());
            }
        },
        Cbor::CborMap(es) => {
            assert forall|i: int| 0 <= i < es.len() implies node_item(
                nodes,
                b,
                nd.first_child + 2 * i,
                (budget - 1) as nat,
                limit,
            ) == Ok::<Cbor, CborError>((#[trigger] es[i]).0) && node_item(
                nodes,
                b,
                nd.first_child + 2 * i + 1,
                (budget - 1) as nat,
                limit,
            ) == Ok::<Cbor, CborError>(es[i].1) by {
                lemma_rep_node_item(nodes, b, nd.first_child + 2 * i, es[i].0, lo, hi, (budget - 1) as nat, limit);
                lemma_rep_node_item(nodes, b, nd.first_child + 2 * i + 1, es[i].1, lo, hi, (budget - 1) as nat, limit);
            }
            lemma_node_entries_from(nodes, b, nd.first_child as int, es, es.len(), (budget - 1) as nat, limit);
            assert(es.take(es.len() as int) =~= es);
            if es.len() == 0 {
                assert(es =~= Seq::<(Cbor, Cbor)>::empty());
            }
        },
        Cbor::Tagged(t, x) => {
            lemma_rep_node_item(nodes, b, nd.first_child as int, *x, lo, hi, (budget - 1) as nat, limit);
        },
        _ => {},
    }
}

} // verus!
