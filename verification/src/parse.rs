//! Parsing a document into the flat node array.

use vstd::prelude::*;
use crate::error::CborError;
use crate::format::{
    arg_width, lex_lt, keys_ascending, lemma_parse_entries_err, lemma_parse_items_err, parse_document,
    parse_entries, parse_head, parse_item, parse_items, read_arg, shortest, Mode, MAJOR_ARRAY,
    MAJOR_BYTES, MAJOR_MAP, MAJOR_NEGATIVE, MAJOR_SIMPLE, MAJOR_TEXT, MAJOR_UNSIGNED,
};
use crate::nodes::{
    blank_node, int_node, lemma_rep_frame, lemma_rep_widen, rep_in, simple_node, CborNode,
    CBOR_TYPE_ARRAY, CBOR_TYPE_BYTES, CBOR_TYPE_INT, CBOR_TYPE_MAP, CBOR_TYPE_SIMPLE,
    CBOR_TYPE_TAGGED, CBOR_TYPE_TEXT,
};
use crate::serialize::lex_less;
use crate::text::is_utf8;
use crate::value::Cbor;

verus! {

/// Read the head at `pos`.
fn read_head(b: &[u8], pos: usize) -> (r: Result<(u8, u8, u64, usize), CborError>)
    requires
        pos <= b@.len(),
    ensures
        match parse_head(b@, pos as int) {
            Ok((m, i, a, p)) => r == Ok::<(u8, u8, u64, usize), CborError>((m, i, a, p as usize))
                && pos < p <= b@.len(),
            Err(e) => r == Err::<(u8, u8, u64, usize), CborError>(e),
        },
{
    if pos >= b.len() {
        return Err(CborError::UnexpectedEnd);
    }
    let ib = b[pos];
    let major = ib >> 5u8;
    let info = ib & 31u8;
    if info < 24 {
        return Ok((major, info, info as u64, pos + 1));
    }
    if info < 28 {
        let w: usize = if info == 24 {
            1
        } else if info == 25 {
            2
        } else if info == 26 {
            4
        } else {
            8
        };
        assert(w == arg_width(info));
        if w > b.len() - pos - 1 {
            return Err(CborError::UnexpectedEnd);
        }
        let p = pos + 1;
        let arg: u64 = if info == 24 {
            b[p] as u64
        } else if info == 25 {
            ((b[p] as u64) << 8u64) | (b[p + 1] as u64)
        } else if info == 26 {
            ((b[p] as u64) << 24u64) | ((b[p + 1] as u64) << 16u64) | ((b[p + 2] as u64) << 8u64)
                | (b[p + 3] as u64)
        } else {
            ((b[p] as u64) << 56u64) | ((b[p + 1] as u64) << 48u64) | ((b[p + 2] as u64) << 40u64)
                | ((b[p + 3] as u64) << 32u64) | ((b[p + 4] as u64) << 24u64) | ((b[p + 5] as u64)
                << 16u64) | ((b[p + 6] as u64) << 8u64) | (b[p + 7] as u64)
        };
        assert(arg == read_arg(b@, p as int, info));
        return Ok((major, info, arg, p + w));
    }
    if info == 31 {
        if major == MAJOR_SIMPLE {
            Err(CborError::UnexpectedBreak)
        } else {
            Err(CborError::IndefiniteLength)
        }
    } else {
        Err(CborError::ReservedInfo)
    }
}

/// Whether `n` written with additional information `info` is in its
/// shortest form.
fn is_shortest(info: u8, n: u64) -> (r: bool)
    ensures
        r == shortest(info, n),
{
    if info < 24 {
        true
    } else if info == 24 {
        n >= 24
    } else if info == 25 {
        n >= 0x100
    } else if info == 26 {
        n >= 0x10000
    } else {
        n >= 0x1_0000_0000
    }
}

/// The node of a container of type `t` with `count` entries whose children
/// block starts at `f`.
pub open spec fn container_at(t: u8, count: usize, f: nat) -> CborNode {
    CborNode {
        node_type: t,
        value: count as u64,
        first_child: if count > 0 { f as usize } else { 0 },
        ..blank_node()
    }
}

/// `n` blank nodes.
pub open spec fn blanks(n: nat) -> Seq<CborNode> {
    Seq::new(n, |i: int| blank_node())
}

/// The nodes after the item at `pos` is placed in slot `idx` of `nodes`:
/// a container's children take a block of fresh slots appended at the end,
/// filled in order, each child's own descendants appended after the slots
/// already taken. Meaningful where `parse_item` succeeds.
pub open spec fn lay_item(
    b: Seq<u8>,
    pos: int,
    mode: Mode,
    budget: nat,
    limit: usize,
    nodes: Seq<CborNode>,
    idx: int,
) -> Seq<CborNode>
    decreases budget, 0nat, 0nat,
{
    match parse_head(b, pos) {
        Err(_) => nodes,
        Ok((major, info, arg, p)) => if major == MAJOR_SIMPLE {
            nodes.update(idx, CborNode { node_type: CBOR_TYPE_SIMPLE, value: arg, ..blank_node() })
        } else if major == MAJOR_UNSIGNED || major == MAJOR_NEGATIVE {
            nodes.update(
                idx,
                CborNode {
                    node_type: CBOR_TYPE_INT,
                    negative: if major == MAJOR_UNSIGNED { 0 } else { 1 },
                    value: arg,
                    ..blank_node()
                },
            )
        } else if major == MAJOR_BYTES || major == MAJOR_TEXT {
            nodes.update(
                idx,
                CborNode {
                    node_type: if major == MAJOR_BYTES { CBOR_TYPE_BYTES } else { CBOR_TYPE_TEXT },
                    offset: p as usize,
                    len: arg as usize,
                    ..blank_node()
                },
            )
        } else if budget == 0 {
            nodes
        } else if major == MAJOR_ARRAY || major == MAJOR_MAP {
            let f = nodes.len();
            let width: nat = if major == MAJOR_ARRAY { 1 } else { 2 };
            let node = CborNode {
                node_type: if major == MAJOR_ARRAY { CBOR_TYPE_ARRAY } else { CBOR_TYPE_MAP },
                value: arg,
                first_child: if arg > 0 { f as usize } else { 0 },
                ..blank_node()
            };
            let reserved = nodes.update(idx, node) + blanks((width * arg) as nat);
            if major == MAJOR_ARRAY {
                lay_items(b, p, arg as nat, mode, (budget - 1) as nat, limit, reserved, f as int)
            } else {
                lay_entries(b, p, arg as nat, mode, (budget - 1) as nat, limit, reserved, f as int)
            }
        } else {
            let f = nodes.len();
            let node = CborNode {
                node_type: CBOR_TYPE_TAGGED,
                value: arg,
                first_child: f as usize,
                ..blank_node()
            };
            lay_item(b, p, mode, (budget - 1) as nat, limit, nodes.update(idx, node).push(blank_node()), f as int)
        },
    }
}

/// The nodes after `n` items from `pos` are placed in slots `first..`.
pub open spec fn lay_items(
    b: Seq<u8>,
    pos: int,
    n: nat,
    mode: Mode,
    budget: nat,
    limit: usize,
    nodes: Seq<CborNode>,
    first: int,
) -> Seq<CborNode>
    decreases budget, 1nat, n,
{
    if n == 0 {
        nodes
    } else {
        let before = lay_items(b, pos, (n - 1) as nat, mode, budget, limit, nodes, first);
        let p = parse_items(b, pos, (n - 1) as nat, mode, budget, limit)->Ok_0.1;
        lay_item(b, p, mode, budget, limit, before, first + n - 1)
    }
}

/// The nodes after `n` map entries from `pos` are placed, key then value,
/// in slots `first..`.
pub open spec fn lay_entries(
    b: Seq<u8>,
    pos: int,
    n: nat,
    mode: Mode,
    budget: nat,
    limit: usize,
    nodes: Seq<CborNode>,
    first: int,
) -> Seq<CborNode>
    decreases budget, 1nat, n,
{
    if n == 0 {
        nodes
    } else {
        let before = lay_entries(b, pos, (n - 1) as nat, mode, budget, limit, nodes, first);
        let p = parse_entries(b, pos, (n - 1) as nat, mode, budget, limit)->Ok_0.2;
        let q = parse_item(b, p, mode, budget, limit)->Ok_0.1;
        let keyed = lay_item(b, p, mode, budget, limit, before, first + 2 * n - 2);
        lay_item(b, q, mode, budget, limit, keyed, first + 2 * n - 1)
    }
}

/// The node array of the document `b`: its root in slot 0.
pub open spec fn lay_document(b: Seq<u8>, mode: Mode, max_depth: usize) -> Seq<CborNode> {
    lay_item(b, 0, mode, max_depth as nat, max_depth, seq![blank_node()], 0)
}

/// What `parse_into` promises about the nodes and its result.
pub open spec fn parsed_into(
    b: Seq<u8>,
    spec_result: Result<(Cbor, int), CborError>,
    r: Result<usize, CborError>,
    old_nodes: Seq<CborNode>,
    new_nodes: Seq<CborNode>,
    pos: int,
    idx: int,
    laid: Seq<CborNode>,
) -> bool {
    &&& new_nodes.len() >= old_nodes.len()
    &&& forall|k: int|
        0 <= k < old_nodes.len() && k != idx ==> #[trigger] new_nodes[k] == old_nodes[k]
    &&& match spec_result {
        Ok((v, q)) => r == Ok::<usize, CborError>(q as usize) && pos < q <= b.len() && rep_in(
            new_nodes,
            b,
            idx,
            v,
            old_nodes.len() as int,
            new_nodes.len() as int,
        ) && new_nodes == laid,
        Err(e) => r == Err::<usize, CborError>(e),
    }
}

/// Parse the item at `pos` into node `idx`, appending the blocks of its
/// descendants; return the position after the item.
fn parse_into(
    b: &[u8],
    pos: usize,
    mode: Mode,
    budget: usize,
    limit: usize,
    nodes: &mut Vec<CborNode>,
    idx: usize,
) -> (r: Result<usize, CborError>)
    requires
        pos <= b@.len(),
        b@.len() <= usize::MAX,
        idx < old(nodes)@.len(),
    ensures
        parsed_into(
            b@,
            parse_item(b@, pos as int, mode, budget as nat, limit),
            r,
            old(nodes)@,
            final(nodes)@,
            pos as int,
            idx as int,
            lay_item(b@, pos as int, mode, budget as nat, limit, old(nodes)@, idx as int),
        ),
    decreases budget, 1nat,
{
    let (major, info, arg, p) = match read_head(b, pos) {
        Ok(h) => h,
        Err(e) => return Err(e),
    };
    if major == MAJOR_SIMPLE {
        if info < 24 {
            nodes.set(idx, CborNode { node_type: CBOR_TYPE_SIMPLE, value: info as u64, ..CborNode::default() });
            assert(nodes@[idx as int] == simple_node(info));
            return Ok(p);
        } else if info == 24 {
            if arg < 32 {
                return Err(CborError::InvalidSimpleEncoding);
            }
            nodes.set(idx, CborNode { node_type: CBOR_TYPE_SIMPLE, value: arg, ..CborNode::default() });
            assert(nodes@[idx as int] == simple_node(arg as u8));
            return Ok(p);
        } else {
            return Err(CborError::UnsupportedFloat);
        }
    }
    if mode == Mode::Det && !is_shortest(info, arg) {
        return Err(CborError::NonCanonicalHead);
    }
    if major == MAJOR_UNSIGNED || major == MAJOR_NEGATIVE {
        if arg > i64::MAX as u64 {
            return Err(CborError::IntegerOutOfRange);
        }
        let negative: u8 = if major == MAJOR_UNSIGNED { 0 } else { 1 };
        nodes.set(idx, CborNode { node_type: CBOR_TYPE_INT, negative, value: arg, ..CborNode::default() });
        proof {
            if major == MAJOR_UNSIGNED {
                assert(nodes@[idx as int] == int_node(arg as i64));
            } else {
                assert(nodes@[idx as int] == int_node((-1 - arg) as i64));
            }
        }
        return Ok(p);
    }
    if major == MAJOR_BYTES || major == MAJOR_TEXT {
        if arg > (b.len() - p) as u64 {
            return Err(CborError::UnexpectedEnd);
        }
        let n = arg as usize;
        if major == MAJOR_TEXT && !is_utf8(&b[p..p + n]) {
            return Err(CborError::InvalidUtf8);
        }
        let t = if major == MAJOR_BYTES { CBOR_TYPE_BYTES } else { CBOR_TYPE_TEXT };
        nodes.set(idx, CborNode { node_type: t, offset: p, len: n, ..CborNode::default() });
        return Ok(p + n);
    }
    if budget == 0 {
        return Err(CborError::DepthExceeded { limit });
    }
    if major == MAJOR_ARRAY {
        if arg > (b.len() - p) as u64 {
            return Err(CborError::UnexpectedEnd);
        }
        return parse_array_into(b, p, arg as usize, mode, budget - 1, limit, nodes, idx);
    }
    if major == MAJOR_MAP {
        if arg > ((b.len() - p) / 2) as u64 {
            return Err(CborError::UnexpectedEnd);
        }
        return parse_map_into(b, p, arg as usize, mode, budget - 1, limit, nodes, idx);
    }
    let f = nodes.len();
    nodes.set(idx, CborNode { node_type: CBOR_TYPE_TAGGED, value: arg, first_child: f, ..CborNode::default() });
    let ghost tagged = nodes@;
    nodes.push(CborNode::default());
    let ghost pushed = nodes@;
    let r = parse_into(b, p, mode, budget - 1, limit, nodes, f);
    proof {
        if let Ok((x, q)) = parse_item(b@, p as int, mode, (budget - 1) as nat, limit) {
            lemma_rep_widen(nodes@, b@, f as int, x, f + 1, nodes@.len() as int, f as int, nodes@.len() as int);
            assert(nodes@[idx as int] == tagged[idx as int]);
        }
    }
    r
}

/// Parse `count` items from `p` as the children of the array node `idx`.
fn parse_array_into(
    b: &[u8],
    p: usize,
    count: usize,
    mode: Mode,
    budget: usize,
    limit: usize,
    nodes: &mut Vec<CborNode>,
    idx: usize,
) -> (r: Result<usize, CborError>)
    requires
        p <= b@.len(),
        count <= b@.len() - p,
        b@.len() <= usize::MAX,
        idx < old(nodes)@.len(),
    ensures
        parsed_into(
            b@,
            match parse_items(b@, p as int, count as nat, mode, budget as nat, limit) {
                Ok((items, q)) => Ok((Cbor::Array(items), q)),
                Err(e) => Err(e),
            },
            r,
            old(nodes)@,
            final(nodes)@,
            p as int - 1,
            idx as int,
            lay_items(
                b@,
                p as int,
                count as nat,
                mode,
                budget as nat,
                limit,
                old(nodes)@.update(idx as int, container_at(CBOR_TYPE_ARRAY, count, old(nodes)@.len()))
                    + blanks(count as nat),
                old(nodes)@.len() as int,
            ),
        ),
    decreases budget, 2nat,
{
    let f = nodes.len();
    let node = CborNode {
        node_type: CBOR_TYPE_ARRAY,
        value: count as u64,
        first_child: if count > 0 { f } else { 0 },
        ..CborNode::default()
    };
    nodes.set(idx, node);
    assert(node == container_at(CBOR_TYPE_ARRAY, count, f as nat));
    assert(nodes@ =~= old(nodes)@.update(idx as int, node) + blanks(0));
    let mut k: usize = 0;
    while k < count
        invariant
            k <= count,
            nodes@.len() == f + k,
            nodes@ == old(nodes)@.update(idx as int, node) + blanks(k as nat),
            forall|j: int| 0 <= j < f ==> #[trigger] nodes@[j] == (if j == idx { node } else { old(nodes)@[j] }),
        decreases count - k,
    {
        let ghost was = nodes@;
        nodes.push(CborNode::default());
        assert(nodes@ =~= old(nodes)@.update(idx as int, node) + blanks((k + 1) as nat)) by {
            assert(was =~= old(nodes)@.update(idx as int, node) + blanks(k as nat));
        }
        k += 1;
    }
    let ghost reserved = nodes@;
    let mut q = p;
    let mut i: usize = 0;
    let ghost mut bounds: Seq<int> = seq![(f + count) as int];
    let ghost mut items: Seq<Cbor> = Seq::empty();
    while i < count
        invariant
            i <= count,
            b@.len() <= usize::MAX,
            p <= q <= b@.len(),
            f == old(nodes)@.len(),
            idx < f,
            nodes@.len() >= f + count,
            forall|j: int| 0 <= j < f ==> #[trigger] nodes@[j] == (if j == idx { node } else { old(nodes)@[j] }),
            parse_items(b@, p as int, i as nat, mode, budget as nat, limit) == Ok::<(Seq<Cbor>, int), CborError>((items, q as int)),
            items.len() == i,
            nodes@ == lay_items(b@, p as int, i as nat, mode, budget as nat, limit, reserved, f as int),
            bounds.len() == i + 1,
            bounds[0] == f + count,
            bounds[i as int] == nodes@.len(),
            forall|a: int, c: int| 0 <= a <= c <= i ==> #[trigger] bounds[a] <= #[trigger] bounds[c],
            forall|j: int|
                0 <= j < i ==> rep_in(nodes@, b@, f + j, #[trigger] items[j], bounds[j], bounds[j + 1]),
        decreases count - i,
    {
        let ghost before = nodes@;
        let cur = nodes.len();
        assert(f + i < cur);
        let r = parse_into(b, q, mode, budget, limit, nodes, f + i);
        match r {
            Ok(q2) => {
                proof {
                    assert(parse_item(b@, q as int, mode, budget as nat, limit) is Ok);
                    let (x, qq) = parse_item(b@, q as int, mode, budget as nat, limit)->Ok_0;
                    assert(parse_items(b@, p as int, (i + 1) as nat, mode, budget as nat, limit) == Ok::<(Seq<Cbor>, int), CborError>((items.push(x), qq)));
                    assert forall|j: int| 0 <= j < i implies rep_in(nodes@, b@, f + j, #[trigger] items[j], bounds[j], bounds[j + 1]) by {
                        assert(bounds[0] <= bounds[j] <= bounds[j + 1] <= bounds[i as int]);
                        lemma_rep_frame(before, nodes@, b@, f + j, items[j], bounds[j], bounds[j + 1]);
                    }
                    items = items.push(x);
                    bounds = bounds.push(nodes@.len() as int);
                }
                q = q2;
                i += 1;
            },
            Err(e) => {
                proof {
                    lemma_parse_items_err(b@, p as int, (i + 1) as nat, count as nat, mode, budget as nat, limit);
                }
                return Err(e);
            },
        }
    }
    proof {
        assert forall|j: int| 0 <= j < count implies rep_in(nodes@, b@, f + j, #[trigger] items[j], f as int, nodes@.len() as int) by {
            assert(bounds[j] <= bounds[j + 1] <= bounds[i as int]);
            lemma_rep_widen(nodes@, b@, f + j, items[j], bounds[j], bounds[j + 1], f as int, nodes@.len() as int);
        }
        assert(nodes@[idx as int] == node);
        assert(rep_in(nodes@, b@, idx as int, Cbor::Array(items), f as int, nodes@.len() as int));
    }
    Ok(q)
}

/// Parse `count` entries from `p` as the children of the map node `idx`.
fn parse_map_into(
    b: &[u8],
    p: usize,
    count: usize,
    mode: Mode,
    budget: usize,
    limit: usize,
    nodes: &mut Vec<CborNode>,
    idx: usize,
) -> (r: Result<usize, CborError>)
    requires
        p <= b@.len(),
        2 * count <= b@.len() - p,
        b@.len() <= usize::MAX,
        idx < old(nodes)@.len(),
    ensures
        parsed_into(
            b@,
            match parse_entries(b@, p as int, count as nat, mode, budget as nat, limit) {
                Ok((entries, spans, q)) => if mode == Mode::Det && !keys_ascending(b@, spans) {
                    Err(CborError::MapKeyOrder)
                } else {
                    Ok((Cbor::CborMap(entries), q))
                },
                Err(e) => Err(e),
            },
            r,
            old(nodes)@,
            final(nodes)@,
            p as int - 1,
            idx as int,
            lay_entries(
                b@,
                p as int,
                count as nat,
                mode,
                budget as nat,
                limit,
                old(nodes)@.update(idx as int, container_at(CBOR_TYPE_MAP, count, old(nodes)@.len()))
                    + blanks(2 * count as nat),
                old(nodes)@.len() as int,
            ),
        ),
    decreases budget, 2nat,
{
    let f = nodes.len();
    let node = CborNode {
        node_type: CBOR_TYPE_MAP,
        value: count as u64,
        first_child: if count > 0 { f } else { 0 },
        ..CborNode::default()
    };
    nodes.set(idx, node);
    assert(node == container_at(CBOR_TYPE_MAP, count, f as nat));
    assert(nodes@ =~= old(nodes)@.update(idx as int, node) + blanks(0));
    let mut k: usize = 0;
    while k < 2 * count
        invariant
            k <= 2 * count,
            2 * count <= b@.len(),
            b@.len() <= usize::MAX,
            nodes@.len() == f + k,
            nodes@ == old(nodes)@.update(idx as int, node) + blanks(k as nat),
            forall|j: int| 0 <= j < f ==> #[trigger] nodes@[j] == (if j == idx { node } else { old(nodes)@[j] }),
        decreases 2 * count - k,
    {
        let ghost was = nodes@;
        nodes.push(CborNode::default());
        assert(nodes@ =~= old(nodes)@.update(idx as int, node) + blanks((k + 1) as nat)) by {
            assert(was =~= old(nodes)@.update(idx as int, node) + blanks(k as nat));
        }
        k += 1;
    }
    let ghost reserved = nodes@;
    let mut q = p;
    let mut i: usize = 0;
    let mut spans: Vec<(usize, usize)> = Vec::new();
    let ghost mut bounds: Seq<int> = seq![(f + 2 * count) as int];
    let ghost mut entries: Seq<(Cbor, Cbor)> = Seq::empty();
    let ghost mut gspans: Seq<(int, int)> = Seq::empty();
    while i < count
        invariant
            i <= count,
            2 * count <= b@.len(),
            b@.len() <= usize::MAX,
            p <= q <= b@.len(),
            f == old(nodes)@.len(),
            idx < f,
            nodes@.len() >= f + 2 * count,
            forall|j: int| 0 <= j < f ==> #[trigger] nodes@[j] == (if j == idx { node } else { old(nodes)@[j] }),
            parse_entries(b@, p as int, i as nat, mode, budget as nat, limit) == Ok::<(Seq<(Cbor, Cbor)>, Seq<(int, int)>, int), CborError>((entries, gspans, q as int)),
            spans@.len() == i,
            forall|j: int| 0 <= j < i ==> (#[trigger] spans@[j]).0 == gspans[j].0 && spans@[j].1 == gspans[j].1,
            forall|j: int| 0 <= j < i ==> 0 <= (#[trigger] gspans[j]).0 <= gspans[j].1 <= b@.len(),
            entries.len() == i,
            gspans.len() == i,
            nodes@ == lay_entries(b@, p as int, i as nat, mode, budget as nat, limit, reserved, f as int),
            bounds.len() == 2 * i + 1,
            bounds[0] == f + 2 * count,
            bounds[2 * i as int] == nodes@.len(),
            forall|a: int, c: int| 0 <= a <= c <= 2 * i ==> #[trigger] bounds[a] <= #[trigger] bounds[c],
            forall|j: int|
                0 <= j < i ==> rep_in(nodes@, b@, f + 2 * j, (#[trigger] entries[j]).0, bounds[2 * j], bounds[2 * j + 1])
                    && rep_in(nodes@, b@, f + 2 * j + 1, entries[j].1, bounds[2 * j + 1], bounds[2 * j + 2]),
        decreases count - i,
    {
        let ghost before = nodes@;
        let cur = nodes.len();
        assert(f + 2 * i + 1 < cur);
        let rk = parse_into(b, q, mode, budget, limit, nodes, f + 2 * i);
        let q1 = match rk {
            Ok(q1) => q1,
            Err(e) => {
                proof {
                    lemma_parse_entries_err(b@, p as int, (i + 1) as nat, count as nat, mode, budget as nat, limit);
                }
                return Err(e);
            },
        };
        let ghost middle = nodes@;
        let rv = parse_into(b, q1, mode, budget, limit, nodes, f + 2 * i + 1);
        match rv {
            Ok(q2) => {
                proof {
                    let (kk, qk) = parse_item(b@, q as int, mode, budget as nat, limit)->Ok_0;
                    let (xx, qx) = parse_item(b@, q1 as int, mode, budget as nat, limit)->Ok_0;
                    lemma_rep_frame(middle, nodes@, b@, f + 2 * i, kk, before.len() as int, middle.len() as int);
                    assert forall|j: int| 0 <= j < i implies rep_in(nodes@, b@, f + 2 * j, (#[trigger] entries[j]).0, bounds[2 * j], bounds[2 * j + 1])
                        && rep_in(nodes@, b@, f + 2 * j + 1, entries[j].1, bounds[2 * j + 1], bounds[2 * j + 2]) by {
                        assert(bounds[0] <= bounds[2 * j] <= bounds[2 * j + 1] <= bounds[2 * j + 2] <= bounds[2 * i as int]);
                        lemma_rep_frame(before, middle, b@, f + 2 * j, entries[j].0, bounds[2 * j], bounds[2 * j + 1]);
                        lemma_rep_frame(middle, nodes@, b@, f + 2 * j, entries[j].0, bounds[2 * j], bounds[2 * j + 1]);
                        lemma_rep_frame(before, middle, b@, f + 2 * j + 1, entries[j].1, bounds[2 * j + 1], bounds[2 * j + 2]);
                        lemma_rep_frame(middle, nodes@, b@, f + 2 * j + 1, entries[j].1, bounds[2 * j + 1], bounds[2 * j + 2]);
                    }
                    entries = entries.push((kk, xx));
                    gspans = gspans.push((q as int, q1 as int));
                    bounds = bounds.push(middle.len() as int).push(nodes@.len() as int);
                }
                spans.push((q, q1));
                q = q2;
                i += 1;
            },
            Err(e) => {
                proof {
                    lemma_parse_entries_err(b@, p as int, (i + 1) as nat, count as nat, mode, budget as nat, limit);
                }
                return Err(e);
            },
        }
    }
    proof {
        assert forall|j: int| 0 <= j < count implies rep_in(nodes@, b@, f + 2 * j, (#[trigger] entries[j]).0, f as int, nodes@.len() as int)
            && rep_in(nodes@, b@, f + 2 * j + 1, entries[j].1, f as int, nodes@.len() as int) by {
            assert(bounds[2 * j] <= bounds[2 * j + 1] <= bounds[2 * j + 2] <= bounds[2 * i as int]);
            lemma_rep_widen(nodes@, b@, f + 2 * j, entries[j].0, bounds[2 * j], bounds[2 * j + 1], f as int, nodes@.len() as int);
            lemma_rep_widen(nodes@, b@, f + 2 * j + 1, entries[j].1, bounds[2 * j + 1], bounds[2 * j + 2], f as int, nodes@.len() as int);
        }
        assert(nodes@[idx as int] == node);
        assert(rep_in(nodes@, b@, idx as int, Cbor::CborMap(entries), f as int, nodes@.len() as int));
    }
    if mode == Mode::Det {
        assert(gspans =~= spans_view(spans@));
        if !keys_in_order(b, &spans) {
            return Err(CborError::MapKeyOrder);
        }
    }
    Ok(q)
}

/// Spans as pairs of integers.
pub open spec fn spans_view(spans: Seq<(usize, usize)>) -> Seq<(int, int)> {
    spans.map_values(|s: (usize, usize)| (s.0 as int, s.1 as int))
}

/// Whether the keys at `spans` strictly ascend.
fn keys_in_order(b: &[u8], spans: &Vec<(usize, usize)>) -> (r: bool)
    requires
        forall|j: int| 0 <= j < spans@.len() ==> (#[trigger] spans@[j]).0 <= spans@[j].1 <= b@.len(),
    ensures
        r == keys_ascending(b@, spans_view(spans@)),
{
    let ghost gs = spans_view(spans@);
    let mut j: usize = 0;
    while spans.len() > 0 && j < spans.len() - 1
        invariant
            gs == spans_view(spans@),
            forall|t: int| 0 <= t < spans@.len() ==> (#[trigger] spans@[t]).0 <= spans@[t].1 <= b@.len(),
            forall|t: int| 0 <= t < j && t < gs.len() - 1 ==> lex_lt_spans(b@, gs, t),
        decreases spans@.len() - j,
    {
        let (s0, e0) = spans[j];
        let (s1, e1) = spans[j + 1];
        if !lex_less(&b[s0..e0], &b[s1..e1]) {
            assert(!lex_lt_spans(b@, gs, j as int));
            return false;
        }
        j += 1;
    }
    assert forall|t: int| 0 <= t < gs.len() - 1 implies lex_lt(
        b@.subrange(gs[t].0, gs[t].1),
        b@.subrange(#[trigger] gs[t + 1].0, gs[t + 1].1),
    ) by {
        assert(lex_lt_spans(b@, gs, t));
    }
    true
}

/// Whether the key at `spans[t]` sorts before the next one.
spec fn lex_lt_spans(b: Seq<u8>, spans: Seq<(int, int)>, t: int) -> bool {
    crate::format::lex_lt(
        b.subrange(spans[t].0, spans[t].1),
        b.subrange(spans[t + 1].0, spans[t + 1].1),
    )
}

/// Parse a whole document into a flat node array, with containers nested at
/// most `max_depth` deep.
pub fn parse_nodes(b: &[u8], mode: Mode, max_depth: usize) -> (r: Result<Vec<CborNode>, CborError>)
    ensures
        match parse_document(b@, mode, max_depth) {
            Ok(v) => r matches Ok(nodes) && rep_in(nodes@, b@, 0, v, 0, nodes@.len() as int)
                && nodes@ == lay_document(b@, mode, max_depth),
            Err(e) => r == Err::<Vec<CborNode>, CborError>(e),
        },
{
    let blen: usize = b.len();
    let mut nodes: Vec<CborNode> = Vec::new();
    nodes.push(CborNode::default());
    assert(nodes@ =~= seq![blank_node()]);
    match parse_into(b, 0, mode, max_depth, max_depth, &mut nodes, 0) {
        Ok(q) => {
            if q == blen {
                proof {
                    let (v, qq) = parse_item(b@, 0, mode, max_depth as nat, max_depth)->Ok_0;
                    lemma_rep_widen(nodes@, b@, 0, v, 1, nodes@.len() as int, 0, nodes@.len() as int);
                }
                Ok(nodes)
            } else {
                Err(CborError::TrailingBytes)
            }
        },
        Err(e) => Err(e),
    }
}

} // verus!
