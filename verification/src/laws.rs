//! Laws of the library: what one operation gives back of another.

use vstd::prelude::*;
use crate::error::CborError;
use crate::format::{
    has_adjacent_duplicate, insert_entry, lemma_insert_entry, lex_lt, sort_entries, concat_entries, head, int_bytes, parse_entries, parse_head, parse_item, parse_items, ser_entries,
    ser_item, ser_items, shortest, simple_bytes, EncodedEntry, Mode, MAJOR_ARRAY, MAJOR_BYTES,
    MAJOR_MAP, MAJOR_NEGATIVE, MAJOR_SIMPLE, MAJOR_TAG, MAJOR_TEXT, MAJOR_UNSIGNED,
};
use crate::value::{within_depth, Cbor};
use crate::document::node_serialization;
use crate::format::{parse_document, serialization};
use crate::nodes::{lemma_rep_node_item, node_document, rep_in, CborNode};
use crate::{capped, MAX_DEPTH_LIMIT};
use crate::access::{has_key, keys_usable, pairs_of, usable_key};
use crate::format::{keys_ascending, lemma_parse_entries_facts, lemma_parse_item_facts, lemma_parse_items_facts};

verus! {

/// The additional information the shortest head of argument `n` carries.
pub open spec fn head_info(n: u64) -> u8 {
    if n < 24 {
        n as u8
    } else if n < 0x100 {
        24
    } else if n < 0x10000 {
        25
    } else if n < 0x1_0000_0000 {
        26
    } else {
        27
    }
}

proof fn lemma_initial_byte(major: u8, k: u8)
    requires
        major <= 7,
        k < 32,
    ensures
        ((major * 32 + k) as u8) >> 5u8 == major,
        ((major * 32 + k) as u8) & 31u8 == k,
{
    let x: u8 = (major * 32 + k) as u8;
    assert(x == major * 32 + k);
    assert(x >> 5u8 == major && x & 31u8 == k) by (bit_vector)
        requires
            x == major * 32 + k,
            major <= 7,
            k < 32,
    ;
}

proof fn lemma_arg_bytes(n: u64)
    ensures
        n < 0x100 ==> ((n as u8) as u64) == n,
        n < 0x10000 ==> ((((n >> 8u64) as u8) as u64) << 8u64) | ((n as u8) as u64) == n,
        n < 0x1_0000_0000 ==> ((((n >> 24u64) as u8) as u64) << 24u64) | ((((n >> 16u64) as u8) as u64)
            << 16u64) | ((((n >> 8u64) as u8) as u64) << 8u64) | ((n as u8) as u64) == n,
        ((((n >> 56u64) as u8) as u64) << 56u64) | ((((n >> 48u64) as u8) as u64) << 48u64) | ((((n
            >> 40u64) as u8) as u64) << 40u64) | ((((n >> 32u64) as u8) as u64) << 32u64) | ((((n
            >> 24u64) as u8) as u64) << 24u64) | ((((n >> 16u64) as u8) as u64) << 16u64) | ((((n
            >> 8u64) as u8) as u64) << 8u64) | ((n as u8) as u64) == n,
{
    assert(n < 0x100 ==> ((n as u8) as u64) == n) by (bit_vector);
    assert(n < 0x10000 ==> ((((n >> 8u64) as u8) as u64) << 8u64) | ((n as u8) as u64) == n)
        by (bit_vector);
    assert(n < 0x1_0000_0000 ==> ((((n >> 24u64) as u8) as u64) << 24u64) | ((((n >> 16u64) as u8)
        as u64) << 16u64) | ((((n >> 8u64) as u8) as u64) << 8u64) | ((n as u8) as u64) == n)
        by (bit_vector);
    assert(((((n >> 56u64) as u8) as u64) << 56u64) | ((((n >> 48u64) as u8) as u64) << 48u64) | ((((n
        >> 40u64) as u8) as u64) << 40u64) | ((((n >> 32u64) as u8) as u64) << 32u64) | ((((n
        >> 24u64) as u8) as u64) << 24u64) | ((((n >> 16u64) as u8) as u64) << 16u64) | ((((n
        >> 8u64) as u8) as u64) << 8u64) | ((n as u8) as u64) == n) by (bit_vector);
}

/// The shortest head of `n` parses back to `major` and `n`.
pub proof fn lemma_head_parses(major: u8, n: u64, b: Seq<u8>, pos: int)
    requires
        major <= 7,
        0 <= pos,
        pos + head(major, n).len() <= b.len(),
        b.subrange(pos, pos + head(major, n).len()) == head(major, n),
    ensures
        parse_head(b, pos) == Ok::<(u8, u8, u64, int), CborError>(
            (major, head_info(n), n, pos + head(major, n).len()),
        ),
        shortest(head_info(n), n),
        head(major, n).len() >= 1,
{
    let h = head(major, n);
    assert forall|k: int| 0 <= k < h.len() implies b[pos + k] == #[trigger] h[k] by {
        assert(b.subrange(pos, pos + h.len())[k] == b[pos + k]);
    }
    lemma_initial_byte(major, head_info(n));
    lemma_arg_bytes(n);
    if n >= 24 {
        if n < 0x100 {
            assert(h[1] == b[pos + 1]);
        } else if n < 0x10000 {
            assert(h[1] == b[pos + 1]);
            assert(h[2] == b[pos + 2]);
        } else if n < 0x1_0000_0000 {
            assert(h[1] == b[pos + 1]);
            assert(h[2] == b[pos + 2]);
            assert(h[3] == b[pos + 3]);
            assert(h[4] == b[pos + 4]);
        } else {
            assert(h[1] == b[pos + 1]);
            assert(h[2] == b[pos + 2]);
            assert(h[3] == b[pos + 3]);
            assert(h[4] == b[pos + 4]);
            assert(h[5] == b[pos + 5]);
            assert(h[6] == b[pos + 6]);
            assert(h[7] == b[pos + 7]);
            assert(h[8] == b[pos + 8]);
        }
    }
    assert(h[0] == b[pos]);
}


/// A serialized item takes at least one byte.
proof fn lemma_ser_item_nonempty(v: Cbor, mode: Mode, budget: nat, limit: usize)
    requires
        ser_item(v, mode, budget, limit) is Ok,
    ensures
        ser_item(v, mode, budget, limit)->Ok_0.len() >= 1,
{
    match v {
        Cbor::Int(i) => {
            assert(int_bytes(i).len() >= 1);
        },
        Cbor::Simple(x) => {
            assert(simple_bytes(x).len() >= 1);
        },
        Cbor::Bytes(p) => {
            assert(head(MAJOR_BYTES, p.len() as u64).len() >= 1);
        },
        Cbor::Text(p) => {
            assert(head(MAJOR_TEXT, p.len() as u64).len() >= 1);
        },
        Cbor::Array(items) => {
            assert(head(MAJOR_ARRAY, items.len() as u64).len() >= 1);
        },
        Cbor::CborMap(es) => {
            assert(head(MAJOR_MAP, es.len() as u64).len() >= 1);
        },
        Cbor::Tagged(t, x) => {
            assert(head(MAJOR_TAG, t).len() >= 1);
        },
    }
}

/// Serialized items take at least one byte each.
proof fn lemma_ser_items_len(items: Seq<Cbor>, mode: Mode, budget: nat, limit: usize)
    requires
        ser_items(items, mode, budget, limit) is Ok,
    ensures
        ser_items(items, mode, budget, limit)->Ok_0.len() >= items.len(),
    decreases items.len(),
{
    if items.len() > 0 {
        lemma_ser_items_len(items.drop_last(), mode, budget, limit);
        lemma_ser_item_nonempty(items.last(), mode, budget, limit);
    }
}

/// The entries' serializations are their keys' and values' serializations.
pub proof fn lemma_ser_entries_each(entries: Seq<(Cbor, Cbor)>, mode: Mode, budget: nat, limit: usize)
    requires
        ser_entries(entries, mode, budget, limit) is Ok,
    ensures
        ser_entries(entries, mode, budget, limit)->Ok_0.len() == entries.len(),
        forall|i: int|
            0 <= i < entries.len() ==> ser_item((#[trigger] entries[i]).0, mode, budget, limit)
                == Ok::<Seq<u8>, CborError>(ser_entries(entries, mode, budget, limit)->Ok_0[i].0)
                && ser_item(entries[i].1, mode, budget, limit) == Ok::<Seq<u8>, CborError>(
                ser_entries(entries, mode, budget, limit)->Ok_0[i].1,
            ),
    decreases entries.len(),
{
    if entries.len() > 0 {
        lemma_ser_entries_each(entries.drop_last(), mode, budget, limit);
        let enc = ser_entries(entries, mode, budget, limit)->Ok_0;
        let prev = ser_entries(entries.drop_last(), mode, budget, limit)->Ok_0;
        assert forall|i: int| 0 <= i < entries.len() implies ser_item(
            (#[trigger] entries[i]).0,
            mode,
            budget,
            limit,
        ) == Ok::<Seq<u8>, CborError>(enc[i].0) && ser_item(entries[i].1, mode, budget, limit)
            == Ok::<Seq<u8>, CborError>(enc[i].1) by {
            if i < entries.len() - 1 {
                assert(entries.drop_last()[i] == entries[i]);
                assert(enc[i] == prev[i]);
            }
        }
    }
}

/// Entries of nonempty keys and values take at least two bytes each.
proof fn lemma_concat_entries_len(s: Seq<EncodedEntry>)
    requires
        forall|i: int| 0 <= i < s.len() ==> (#[trigger] s[i]).0.len() >= 1 && s[i].1.len() >= 1,
    ensures
        concat_entries(s).len() >= 2 * s.len(),
    decreases s.len(),
{
    if s.len() > 0 {
        assert forall|i: int| 0 <= i < s.drop_last().len() implies (#[trigger] s.drop_last()[i]).0.len()
            >= 1 && s.drop_last()[i].1.len() >= 1 by {
            assert(s.drop_last()[i] == s[i]);
        }
        lemma_concat_entries_len(s.drop_last());
        assert(s[s.len() - 1] == s.last());
    }
}

/// The bytes at `pos..pos + e.len()` of `b` are `e`.
pub open spec fn holds_at(b: Seq<u8>, pos: int, e: Seq<u8>) -> bool {
    0 <= pos && pos + e.len() <= b.len() && b.subrange(pos, pos + e.len()) == e
}

proof fn lemma_holds_split(b: Seq<u8>, pos: int, x: Seq<u8>, y: Seq<u8>)
    requires
        holds_at(b, pos, x + y),
    ensures
        holds_at(b, pos, x),
        holds_at(b, pos + x.len(), y),
{
    assert(b.subrange(pos, pos + x.len()) =~= (x + y).subrange(0, x.len() as int));
    assert((x + y).subrange(0, x.len() as int) =~= x);
    assert(b.subrange(pos + x.len(), pos + x.len() + y.len()) =~= (x + y).subrange(
        x.len() as int,
        (x + y).len() as int,
    ));
    assert((x + y).subrange(x.len() as int, (x + y).len() as int) =~= y);
}

/// A serialization, found anywhere in a buffer, parses back to the item
/// it came from, and the parse ends where the serialization does.
pub proof fn lemma_ser_parse_item(v: Cbor, budget: nat, limit: usize, b: Seq<u8>, pos: int)
    requires
        ser_item(v, Mode::Nondet, budget, limit) is Ok,
        holds_at(b, pos, ser_item(v, Mode::Nondet, budget, limit)->Ok_0),
    ensures
        parse_item(b, pos, Mode::Nondet, budget, limit) == Ok::<(Cbor, int), CborError>(
            (v, pos + ser_item(v, Mode::Nondet, budget, limit)->Ok_0.len()),
        ),
    decreases budget, 0nat, 0nat,
{
    let e = ser_item(v, Mode::Nondet, budget, limit)->Ok_0;
    match v {
        Cbor::Int(i) => {
            if i >= 0 {
                lemma_head_parses(MAJOR_UNSIGNED, i as u64, b, pos);
            } else {
                lemma_head_parses(MAJOR_NEGATIVE, (-1 - i) as u64, b, pos);
            }
        },
        Cbor::Bytes(p) => {
            let h = head(MAJOR_BYTES, p.len() as u64);
            lemma_holds_split(b, pos, h, p);
            lemma_head_parses(MAJOR_BYTES, p.len() as u64, b, pos);
        },
        Cbor::Text(p) => {
            let h = head(MAJOR_TEXT, p.len() as u64);
            lemma_holds_split(b, pos, h, p);
            lemma_head_parses(MAJOR_TEXT, p.len() as u64, b, pos);
        },
        Cbor::Simple(x) => {
            assert(b[pos] == b.subrange(pos, pos + e.len())[0]);
            if x < 24 {
                lemma_initial_byte(MAJOR_SIMPLE, x);
                assert((MAJOR_SIMPLE * 32 + x) as u8 == (0xe0 + x) as u8);
            } else {
                lemma_initial_byte(MAJOR_SIMPLE, 24);
                assert(b[pos + 1] == b.subrange(pos, pos + e.len())[1]);
            }
        },
        Cbor::Array(items) => {
            let h = head(MAJOR_ARRAY, items.len() as u64);
            let s = ser_items(items, Mode::Nondet, (budget - 1) as nat, limit)->Ok_0;
            lemma_holds_split(b, pos, h, s);
            lemma_head_parses(MAJOR_ARRAY, items.len() as u64, b, pos);
            lemma_ser_items_len(items, Mode::Nondet, (budget - 1) as nat, limit);
            lemma_ser_parse_items(items, (budget - 1) as nat, limit, b, pos + h.len());
        },
        Cbor::CborMap(es) => {
            let h = head(MAJOR_MAP, es.len() as u64);
            let enc = ser_entries(es, Mode::Nondet, (budget - 1) as nat, limit)->Ok_0;
            let s = concat_entries(enc);
            lemma_holds_split(b, pos, h, s);
            lemma_head_parses(MAJOR_MAP, es.len() as u64, b, pos);
            lemma_ser_entries_each(es, Mode::Nondet, (budget - 1) as nat, limit);
            assert forall|i: int| 0 <= i < enc.len() implies (#[trigger] enc[i]).0.len() >= 1
                && enc[i].1.len() >= 1 by {
                lemma_ser_item_nonempty(es[i].0, Mode::Nondet, (budget - 1) as nat, limit);
                lemma_ser_item_nonempty(es[i].1, Mode::Nondet, (budget - 1) as nat, limit);
            }
            lemma_concat_entries_len(enc);
            lemma_ser_parse_entries(es, (budget - 1) as nat, limit, b, pos + h.len());
        },
        Cbor::Tagged(t, x) => {
            let h = head(MAJOR_TAG, t);
            let s = ser_item(*x, Mode::Nondet, (budget - 1) as nat, limit)->Ok_0;
            lemma_holds_split(b, pos, h, s);
            lemma_head_parses(MAJOR_TAG, t, b, pos);
            lemma_ser_parse_item(*x, (budget - 1) as nat, limit, b, pos + h.len());
        },
    }
}

/// Serialized items, one after the other in a buffer, parse back to the
/// items.
pub proof fn lemma_ser_parse_items(items: Seq<Cbor>, budget: nat, limit: usize, b: Seq<u8>, pos: int)
    requires
        ser_items(items, Mode::Nondet, budget, limit) is Ok,
        holds_at(b, pos, ser_items(items, Mode::Nondet, budget, limit)->Ok_0),
    ensures
        parse_items(b, pos, items.len(), Mode::Nondet, budget, limit) == Ok::<
            (Seq<Cbor>, int),
            CborError,
        >((items, pos + ser_items(items, Mode::Nondet, budget, limit)->Ok_0.len())),
    decreases budget, 1nat, items.len(),
{
    if items.len() == 0 {
        assert(items =~= Seq::<Cbor>::empty());
    } else {
        let a = ser_items(items.drop_last(), Mode::Nondet, budget, limit)->Ok_0;
        let c = ser_item(items.last(), Mode::Nondet, budget, limit)->Ok_0;
        lemma_holds_split(b, pos, a, c);
        lemma_ser_parse_items(items.drop_last(), budget, limit, b, pos);
        lemma_ser_parse_item(items.last(), budget, limit, b, pos + a.len());
        assert(items.drop_last().push(items.last()) =~= items);
    }
}

/// Serialized entries, one after the other in a buffer, parse back to the
/// entries.
pub proof fn lemma_ser_parse_entries(
    entries: Seq<(Cbor, Cbor)>,
    budget: nat,
    limit: usize,
    b: Seq<u8>,
    pos: int,
)
    requires
        ser_entries(entries, Mode::Nondet, budget, limit) is Ok,
        holds_at(b, pos, concat_entries(ser_entries(entries, Mode::Nondet, budget, limit)->Ok_0)),
    ensures
        parse_entries(b, pos, entries.len(), Mode::Nondet, budget, limit) matches Ok((es, _, q))
            && es == entries && q == pos + concat_entries(
            ser_entries(entries, Mode::Nondet, budget, limit)->Ok_0,
        ).len(),
    decreases budget, 1nat, entries.len(),
{
    if entries.len() == 0 {
        assert(entries =~= Seq::<(Cbor, Cbor)>::empty());
    } else {
        let enc = ser_entries(entries, Mode::Nondet, budget, limit)->Ok_0;
        let prev = ser_entries(entries.drop_last(), Mode::Nondet, budget, limit)->Ok_0;
        let k = ser_item(entries.last().0, Mode::Nondet, budget, limit)->Ok_0;
        let x = ser_item(entries.last().1, Mode::Nondet, budget, limit)->Ok_0;
        assert(enc == prev.push((k, x)));
        assert(enc.drop_last() =~= prev);
        let a = concat_entries(prev);
        assert(concat_entries(enc) == a + k + x);
        lemma_holds_split(b, pos, a + k, x);
        lemma_holds_split(b, pos, a, k);
        lemma_ser_parse_entries(entries.drop_last(), budget, limit, b, pos);
        lemma_ser_parse_item(entries.last().0, budget, limit, b, pos + a.len());
        lemma_ser_parse_item(entries.last().1, budget, limit, b, pos + a.len() + k.len());
        assert(entries.drop_last().push(entries.last()) =~= entries);
    }
}


/// Bytewise order is irreflexive.
pub proof fn lemma_lex_irreflexive(a: Seq<u8>)
    ensures
        !lex_lt(a, a),
    decreases a.len(),
{
    if a.len() > 0 {
        lemma_lex_irreflexive(a.drop_first());
    }
}

/// Bytewise order is asymmetric.
pub proof fn lemma_lex_asymmetric(a: Seq<u8>, c: Seq<u8>)
    requires
        lex_lt(a, c),
    ensures
        !lex_lt(c, a),
    decreases a.len(),
{
    if a.len() > 0 && c.len() > 0 && a[0] == c[0] {
        lemma_lex_asymmetric(a.drop_first(), c.drop_first());
    }
}

/// Bytewise order is transitive.
pub proof fn lemma_lex_transitive(a: Seq<u8>, c: Seq<u8>, d: Seq<u8>)
    requires
        lex_lt(a, c),
        lex_lt(c, d),
    ensures
        lex_lt(a, d),
    decreases a.len(),
{
    if a.len() > 0 && c.len() > 0 && d.len() > 0 && a[0] == c[0] && c[0] == d[0] {
        lemma_lex_transitive(a.drop_first(), c.drop_first(), d.drop_first());
    }
}

/// Bytewise order is total: of two different strings one sorts first.
pub proof fn lemma_lex_total(a: Seq<u8>, c: Seq<u8>)
    requires
        a != c,
    ensures
        lex_lt(a, c) || lex_lt(c, a),
    decreases a.len(),
{
    if a.len() > 0 && c.len() > 0 && a[0] == c[0] {
        if a.drop_first() == c.drop_first() {
            assert(a =~= seq![a[0]] + a.drop_first());
            assert(c =~= seq![c[0]] + c.drop_first());
        }
        lemma_lex_total(a.drop_first(), c.drop_first());
    } else if a.len() == 0 && c.len() == 0 {
        assert(a =~= c);
    }
}

/// Whether the entries' keys strictly ascend, each before the next.
pub open spec fn keys_strictly_ascend(s: Seq<EncodedEntry>) -> bool {
    forall|i: int| 0 <= i < s.len() - 1 ==> lex_lt(s[i].0, #[trigger] s[i + 1].0)
}

/// Keys that ascend from each to the next ascend all the way.
pub(crate) proof fn lemma_ascend_all(s: Seq<EncodedEntry>, i: int, j: int)
    requires
        keys_strictly_ascend(s),
        0 <= i < j < s.len(),
    ensures
        lex_lt(s[i].0, s[j].0),
    decreases j - i,
{
    if j == i + 1 {
        assert(lex_lt(s[i].0, s[i + 1].0));
    } else {
        lemma_ascend_all(s, i, j - 1);
        assert(lex_lt(s[j - 1].0, s[j - 1 + 1].0));
        lemma_lex_transitive(s[i].0, s[j - 1].0, s[j].0);
    }
}

/// Sorting entries whose keys already strictly ascend changes nothing, and
/// no two neighbours share a key.
pub proof fn lemma_sorted_entries_fixed(s: Seq<EncodedEntry>)
    requires
        keys_strictly_ascend(s),
    ensures
        sort_entries(s) == s,
        !has_adjacent_duplicate(s),
    decreases s.len(),
{
    if s.len() > 0 {
        let t = s.drop_last();
        assert(keys_strictly_ascend(t)) by {
            assert forall|i: int| 0 <= i < t.len() - 1 implies lex_lt(t[i].0, #[trigger] t[i + 1].0) by {
                assert(lex_lt(s[i].0, s[i + 1].0));
            }
        }
        lemma_sorted_entries_fixed(t);
        assert forall|k: int| 0 <= k < t.len() implies !lex_lt(s.last().0, #[trigger] t[k].0) by {
            lemma_ascend_all(s, k, s.len() - 1);
            lemma_lex_asymmetric(s[k].0, s.last().0);
        }
        lemma_insert_entry(t, s.last(), t.len() as int);
        assert(t.insert(t.len() as int, s.last()) =~= s);
    }
    assert forall|i: int| 0 <= i < s.len() - 1 implies #[trigger] s[i].0 != s[i + 1].0 by {
        assert(lex_lt(s[i].0, s[i + 1].0));
        lemma_lex_irreflexive(s[i].0);
    }
}


proof fn lemma_split_byte(x: u8)
    ensures
        x >> 5u8 <= 7,
        x & 31u8 < 32,
        (((x >> 5u8) * 32 + (x & 31u8)) as u8) == x,
{
    let m = x >> 5u8;
    let k = x & 31u8;
    assert(m <= 7 && k < 32 && m * 32 + k == x) by (bit_vector)
        requires
            m == x >> 5u8,
            k == x & 31u8,
    ;
}

proof fn lemma_read_bytes(b0: u8, b1: u8, b2: u8, b3: u8, b4: u8, b5: u8, b6: u8, b7: u8)
    ensures
        ({
            let n = ((b0 as u64) << 8u64) | (b1 as u64);
            n < 0x10000 && (n >> 8u64) as u8 == b0 && n as u8 == b1
        }),
        ({
            let n = ((b0 as u64) << 24u64) | ((b1 as u64) << 16u64) | ((b2 as u64) << 8u64) | (
            b3 as u64);
            n < 0x1_0000_0000 && (n >> 24u64) as u8 == b0 && (n >> 16u64) as u8 == b1 && (n
                >> 8u64) as u8 == b2 && n as u8 == b3
        }),
        ({
            let n = ((b0 as u64) << 56u64) | ((b1 as u64) << 48u64) | ((b2 as u64) << 40u64) | ((
            b3 as u64) << 32u64) | ((b4 as u64) << 24u64) | ((b5 as u64) << 16u64) | ((b6 as u64)
                << 8u64) | (b7 as u64);
            (n >> 56u64) as u8 == b0 && (n >> 48u64) as u8 == b1 && (n >> 40u64) as u8 == b2 && (n
                >> 32u64) as u8 == b3 && (n >> 24u64) as u8 == b4 && (n >> 16u64) as u8 == b5 && (n
                >> 8u64) as u8 == b6 && n as u8 == b7
        }),
{
    assert({
        let n = ((b0 as u64) << 8u64) | (b1 as u64);
        n < 0x10000 && (n >> 8u64) as u8 == b0 && n as u8 == b1
    }) by (bit_vector);
    assert({
        let n = ((b0 as u64) << 24u64) | ((b1 as u64) << 16u64) | ((b2 as u64) << 8u64) | (
        b3 as u64);
        n < 0x1_0000_0000 && (n >> 24u64) as u8 == b0 && (n >> 16u64) as u8 == b1 && (n >> 8u64)
            as u8 == b2 && n as u8 == b3
    }) by (bit_vector);
    assert({
        let n = ((b0 as u64) << 56u64) | ((b1 as u64) << 48u64) | ((b2 as u64) << 40u64) | ((
        b3 as u64) << 32u64) | ((b4 as u64) << 24u64) | ((b5 as u64) << 16u64) | ((b6 as u64)
            << 8u64) | (b7 as u64);
        (n >> 56u64) as u8 == b0 && (n >> 48u64) as u8 == b1 && (n >> 40u64) as u8 == b2 && (n
            >> 32u64) as u8 == b3 && (n >> 24u64) as u8 == b4 && (n >> 16u64) as u8 == b5 && (n
            >> 8u64) as u8 == b6 && n as u8 == b7
    }) by (bit_vector);
}

/// A head in its shortest form is the shortest head of what it states.
pub proof fn lemma_head_from_parse(b: Seq<u8>, pos: int)
    requires
        parse_head(b, pos) is Ok,
        shortest(parse_head(b, pos)->Ok_0.1, parse_head(b, pos)->Ok_0.2),
    ensures
        ({
            let (major, info, arg, p) = parse_head(b, pos)->Ok_0;
            &&& major <= 7
            &&& head(major, arg) == b.subrange(pos, p)
        }),
{
    let (major, info, arg, p) = parse_head(b, pos)->Ok_0;
    lemma_split_byte(b[pos]);
    let z: u8 = 0;
    if info < 24 {
        assert(head(major, arg) =~= b.subrange(pos, p));
    } else if info == 24 {
        let b1 = b[pos + 1];
        assert(((b1 as u64) as u8) == b1 && (b1 as u64) < 0x100) by (bit_vector);
        assert(head(major, arg) =~= b.subrange(pos, p));
    } else if info == 25 {
        lemma_read_bytes(b[pos + 1], b[pos + 2], z, z, z, z, z, z);
        assert(head(major, arg) =~= b.subrange(pos, p));
    } else if info == 26 {
        lemma_read_bytes(b[pos + 1], b[pos + 2], b[pos + 3], b[pos + 4], z, z, z, z);
        assert(head(major, arg) =~= b.subrange(pos, p));
    } else {
        lemma_read_bytes(b[pos + 1], b[pos + 2], b[pos + 3], b[pos + 4], b[pos + 5], b[pos + 6], b[pos + 7], b[pos + 8]);
        assert(head(major, arg) =~= b.subrange(pos, p));
    }
}


/// A deterministic parse reads back exactly what deterministic
/// serialization of its result writes.
pub proof fn lemma_parse_ser_item(b: Seq<u8>, pos: int, budget: nat, limit: usize)
    requires
        parse_item(b, pos, Mode::Det, budget, limit) is Ok,
    ensures
        ser_item(parse_item(b, pos, Mode::Det, budget, limit)->Ok_0.0, Mode::Det, budget, limit)
            == Ok::<Seq<u8>, CborError>(
            b.subrange(pos, parse_item(b, pos, Mode::Det, budget, limit)->Ok_0.1),
        ),
    decreases budget, 0nat, 0nat,
{
    let (v, q) = parse_item(b, pos, Mode::Det, budget, limit)->Ok_0;
    let (major, info, arg, p) = parse_head(b, pos)->Ok_0;
    lemma_split_byte(b[pos]);
    lemma_parse_item_facts(b, pos, Mode::Det, budget, limit);
    if major == MAJOR_SIMPLE {
        if info < 24 {
            assert(simple_bytes(info) =~= b.subrange(pos, q));
        } else {
            let b1 = b[pos + 1];
            assert(((b1 as u64) as u8) == b1) by (bit_vector);
            assert(simple_bytes(arg as u8) =~= b.subrange(pos, q));
        }
    } else {
        lemma_head_from_parse(b, pos);
        if major == MAJOR_UNSIGNED || major == MAJOR_NEGATIVE {
            assert(int_bytes(v->Int_0) == head(major, arg));
        } else if major == MAJOR_BYTES || major == MAJOR_TEXT {
            assert(b.subrange(pos, p) + b.subrange(p, q) =~= b.subrange(pos, q));
        } else if major == MAJOR_ARRAY {
            lemma_parse_items_facts(b, p, arg as nat, Mode::Det, (budget - 1) as nat, limit);
            lemma_parse_ser_items(b, p, arg as nat, (budget - 1) as nat, limit);
            assert(b.subrange(pos, p) + b.subrange(p, q) =~= b.subrange(pos, q));
        } else if major == MAJOR_MAP {
            let (es, spans, q2) = parse_entries(b, p, arg as nat, Mode::Det, (budget - 1) as nat, limit)->Ok_0;
            lemma_parse_entries_facts(b, p, arg as nat, Mode::Det, (budget - 1) as nat, limit);
            lemma_parse_ser_entries(b, p, arg as nat, (budget - 1) as nat, limit);
            let enc = ser_entries(es, Mode::Det, (budget - 1) as nat, limit)->Ok_0;
            assert(keys_strictly_ascend(enc)) by {
                assert forall|i: int| 0 <= i < enc.len() - 1 implies lex_lt(enc[i].0, #[trigger] enc[i + 1].0) by {
                    assert(spans[i + 1] == spans[i + 1]);
                }
            }
            lemma_sorted_entries_fixed(enc);
            assert(b.subrange(pos, p) + b.subrange(p, q) =~= b.subrange(pos, q));
        } else {
            lemma_parse_item_facts(b, p, Mode::Det, (budget - 1) as nat, limit);
            lemma_parse_ser_item(b, p, (budget - 1) as nat, limit);
            assert(b.subrange(pos, p) + b.subrange(p, q) =~= b.subrange(pos, q));
        }
    }
}

/// Deterministically parsed items serialize back to the bytes they were
/// read from.
pub proof fn lemma_parse_ser_items(b: Seq<u8>, pos: int, n: nat, budget: nat, limit: usize)
    requires
        parse_items(b, pos, n, Mode::Det, budget, limit) is Ok,
        0 <= pos <= b.len(),
    ensures
        ser_items(parse_items(b, pos, n, Mode::Det, budget, limit)->Ok_0.0, Mode::Det, budget, limit)
            == Ok::<Seq<u8>, CborError>(
            b.subrange(pos, parse_items(b, pos, n, Mode::Det, budget, limit)->Ok_0.1),
        ),
    decreases budget, 1nat, n,
{
    let (xs, q) = parse_items(b, pos, n, Mode::Det, budget, limit)->Ok_0;
    if n == 0 {
        assert(b.subrange(pos, q) =~= Seq::<u8>::empty());
    } else {
        let (prev, p) = parse_items(b, pos, (n - 1) as nat, Mode::Det, budget, limit)->Ok_0;
        lemma_parse_items_facts(b, pos, (n - 1) as nat, Mode::Det, budget, limit);
        lemma_parse_ser_items(b, pos, (n - 1) as nat, budget, limit);
        lemma_parse_ser_item(b, p, budget, limit);
        lemma_parse_item_facts(b, p, Mode::Det, budget, limit);
        assert(xs.drop_last() =~= prev);
        assert(b.subrange(pos, p) + b.subrange(p, q) =~= b.subrange(pos, q));
    }
}

/// Deterministically parsed entries serialize back to the bytes they were
/// read from, each key to the bytes at its span.
pub proof fn lemma_parse_ser_entries(b: Seq<u8>, pos: int, n: nat, budget: nat, limit: usize)
    requires
        parse_entries(b, pos, n, Mode::Det, budget, limit) is Ok,
        0 <= pos <= b.len(),
    ensures
        ({
            let (es, spans, q) = parse_entries(b, pos, n, Mode::Det, budget, limit)->Ok_0;
            &&& ser_entries(es, Mode::Det, budget, limit) is Ok
            &&& concat_entries(ser_entries(es, Mode::Det, budget, limit)->Ok_0) == b.subrange(pos, q)
            &&& ser_entries(es, Mode::Det, budget, limit)->Ok_0.len() == n
            &&& forall|i: int|
                0 <= i < n ==> (#[trigger] ser_entries(es, Mode::Det, budget, limit)->Ok_0[i]).0
                    == b.subrange(spans[i].0, spans[i].1)
        }),
    decreases budget, 1nat, n,
{
    let (es, spans, q) = parse_entries(b, pos, n, Mode::Det, budget, limit)->Ok_0;
    if n == 0 {
        assert(b.subrange(pos, q) =~= Seq::<u8>::empty());
    } else {
        let (pes, pspans, p) = parse_entries(b, pos, (n - 1) as nat, Mode::Det, budget, limit)->Ok_0;
        let (k, qk) = parse_item(b, p, Mode::Det, budget, limit)->Ok_0;
        lemma_parse_entries_facts(b, pos, (n - 1) as nat, Mode::Det, budget, limit);
        lemma_parse_ser_entries(b, pos, (n - 1) as nat, budget, limit);
        lemma_parse_ser_item(b, p, budget, limit);
        lemma_parse_item_facts(b, p, Mode::Det, budget, limit);
        lemma_parse_ser_item(b, qk, budget, limit);
        lemma_parse_item_facts(b, qk, Mode::Det, budget, limit);
        assert(es.drop_last() =~= pes);
        let penc = ser_entries(pes, Mode::Det, budget, limit)->Ok_0;
        let enc = ser_entries(es, Mode::Det, budget, limit)->Ok_0;
        assert(enc == penc.push((b.subrange(p, qk), b.subrange(qk, q))));
        assert(enc.drop_last() =~= penc);
        assert(b.subrange(pos, p) + b.subrange(p, qk) + b.subrange(qk, q) =~= b.subrange(pos, q));
        assert forall|i: int| 0 <= i < n implies (#[trigger] enc[i]).0 == b.subrange(spans[i].0, spans[i].1) by {
            if i < n - 1 {
                assert(enc[i] == penc[i]);
                assert(spans[i] == pspans[i]);
            }
        }
    }
}


/// Nesting within a budget is nesting within any larger one.
pub proof fn lemma_within_depth_mono(v: Cbor, d: nat, d2: nat)
    requires
        within_depth(v, d),
        d <= d2,
    ensures
        within_depth(v, d2),
    decreases v,
{
    match v {
        Cbor::Array(items) => {
            assert forall|i: int| 0 <= i < items.len() implies within_depth(
                #[trigger] items[i],
                (d2 - 1) as nat,
            ) by {
                assert(within_depth(v->Array_0[i], (d - 1) as nat));
                lemma_within_depth_mono(items[i], (d - 1) as nat, (d2 - 1) as nat);
            }
        },
        Cbor::CborMap(es) => {
            assert forall|i: int| 0 <= i < es.len() implies within_depth(
                (#[trigger] es[i]).0,
                (d2 - 1) as nat,
            ) && within_depth(es[i].1, (d2 - 1) as nat) by {
                assert(within_depth(v->CborMap_0[i].0, (d - 1) as nat));
                assert(within_depth(v->CborMap_0[i].1, (d - 1) as nat));
                lemma_within_depth_mono(es[i].0, (d - 1) as nat, (d2 - 1) as nat);
                lemma_within_depth_mono(es[i].1, (d - 1) as nat, (d2 - 1) as nat);
            }
        },
        Cbor::Tagged(t, x) => {
            lemma_within_depth_mono(*x, (d - 1) as nat, (d2 - 1) as nat);
        },
        _ => {},
    }
}

/// Serializing with map order kept, then parsing without deterministic
/// checks, gives back the item: a round trip through bytes loses nothing.
pub proof fn law_nondet_round_trip(v: Cbor, max_depth: usize)
    requires
        serialization(v, Mode::Nondet, max_depth) is Ok,
    ensures
        parse_document(serialization(v, Mode::Nondet, max_depth)->Ok_0, Mode::Nondet, max_depth)
            == Ok::<Cbor, CborError>(v),
{
    let e = serialization(v, Mode::Nondet, max_depth)->Ok_0;
    assert(e.subrange(0, e.len() as int) =~= e);
    lemma_ser_parse_item(v, max_depth as nat, max_depth, e, 0);
}

/// A document the deterministic parser accepts is, byte for byte, the
/// deterministic serialization of what it parses to.
pub proof fn law_det_parse_is_canonical(b: Seq<u8>, max_depth: usize)
    requires
        parse_document(b, Mode::Det, max_depth) is Ok,
    ensures
        serialization(parse_document(b, Mode::Det, max_depth)->Ok_0, Mode::Det, max_depth) == Ok::<
            Seq<u8>,
            CborError,
        >(b),
{
    lemma_parse_ser_item(b, 0, max_depth as nat, max_depth);
    assert(b.subrange(0, b.len() as int) =~= b);
}

/// Whatever depth the caller asks for, a parsed document nests no deeper
/// than the depth it asked for and than [`MAX_DEPTH_LIMIT`].
pub proof fn law_parse_depth_capped(b: Seq<u8>, mode: Mode, max_depth: usize)
    requires
        parse_document(b, mode, capped(max_depth)) is Ok,
    ensures
        within_depth(parse_document(b, mode, capped(max_depth))->Ok_0, capped(max_depth) as nat),
        within_depth(parse_document(b, mode, capped(max_depth))->Ok_0, MAX_DEPTH_LIMIT as nat),
{
    lemma_parse_item_facts(b, 0, mode, capped(max_depth) as nat, capped(max_depth));
    lemma_within_depth_mono(
        parse_document(b, mode, capped(max_depth))->Ok_0,
        capped(max_depth) as nat,
        MAX_DEPTH_LIMIT as nat,
    );
}

/// A serialization that succeeds nests no deeper than its budget.
proof fn lemma_ser_item_within(v: Cbor, mode: Mode, budget: nat, limit: usize)
    requires
        ser_item(v, mode, budget, limit) is Ok,
    ensures
        within_depth(v, budget),
    decreases budget, 0nat, 0nat,
{
    match v {
        Cbor::Array(items) => {
            lemma_ser_items_within(items, mode, (budget - 1) as nat, limit);
        },
        Cbor::CborMap(es) => {
            lemma_ser_entries_within(es, mode, (budget - 1) as nat, limit);
        },
        Cbor::Tagged(_, x) => {
            lemma_ser_item_within(*x, mode, (budget - 1) as nat, limit);
        },
        _ => {},
    }
}

proof fn lemma_ser_items_within(items: Seq<Cbor>, mode: Mode, budget: nat, limit: usize)
    requires
        ser_items(items, mode, budget, limit) is Ok,
    ensures
        forall|i: int| 0 <= i < items.len() ==> within_depth(#[trigger] items[i], budget),
    decreases budget, 1nat, items.len(),
{
    if items.len() > 0 {
        lemma_ser_items_within(items.drop_last(), mode, budget, limit);
        lemma_ser_item_within(items.last(), mode, budget, limit);
        assert forall|i: int| 0 <= i < items.len() implies within_depth(#[trigger] items[i], budget) by {
            if i < items.len() - 1 {
                assert(items.drop_last()[i] == items[i]);
            }
        }
    }
}

proof fn lemma_ser_entries_within(es: Seq<(Cbor, Cbor)>, mode: Mode, budget: nat, limit: usize)
    requires
        ser_entries(es, mode, budget, limit) is Ok,
    ensures
        forall|i: int|
            0 <= i < es.len() ==> within_depth((#[trigger] es[i]).0, budget) && within_depth(
                es[i].1,
                budget,
            ),
    decreases budget, 1nat, es.len(),
{
    if es.len() > 0 {
        lemma_ser_entries_within(es.drop_last(), mode, budget, limit);
        lemma_ser_item_within(es.last().0, mode, budget, limit);
        lemma_ser_item_within(es.last().1, mode, budget, limit);
        assert forall|i: int| 0 <= i < es.len() implies within_depth((#[trigger] es[i]).0, budget)
            && within_depth(es[i].1, budget) by {
            if i < es.len() - 1 {
                assert(es.drop_last()[i] == es[i]);
            }
        }
    }
}

/// Whatever depth the caller asks for, an item that serializes nests no
/// deeper than the depth it asked for and than [`MAX_DEPTH_LIMIT`]: deeper
/// items are refused.
pub proof fn law_serialize_depth_capped(v: Cbor, mode: Mode, max_depth: usize)
    requires
        serialization(v, mode, capped(max_depth)) is Ok,
    ensures
        within_depth(v, capped(max_depth) as nat),
        within_depth(v, MAX_DEPTH_LIMIT as nat),
{
    lemma_ser_item_within(v, mode, capped(max_depth) as nat, capped(max_depth));
    lemma_within_depth_mono(v, capped(max_depth) as nat, MAX_DEPTH_LIMIT as nat);
}

/// Where the deterministic parser accepts an item, the other parser reads
/// the same item to the same position.
proof fn lemma_det_item_nondet(b: Seq<u8>, pos: int, budget: nat, limit: usize)
    requires
        parse_item(b, pos, Mode::Det, budget, limit) is Ok,
    ensures
        parse_item(b, pos, Mode::Nondet, budget, limit) == parse_item(b, pos, Mode::Det, budget, limit),
    decreases budget, 0nat, 0nat,
{
    match parse_head(b, pos) {
        Err(_) => {},
        Ok((major, info, arg, p)) => {
            if major != MAJOR_SIMPLE && major != MAJOR_UNSIGNED && major != MAJOR_NEGATIVE
                && major != MAJOR_BYTES && major != MAJOR_TEXT && budget > 0 {
                if major == MAJOR_ARRAY {
                    lemma_det_items_nondet(b, p, arg as nat, (budget - 1) as nat, limit);
                } else if major == MAJOR_MAP {
                    lemma_det_entries_nondet(b, p, arg as nat, (budget - 1) as nat, limit);
                } else {
                    lemma_det_item_nondet(b, p, (budget - 1) as nat, limit);
                }
            }
        },
    }
}

proof fn lemma_det_items_nondet(b: Seq<u8>, pos: int, n: nat, budget: nat, limit: usize)
    requires
        parse_items(b, pos, n, Mode::Det, budget, limit) is Ok,
    ensures
        parse_items(b, pos, n, Mode::Nondet, budget, limit) == parse_items(b, pos, n, Mode::Det, budget, limit),
    decreases budget, 1nat, n,
{
    if n > 0 {
        lemma_det_items_nondet(b, pos, (n - 1) as nat, budget, limit);
        let p = parse_items(b, pos, (n - 1) as nat, Mode::Det, budget, limit)->Ok_0.1;
        lemma_det_item_nondet(b, p, budget, limit);
    }
}

proof fn lemma_det_entries_nondet(b: Seq<u8>, pos: int, n: nat, budget: nat, limit: usize)
    requires
        parse_entries(b, pos, n, Mode::Det, budget, limit) is Ok,
    ensures
        parse_entries(b, pos, n, Mode::Nondet, budget, limit) == parse_entries(b, pos, n, Mode::Det, budget, limit),
    decreases budget, 1nat, n,
{
    if n > 0 {
        lemma_det_entries_nondet(b, pos, (n - 1) as nat, budget, limit);
        let p = parse_entries(b, pos, (n - 1) as nat, Mode::Det, budget, limit)->Ok_0.2;
        lemma_det_item_nondet(b, p, budget, limit);
        let q = parse_item(b, p, Mode::Det, budget, limit)->Ok_0.1;
        lemma_det_item_nondet(b, q, budget, limit);
    }
}

/// Deterministic parsing only adds checks: a document it accepts reads the
/// same without them.
pub proof fn law_det_parse_refines_nondet(b: Seq<u8>, max_depth: usize)
    requires
        parse_document(b, Mode::Det, max_depth) is Ok,
    ensures
        parse_document(b, Mode::Nondet, max_depth) == parse_document(b, Mode::Det, max_depth),
{
    lemma_det_item_nondet(b, 0, max_depth as nat, max_depth);
}

/// Whatever either parser accepts serializes again with map order kept.
proof fn lemma_parsed_item_encodes(b: Seq<u8>, pos: int, mode: Mode, budget: nat, limit: usize)
    requires
        parse_item(b, pos, mode, budget, limit) is Ok,
    ensures
        ser_item(parse_item(b, pos, mode, budget, limit)->Ok_0.0, Mode::Nondet, budget, limit) is Ok,
    decreases budget, 0nat, 0nat,
{
    let (major, info, arg, p) = parse_head(b, pos)->Ok_0;
    if major == MAJOR_SIMPLE {
        if info == 24 {
            assert(arg == b[pos + 1] as u64);
            assert((arg as u8) as u64 == arg);
        }
    } else if major == MAJOR_BYTES || major == MAJOR_TEXT {
        assert(b.subrange(p, p + arg).len() == arg);
    } else if major == MAJOR_ARRAY {
        if budget > 0 {
            lemma_parsed_items_encode(b, p, arg as nat, mode, (budget - 1) as nat, limit);
        }
    } else if major == MAJOR_MAP {
        if budget > 0 {
            lemma_parsed_entries_encode(b, p, arg as nat, mode, (budget - 1) as nat, limit);
        }
    } else if major != MAJOR_UNSIGNED && major != MAJOR_NEGATIVE {
        if budget > 0 {
            lemma_parsed_item_encodes(b, p, mode, (budget - 1) as nat, limit);
        }
    }
}

proof fn lemma_parsed_items_encode(b: Seq<u8>, pos: int, n: nat, mode: Mode, budget: nat, limit: usize)
    requires
        parse_items(b, pos, n, mode, budget, limit) is Ok,
    ensures
        parse_items(b, pos, n, mode, budget, limit)->Ok_0.0.len() == n,
        ser_items(parse_items(b, pos, n, mode, budget, limit)->Ok_0.0, Mode::Nondet, budget, limit) is Ok,
    decreases budget, 1nat, n,
{
    if n > 0 {
        lemma_parsed_items_encode(b, pos, (n - 1) as nat, mode, budget, limit);
        let (xs, p) = parse_items(b, pos, (n - 1) as nat, mode, budget, limit)->Ok_0;
        lemma_parsed_item_encodes(b, p, mode, budget, limit);
        let x = parse_item(b, p, mode, budget, limit)->Ok_0.0;
        assert(xs.push(x).drop_last() =~= xs);
    }
}

proof fn lemma_parsed_entries_encode(
    b: Seq<u8>,
    pos: int,
    n: nat,
    mode: Mode,
    budget: nat,
    limit: usize,
)
    requires
        parse_entries(b, pos, n, mode, budget, limit) is Ok,
    ensures
        parse_entries(b, pos, n, mode, budget, limit)->Ok_0.0.len() == n,
        ser_entries(parse_entries(b, pos, n, mode, budget, limit)->Ok_0.0, Mode::Nondet, budget, limit)
            is Ok,
    decreases budget, 1nat, n,
{
    if n > 0 {
        lemma_parsed_entries_encode(b, pos, (n - 1) as nat, mode, budget, limit);
        let (es, spans, p) = parse_entries(b, pos, (n - 1) as nat, mode, budget, limit)->Ok_0;
        lemma_parsed_item_encodes(b, p, mode, budget, limit);
        let (k, q) = parse_item(b, p, mode, budget, limit)->Ok_0;
        lemma_parsed_item_encodes(b, q, mode, budget, limit);
        let x = parse_item(b, q, mode, budget, limit)->Ok_0.0;
        assert(es.push((k, x)).drop_last() =~= es);
    }
}

/// Every document either parser accepts serializes again with map order
/// kept, at the same depth, and that serialization reads back as the same
/// item: reading and writing normalises an encoding without changing what
/// it holds.
pub proof fn law_parsed_documents_reserialize(b: Seq<u8>, mode: Mode, max_depth: usize)
    requires
        parse_document(b, mode, max_depth) is Ok,
    ensures
        serialization(parse_document(b, mode, max_depth)->Ok_0, Mode::Nondet, max_depth) is Ok,
        parse_document(
            serialization(parse_document(b, mode, max_depth)->Ok_0, Mode::Nondet, max_depth)->Ok_0,
            Mode::Nondet,
            max_depth,
        ) == parse_document(b, mode, max_depth),
{
    lemma_parsed_item_encodes(b, 0, mode, max_depth as nat, max_depth);
    law_nondet_round_trip(parse_document(b, mode, max_depth)->Ok_0, max_depth);
}

/// A node array that represents a parsed document describes that document.
pub proof fn law_nodes_describe_parse(
    b: Seq<u8>,
    mode: Mode,
    max_depth: usize,
    nodes: Seq<CborNode>,
)
    requires
        parse_document(b, mode, max_depth) is Ok,
        rep_in(nodes, b, 0, parse_document(b, mode, max_depth)->Ok_0, 0, nodes.len() as int),
        nodes.len() <= usize::MAX,
    ensures
        node_document(nodes, b, max_depth) == parse_document(b, mode, max_depth),
{
    lemma_parse_item_facts(b, 0, mode, max_depth as nat, max_depth);
    lemma_rep_node_item(
        nodes,
        b,
        0,
        parse_document(b, mode, max_depth)->Ok_0,
        0,
        nodes.len() as int,
        max_depth as nat,
        max_depth,
    );
}

/// The nodes a parse returns for bytes that serialization wrote serialize
/// back to those bytes.
pub proof fn law_nodes_round_trip(v: Cbor, max_depth: usize, nodes: Seq<CborNode>)
    requires
        serialization(v, Mode::Nondet, max_depth) is Ok,
        rep_in(
            nodes,
            serialization(v, Mode::Nondet, max_depth)->Ok_0,
            0,
            v,
            0,
            nodes.len() as int,
        ),
        nodes.len() <= usize::MAX,
    ensures
        node_serialization(nodes, serialization(v, Mode::Nondet, max_depth)->Ok_0, Mode::Nondet, max_depth)
            == serialization(v, Mode::Nondet, max_depth),
{
    let b = serialization(v, Mode::Nondet, max_depth)->Ok_0;
    law_nondet_round_trip(v, max_depth);
    law_nodes_describe_parse(b, Mode::Nondet, max_depth, nodes);
}


/// Whether no entry's key sorts before the key of the entry ahead of it.
pub open spec fn keys_non_decreasing(s: Seq<EncodedEntry>) -> bool {
    forall|i: int| 0 <= i < s.len() - 1 ==> !lex_lt(#[trigger] s[i + 1].0, s[i].0)
}

/// Insertion keeps the entries, adds one, and keeps the order.
proof fn lemma_insert_entry_facts(t: Seq<EncodedEntry>, e: EncodedEntry)
    requires
        keys_non_decreasing(t),
    ensures
        insert_entry(t, e).len() == t.len() + 1,
        forall|i: int|
            0 <= i < insert_entry(t, e).len() ==> #[trigger] insert_entry(t, e)[i] == e || t.contains(
                insert_entry(t, e)[i],
            ),
        keys_non_decreasing(insert_entry(t, e)),
        insert_entry(t, e)[0] == e || (t.len() > 0 && insert_entry(t, e)[0] == t[0]),
    decreases t.len(),
{
    let r = insert_entry(t, e);
    if t.len() == 0 {
    } else if lex_lt(e.0, t[0].0) {
        assert forall|i: int| 0 <= i < r.len() implies #[trigger] r[i] == e || t.contains(r[i]) by {
            if i > 0 {
                assert(r[i] == t[i - 1]);
            }
        }
        assert forall|i: int| 0 <= i < r.len() - 1 implies !lex_lt(#[trigger] r[i + 1].0, r[i].0) by {
            if i == 0 {
                lemma_lex_asymmetric(e.0, t[0].0);
            } else {
                assert(r[i] == t[i - 1]);
                assert(r[i + 1] == t[i - 1 + 1]);
            }
        }
    } else {
        let rest = t.drop_first();
        assert(keys_non_decreasing(rest)) by {
            assert forall|i: int| 0 <= i < rest.len() - 1 implies !lex_lt(#[trigger] rest[i + 1].0, rest[i].0) by {
                assert(rest[i] == t[i + 1]);
                assert(rest[i + 1] == t[i + 1 + 1]);
            }
        }
        lemma_insert_entry_facts(rest, e);
        let ri = insert_entry(rest, e);
        assert(r == seq![t[0]] + ri);
        assert forall|i: int| 0 <= i < r.len() implies #[trigger] r[i] == e || t.contains(r[i]) by {
            if i == 0 {
                assert(t[0] == r[0]);
            } else {
                assert(r[i] == ri[i - 1]);
                if ri[i - 1] != e {
                    let k = choose|k: int| 0 <= k < rest.len() && rest[k] == ri[i - 1];
                    assert(t[k + 1] == r[i]);
                }
            }
        }
        assert forall|i: int| 0 <= i < r.len() - 1 implies !lex_lt(#[trigger] r[i + 1].0, r[i].0) by {
            if i == 0 {
                if ri[0] == e {
                } else {
                    assert(ri[0] == rest[0]);
                    assert(rest[0] == t[1]);
                }
            } else {
                assert(r[i] == ri[i - 1]);
                assert(r[i + 1] == ri[i - 1 + 1]);
            }
        }
    }
}

/// Sorting keeps the entries and puts them in key order.
pub proof fn lemma_sort_entries_facts(s: Seq<EncodedEntry>)
    ensures
        sort_entries(s).len() == s.len(),
        forall|i: int| 0 <= i < s.len() ==> s.contains(#[trigger] sort_entries(s)[i]),
        keys_non_decreasing(sort_entries(s)),
    decreases s.len(),
{
    if s.len() > 0 {
        let t = sort_entries(s.drop_last());
        lemma_sort_entries_facts(s.drop_last());
        lemma_insert_entry_facts(t, s.last());
        assert forall|i: int| 0 <= i < s.len() implies s.contains(#[trigger] sort_entries(s)[i]) by {
            let x = sort_entries(s)[i];
            if x == s.last() {
                assert(s[s.len() - 1] == x);
            } else {
                let k = choose|k: int| 0 <= k < t.len() && t[k] == x;
                let k2 = choose|k2: int| 0 <= k2 < s.drop_last().len() && s.drop_last()[k2] == t[k];
                assert(s[k2] == x);
            }
        }
    }
}

/// Keys in order, no two neighbours alike, strictly ascend.
pub proof fn lemma_strictly_ascend(s: Seq<EncodedEntry>)
    requires
        keys_non_decreasing(s),
        !has_adjacent_duplicate(s),
    ensures
        keys_strictly_ascend(s),
{
    assert forall|i: int| 0 <= i < s.len() - 1 implies lex_lt(s[i].0, #[trigger] s[i + 1].0) by {
        assert(!lex_lt(s[i + 1].0, s[i].0));
        assert(s[i].0 != s[i + 1].0);
        lemma_lex_total(s[i].0, s[i + 1].0);
    }
}


/// Whether every encoded entry of `ps` is the deterministic serialization
/// of some entry of `es`.
pub open spec fn encodes_some_entry(ps: Seq<EncodedEntry>, es: Seq<(Cbor, Cbor)>, budget: nat, limit: usize) -> bool {
    forall|i: int|
        0 <= i < ps.len() ==> exists|j: int|
            0 <= j < es.len() && ser_item(es[j].0, Mode::Det, budget, limit) == Ok::<Seq<u8>, CborError>(
                (#[trigger] ps[i]).0,
            ) && ser_item(es[j].1, Mode::Det, budget, limit) == Ok::<Seq<u8>, CborError>(ps[i].1)
}

/// A deterministic serialization, found anywhere in a buffer, passes the
/// deterministic parser, which stops where it ends.
pub proof fn lemma_det_ser_parses_item(v: Cbor, budget: nat, limit: usize, b: Seq<u8>, pos: int)
    requires
        ser_item(v, Mode::Det, budget, limit) is Ok,
        holds_at(b, pos, ser_item(v, Mode::Det, budget, limit)->Ok_0),
    ensures
        parse_item(b, pos, Mode::Det, budget, limit) is Ok,
        parse_item(b, pos, Mode::Det, budget, limit)->Ok_0.1 == pos + ser_item(v, Mode::Det, budget, limit)->Ok_0.len(),
    decreases budget, 0nat, 0nat,
{
    let e = ser_item(v, Mode::Det, budget, limit)->Ok_0;
    match v {
        Cbor::Int(i) => {
            if i >= 0 {
                lemma_head_parses(MAJOR_UNSIGNED, i as u64, b, pos);
            } else {
                lemma_head_parses(MAJOR_NEGATIVE, (-1 - i) as u64, b, pos);
            }
        },
        Cbor::Bytes(p) => {
            let h = head(MAJOR_BYTES, p.len() as u64);
            lemma_holds_split(b, pos, h, p);
            lemma_head_parses(MAJOR_BYTES, p.len() as u64, b, pos);
        },
        Cbor::Text(p) => {
            let h = head(MAJOR_TEXT, p.len() as u64);
            lemma_holds_split(b, pos, h, p);
            lemma_head_parses(MAJOR_TEXT, p.len() as u64, b, pos);
        },
        Cbor::Simple(x) => {
            assert(b[pos] == b.subrange(pos, pos + e.len())[0]);
            if x < 24 {
                lemma_initial_byte(MAJOR_SIMPLE, x);
                assert((MAJOR_SIMPLE * 32 + x) as u8 == (0xe0 + x) as u8);
            } else {
                lemma_initial_byte(MAJOR_SIMPLE, 24);
                assert(b[pos + 1] == b.subrange(pos, pos + e.len())[1]);
            }
        },
        Cbor::Array(items) => {
            let h = head(MAJOR_ARRAY, items.len() as u64);
            let s = ser_items(items, Mode::Det, (budget - 1) as nat, limit)->Ok_0;
            lemma_holds_split(b, pos, h, s);
            lemma_head_parses(MAJOR_ARRAY, items.len() as u64, b, pos);
            lemma_ser_items_len(items, Mode::Det, (budget - 1) as nat, limit);
            lemma_det_ser_parses_items(items, (budget - 1) as nat, limit, b, pos + h.len());
        },
        Cbor::CborMap(es) => {
            let h = head(MAJOR_MAP, es.len() as u64);
            let enc = ser_entries(es, Mode::Det, (budget - 1) as nat, limit)->Ok_0;
            let sorted = sort_entries(enc);
            let s = concat_entries(sorted);
            lemma_holds_split(b, pos, h, s);
            lemma_head_parses(MAJOR_MAP, es.len() as u64, b, pos);
            lemma_ser_entries_each(es, Mode::Det, (budget - 1) as nat, limit);
            lemma_sort_entries_facts(enc);
            assert(encodes_some_entry(sorted, es, (budget - 1) as nat, limit)) by {
                assert forall|i: int| 0 <= i < sorted.len() implies exists|j: int|
                    0 <= j < es.len() && ser_item(es[j].0, Mode::Det, (budget - 1) as nat, limit)
                        == Ok::<Seq<u8>, CborError>((#[trigger] sorted[i]).0) && ser_item(
                        es[j].1,
                        Mode::Det,
                        (budget - 1) as nat,
                        limit,
                    ) == Ok::<Seq<u8>, CborError>(sorted[i].1) by {
                    assert(enc.contains(sorted[i]));
                    let j = choose|j: int| 0 <= j < enc.len() && enc[j] == sorted[i];
                    assert(ser_item(es[j].0, Mode::Det, (budget - 1) as nat, limit) == Ok::<Seq<u8>, CborError>(enc[j].0));
                }
            }
            assert forall|i: int| 0 <= i < sorted.len() implies (#[trigger] sorted[i]).0.len() >= 1
                && sorted[i].1.len() >= 1 by {
                assert(enc.contains(sorted[i]));
                let j = choose|j: int| 0 <= j < enc.len() && enc[j] == sorted[i];
                lemma_ser_item_nonempty(es[j].0, Mode::Det, (budget - 1) as nat, limit);
                lemma_ser_item_nonempty(es[j].1, Mode::Det, (budget - 1) as nat, limit);
            }
            lemma_concat_entries_len(sorted);
            lemma_strictly_ascend(sorted);
            lemma_det_ser_parses_entries(sorted, es, (budget - 1) as nat, limit, b, pos + h.len());
            let (pes, spans, q) = parse_entries(b, pos + h.len(), es.len() as nat, Mode::Det, (budget - 1) as nat, limit)->Ok_0;
            assert(keys_ascending(b, spans)) by {
                assert forall|i: int| 0 <= i < spans.len() - 1 implies lex_lt(
                    b.subrange(spans[i].0, spans[i].1),
                    b.subrange(#[trigger] spans[i + 1].0, spans[i + 1].1),
                ) by {
                    assert(lex_lt(sorted[i].0, sorted[i + 1].0));
                }
            }
        },
        Cbor::Tagged(t, x) => {
            let h = head(MAJOR_TAG, t);
            let s = ser_item(*x, Mode::Det, (budget - 1) as nat, limit)->Ok_0;
            lemma_holds_split(b, pos, h, s);
            lemma_head_parses(MAJOR_TAG, t, b, pos);
            lemma_det_ser_parses_item(*x, (budget - 1) as nat, limit, b, pos + h.len());
        },
    }
}

/// Deterministically serialized items pass the deterministic parser.
pub proof fn lemma_det_ser_parses_items(items: Seq<Cbor>, budget: nat, limit: usize, b: Seq<u8>, pos: int)
    requires
        ser_items(items, Mode::Det, budget, limit) is Ok,
        holds_at(b, pos, ser_items(items, Mode::Det, budget, limit)->Ok_0),
    ensures
        parse_items(b, pos, items.len(), Mode::Det, budget, limit) is Ok,
        parse_items(b, pos, items.len(), Mode::Det, budget, limit)->Ok_0.1 == pos + ser_items(items, Mode::Det, budget, limit)->Ok_0.len(),
    decreases budget, 1nat, items.len(),
{
    if items.len() > 0 {
        let a = ser_items(items.drop_last(), Mode::Det, budget, limit)->Ok_0;
        let c = ser_item(items.last(), Mode::Det, budget, limit)->Ok_0;
        lemma_holds_split(b, pos, a, c);
        lemma_det_ser_parses_items(items.drop_last(), budget, limit, b, pos);
        lemma_det_ser_parses_item(items.last(), budget, limit, b, pos + a.len());
    }
}

/// Encoded entries, each the deterministic serialization of some entry,
/// pass the deterministic entry parser, each key read from its own bytes.
pub proof fn lemma_det_ser_parses_entries(
    ps: Seq<EncodedEntry>,
    es: Seq<(Cbor, Cbor)>,
    budget: nat,
    limit: usize,
    b: Seq<u8>,
    pos: int,
)
    requires
        encodes_some_entry(ps, es, budget, limit),
        holds_at(b, pos, concat_entries(ps)),
    ensures
        parse_entries(b, pos, ps.len(), Mode::Det, budget, limit) is Ok,
        ({
            let (_, spans, q) = parse_entries(b, pos, ps.len(), Mode::Det, budget, limit)->Ok_0;
            &&& q == pos + concat_entries(ps).len()
            &&& spans.len() == ps.len()
            &&& forall|i: int| 0 <= i < ps.len() ==> b.subrange(spans[i].0, spans[i].1) == (#[trigger] ps[i]).0
        }),
    decreases budget, 1nat, ps.len(),
{
    if ps.len() > 0 {
        let prev = ps.drop_last();
        let (k, x) = ps.last();
        let a = concat_entries(prev);
        assert(concat_entries(ps) == a + k + x);
        lemma_holds_split(b, pos, a + k, x);
        lemma_holds_split(b, pos, a, k);
        assert(encodes_some_entry(prev, es, budget, limit)) by {
            assert forall|i: int| 0 <= i < prev.len() implies exists|j: int|
                0 <= j < es.len() && ser_item(es[j].0, Mode::Det, budget, limit) == Ok::<Seq<u8>, CborError>(
                    (#[trigger] prev[i]).0,
                ) && ser_item(es[j].1, Mode::Det, budget, limit) == Ok::<Seq<u8>, CborError>(prev[i].1) by {
                assert(prev[i] == ps[i]);
            }
        }
        lemma_det_ser_parses_entries(prev, es, budget, limit, b, pos);
        assert(ps[ps.len() - 1] == ps.last());
        let j = choose|j: int|
            0 <= j < es.len() && ser_item(es[j].0, Mode::Det, budget, limit) == Ok::<Seq<u8>, CborError>(
                ps[ps.len() - 1].0,
            ) && ser_item(es[j].1, Mode::Det, budget, limit) == Ok::<Seq<u8>, CborError>(ps[ps.len() - 1].1);
        lemma_det_ser_parses_item(es[j].0, budget, limit, b, pos + a.len());
        lemma_det_ser_parses_item(es[j].1, budget, limit, b, pos + a.len() + k.len());
        let (_, pspans, p) = parse_entries(b, pos, prev.len(), Mode::Det, budget, limit)->Ok_0;
        let (_, spans, q) = parse_entries(b, pos, ps.len(), Mode::Det, budget, limit)->Ok_0;
        assert forall|i: int| 0 <= i < ps.len() implies b.subrange(spans[i].0, spans[i].1) == (#[trigger] ps[i]).0 by {
            if i < ps.len() - 1 {
                assert(spans[i] == pspans[i]);
                assert(prev[i] == ps[i]);
            }
        }
    }
}

/// A deterministic serialization passes the deterministic parser, and is
/// the deterministic serialization of what it parses to: deterministic
/// serialization yields the one canonical encoding.
pub proof fn law_det_serialization_parses(v: Cbor, max_depth: usize)
    requires
        serialization(v, Mode::Det, max_depth) is Ok,
    ensures
        parse_document(serialization(v, Mode::Det, max_depth)->Ok_0, Mode::Det, max_depth) is Ok,
        serialization(
            parse_document(serialization(v, Mode::Det, max_depth)->Ok_0, Mode::Det, max_depth)->Ok_0,
            Mode::Det,
            max_depth,
        ) == serialization(v, Mode::Det, max_depth),
{
    let e = serialization(v, Mode::Det, max_depth)->Ok_0;
    assert(e.subrange(0, e.len() as int) =~= e);
    lemma_det_ser_parses_item(v, max_depth as nat, max_depth, e, 0);
    law_det_parse_is_canonical(e, max_depth);
}

} // verus!

verus! {

/// Every key of a map whose keys are usable can be looked up: the lookup
/// refuses no such key and finds an entry for it.
pub proof fn law_map_keys_can_be_looked_up(es: Seq<(Cbor, Cbor)>)
    requires
        keys_usable(Cbor::CborMap(es)),
    ensures
        forall|i: int|
            0 <= i < es.len() ==> usable_key((#[trigger] es[i]).0) && has_key(es, es[i].0),
{
    assert forall|i: int| 0 <= i < es.len() implies usable_key((#[trigger] es[i]).0) && has_key(
        es,
        es[i].0,
    ) by {
        let v = Cbor::CborMap(es);
        assert(v->CborMap_0 == es);
        assert(usable_key(v->CborMap_0[i].0));
        assert(es[i].0 == es[i].0);
    }
}

/// The map [`crate::access::map_value`] builds from items whose keys are
/// usable has only usable keys at its top level.
pub proof fn law_built_map_keys_are_usable(items: Seq<Cbor>)
    requires
        items.len() % 2 == 0,
        forall|i: int| 0 <= i < items.len() / 2 ==> usable_key(#[trigger] items[2 * i]),
    ensures
        forall|i: int|
            0 <= i < pairs_of(items).len() ==> usable_key((#[trigger] pairs_of(items)[i]).0),
{
    assert forall|i: int| 0 <= i < pairs_of(items).len() implies usable_key(
        (#[trigger] pairs_of(items)[i]).0,
    ) by {
        assert(pairs_of(items)[i].0 == items[2 * i]);
    }
}

} // verus!

verus! {

/// An item with no container as a map key, serialized with map order kept,
/// is what [`crate::document::parse`] gives back for those bytes at the same
/// depth: it parses, and passes the key check.
pub proof fn law_value_round_trip(v: Cbor, max_depth: usize)
    requires
        keys_usable(v),
        serialization(v, Mode::Nondet, capped(max_depth)) is Ok,
    ensures
        parse_document(
            serialization(v, Mode::Nondet, capped(max_depth))->Ok_0,
            Mode::Nondet,
            capped(max_depth),
        ) == Ok::<Cbor, CborError>(v),
        keys_usable(
            parse_document(
                serialization(v, Mode::Nondet, capped(max_depth))->Ok_0,
                Mode::Nondet,
                capped(max_depth),
            )->Ok_0,
        ),
{
    law_nondet_round_trip(v, capped(max_depth));
}

} // verus!
