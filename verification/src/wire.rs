//! Laws of the byte level: heads carry their argument big-endian in the
//! shortest form, map keys order bytewise as unsigned numbers, text is any
//! valid UTF-8, and the key check reaches every map.

use vstd::prelude::*;
use crate::access::{keys_usable, usable_key};
use crate::format::{
    head, lex_lt, parse_document, parse_head, serialization, Mode, MAJOR_ARRAY, MAJOR_BYTES,
    MAJOR_MAP, MAJOR_NEGATIVE, MAJOR_SIMPLE, MAJOR_TAG, MAJOR_TEXT, MAJOR_UNSIGNED,
};
use crate::format::{lemma_parse_entries_facts, lemma_parse_items_facts};
use crate::value::Cbor;

verus! {

/// The argument that a head at the start of `b` states: the additional
/// information itself below 24, else the big-endian number formed by the
/// 1, 2, 4 or 8 bytes after the initial byte.
pub open spec fn stated_argument(b: Seq<u8>) -> int {
    let info = b[0] % 32;
    if info < 24 {
        info as int
    } else if info == 24 {
        b[1] as int
    } else if info == 25 {
        b[1] * 0x100 + b[2]
    } else if info == 26 {
        b[1] * 0x100_0000 + b[2] * 0x1_0000 + b[3] * 0x100 + b[4]
    } else {
        b[1] * 0x100_0000_0000_0000 + b[2] * 0x1_0000_0000_0000 + b[3] * 0x100_0000_0000 + b[4]
            * 0x1_0000_0000 + b[5] * 0x100_0000 + b[6] * 0x1_0000 + b[7] * 0x100 + b[8]
    }
}

/// How many bytes a head with additional information `info` takes.
pub open spec fn head_length(info: int) -> int {
    if info < 24 {
        1
    } else if info == 24 {
        2
    } else if info == 25 {
        3
    } else if info == 26 {
        5
    } else {
        9
    }
}

/// Reading a head: the initial byte's top three bits are the major type,
/// its low five bits the additional information, and the argument is the
/// big-endian number its bytes state, whatever its width (shortest or not).
pub proof fn law_head_reads_big_endian(b: Seq<u8>, pos: int)
    requires
        parse_head(b, pos) is Ok,
    ensures
        0 <= pos < b.len(),
        parse_head(b, pos)->Ok_0.0 == b[pos] / 32,
        parse_head(b, pos)->Ok_0.1 == b[pos] % 32,
        b[pos] % 32 <= 27,
        pos + head_length((b[pos] % 32) as int) <= b.len(),
        parse_head(b, pos)->Ok_0.2 == stated_argument(b.skip(pos)),
        parse_head(b, pos)->Ok_0.3 == pos + head_length((b[pos] % 32) as int),
{
    let x = b[pos];
    assert(x >> 5u8 == x / 32 && x & 31u8 == x % 32) by (bit_vector);
    let s = b.skip(pos);
    assert(s[0] == x);
    let info = x & 31u8;
    if info >= 24 {
        if info == 24 {
            let y1 = b[pos + 1];
            assert(s[1] == y1);
            assert((y1 as u64) == y1);
        } else if info == 25 {
            let (y1, y2) = (b[pos + 1], b[pos + 2]);
            assert(s[1] == y1 && s[2] == y2);
            assert(((y1 as u64) << 8u64) | (y2 as u64) == y1 * 0x100 + y2) by (bit_vector);
        } else if info == 26 {
            let (y1, y2, y3, y4) = (b[pos + 1], b[pos + 2], b[pos + 3], b[pos + 4]);
            assert(s[1] == y1 && s[2] == y2 && s[3] == y3 && s[4] == y4);
            assert(((y1 as u64) << 24u64) | ((y2 as u64) << 16u64) | ((y3 as u64) << 8u64) | (y4 as u64)
                == y1 * 0x100_0000 + y2 * 0x1_0000 + y3 * 0x100 + y4) by (bit_vector);
        } else {
            let (y1, y2, y3, y4) = (b[pos + 1], b[pos + 2], b[pos + 3], b[pos + 4]);
            let (y5, y6, y7, y8) = (b[pos + 5], b[pos + 6], b[pos + 7], b[pos + 8]);
            assert(s[1] == y1 && s[2] == y2 && s[3] == y3 && s[4] == y4);
            assert(s[5] == y5 && s[6] == y6 && s[7] == y7 && s[8] == y8);
            assert(((y1 as u64) << 56u64) | ((y2 as u64) << 48u64) | ((y3 as u64) << 40u64) | ((
            y4 as u64) << 32u64) | ((y5 as u64) << 24u64) | ((y6 as u64) << 16u64) | ((y7 as u64)
                << 8u64) | (y8 as u64) == y1 * 0x100_0000_0000_0000 + y2 * 0x1_0000_0000_0000 + y3
                * 0x100_0000_0000 + y4 * 0x1_0000_0000 + y5 * 0x100_0000 + y6 * 0x1_0000 + y7
                * 0x100 + y8) by (bit_vector);
        }
    }
}

/// Writing a head: the initial byte is `major * 32` plus the additional
/// information, and the argument follows big-endian, most significant byte
/// first, in the fewest bytes that hold it (none below 24, then 1, 2, 4 or
/// 8).
pub proof fn law_head_writes_big_endian(major: u8, n: u64)
    requires
        major <= 7,
    ensures
        n < 24 ==> head(major, n).len() == 1 && head(major, n)[0] == major * 32 + n,
        24 <= n < 0x100 ==> head(major, n).len() == 2 && head(major, n)[0] == major * 32 + 24
            && head(major, n)[1] == n,
        0x100 <= n < 0x1_0000 ==> head(major, n).len() == 3 && head(major, n)[0] == major * 32 + 25
            && head(major, n)[1] == n / 0x100 && head(major, n)[2] == n % 0x100,
        0x1_0000 <= n < 0x1_0000_0000 ==> head(major, n).len() == 5 && head(major, n)[0] == major
            * 32 + 26 && head(major, n)[1] == n / 0x100_0000 && head(major, n)[2] == (n / 0x1_0000)
            % 0x100 && head(major, n)[3] == (n / 0x100) % 0x100 && head(major, n)[4] == n % 0x100,
        0x1_0000_0000 <= n ==> head(major, n).len() == 9 && head(major, n)[0] == major * 32 + 27
            && head(major, n)[1] == n / 0x100_0000_0000_0000 && head(major, n)[2] == (n
            / 0x1_0000_0000_0000) % 0x100 && head(major, n)[3] == (n / 0x100_0000_0000) % 0x100
            && head(major, n)[4] == (n / 0x1_0000_0000) % 0x100 && head(major, n)[5] == (n
            / 0x100_0000) % 0x100 && head(major, n)[6] == (n / 0x1_0000) % 0x100 && head(major, n)[7]
            == (n / 0x100) % 0x100 && head(major, n)[8] == n % 0x100,
{
    assert({
        &&& (n as u8) == n % 0x100
        &&& ((n >> 8u64) as u8) == (n / 0x100) % 0x100
        &&& ((n >> 16u64) as u8) == (n / 0x1_0000) % 0x100
        &&& ((n >> 24u64) as u8) == (n / 0x100_0000) % 0x100
        &&& ((n >> 32u64) as u8) == (n / 0x1_0000_0000) % 0x100
        &&& ((n >> 40u64) as u8) == (n / 0x100_0000_0000) % 0x100
        &&& ((n >> 48u64) as u8) == (n / 0x1_0000_0000_0000) % 0x100
        &&& ((n >> 56u64) as u8) == n / 0x100_0000_0000_0000
        &&& (n < 0x100 ==> (n as u8) == n)
        &&& (n < 0x1_0000 ==> ((n >> 8u64) as u8) == n / 0x100)
        &&& (n < 0x1_0000_0000 ==> ((n >> 24u64) as u8) == n / 0x100_0000)
    }) by (bit_vector);
    let ib = major * 32;
    assert(ib + 27 < 256);
}

/// How an integer is written: major type 0 with argument `i` for `i >= 0`,
/// major type 1 with argument `-1 - i` otherwise, the argument stated in
/// the shortest head that holds it.
pub proof fn law_integers_serialize(i: i64, mode: Mode, max_depth: usize)
    ensures
        serialization(Cbor::Int(i), mode, max_depth) is Ok,
        ({
            let e = serialization(Cbor::Int(i), mode, max_depth)->Ok_0;
            let arg: int = if i >= 0 { i as int } else { -1 - i };
            &&& e.len() >= 1
            &&& e[0] / 32 == (if i >= 0 { 0int } else { 1int })
            &&& e.len() == head_length((e[0] % 32) as int)
            &&& stated_argument(e) == arg
            &&& (arg < 24 ==> e[0] % 32 == arg)
            &&& (24 <= arg < 0x100 ==> e[0] % 32 == 24)
            &&& (0x100 <= arg < 0x1_0000 ==> e[0] % 32 == 25)
            &&& (0x1_0000 <= arg < 0x1_0000_0000 ==> e[0] % 32 == 26)
            &&& (0x1_0000_0000 <= arg ==> e[0] % 32 == 27)
        }),
{
    let major: u8 = if i >= 0 { MAJOR_UNSIGNED } else { MAJOR_NEGATIVE };
    let n: u64 = if i >= 0 { i as u64 } else { (-1 - i) as u64 };
    let e = head(major, n);
    assert(serialization(Cbor::Int(i), mode, max_depth) == Ok::<Seq<u8>, crate::error::CborError>(e));
    law_head_writes_big_endian(major, n);
    lemma_recombine(n);
    let k: int = if n < 24 {
        n as int
    } else if n < 0x100 {
        24
    } else if n < 0x1_0000 {
        25
    } else if n < 0x1_0000_0000 {
        26
    } else {
        27
    };
    lemma_byte_split(major as int, k);
    assert(e[0] == major * 32 + k);
}

/// The initial byte `major * 32 + k` splits back into `major` and `k`.
proof fn lemma_byte_split(major: int, k: int)
    requires
        0 <= major <= 7,
        0 <= k < 32,
    ensures
        (major * 32 + k) / 32 == major,
        (major * 32 + k) % 32 == k,
{
    assert((major * 32 + k) / 32 == major && (major * 32 + k) % 32 == k) by (nonlinear_arith)
        requires
            0 <= major <= 7,
            0 <= k < 32,
    ;
}

/// The big-endian bytes of `n` add back up to `n`.
proof fn lemma_recombine(n: u64)
    ensures
        n < 0x1_0000 ==> (n / 0x100) * 0x100 + n % 0x100 == n,
        n < 0x1_0000_0000 ==> (n / 0x100_0000) * 0x100_0000 + ((n / 0x1_0000) % 0x100) * 0x1_0000
            + ((n / 0x100) % 0x100) * 0x100 + n % 0x100 == n,
        (n / 0x100_0000_0000_0000) * 0x100_0000_0000_0000 + ((n / 0x1_0000_0000_0000) % 0x100)
            * 0x1_0000_0000_0000 + ((n / 0x100_0000_0000) % 0x100) * 0x100_0000_0000 + ((n
            / 0x1_0000_0000) % 0x100) * 0x1_0000_0000 + ((n / 0x100_0000) % 0x100) * 0x100_0000 + ((n
            / 0x1_0000) % 0x100) * 0x1_0000 + ((n / 0x100) % 0x100) * 0x100 + n % 0x100 == n,
{
    assert(n < 0x1_0000 ==> (n / 0x100) * 0x100 + n % 0x100 == n) by (bit_vector);
    assert(n < 0x1_0000_0000 ==> (n / 0x100_0000) * 0x100_0000 + ((n / 0x1_0000) % 0x100) * 0x1_0000
        + ((n / 0x100) % 0x100) * 0x100 + n % 0x100 == n) by (bit_vector);
    assert((n / 0x100_0000_0000_0000) * 0x100_0000_0000_0000 + ((n / 0x1_0000_0000_0000) % 0x100)
        * 0x1_0000_0000_0000 + ((n / 0x100_0000_0000) % 0x100) * 0x100_0000_0000 + ((n
        / 0x1_0000_0000) % 0x100) * 0x1_0000_0000 + ((n / 0x100_0000) % 0x100) * 0x100_0000 + ((n
        / 0x1_0000) % 0x100) * 0x1_0000 + ((n / 0x100) % 0x100) * 0x100 + n % 0x100 == n) by (bit_vector);
}

/// A buffer that starts with the head of `major` and `n` states `major` as
/// its major type and `n` as its argument, and the head is as long as its
/// additional information says.
proof fn lemma_head_prefix(major: u8, n: u64, e: Seq<u8>)
    requires
        major <= 7,
        head(major, n).len() <= e.len(),
        forall|j: int| 0 <= j < head(major, n).len() ==> e[j] == #[trigger] head(major, n)[j],
    ensures
        e[0] / 32 == major,
        stated_argument(e) == n,
        head_length((e[0] % 32) as int) == head(major, n).len(),
{
    let h = head(major, n);
    law_head_writes_big_endian(major, n);
    lemma_recombine(n);
    let k: int = if n < 24 {
        n as int
    } else if n < 0x100 {
        24
    } else if n < 0x1_0000 {
        25
    } else if n < 0x1_0000_0000 {
        26
    } else {
        27
    };
    lemma_byte_split(major as int, k);
    assert(e[0] == h[0]);
    if n >= 24 {
        assert(e[1] == h[1]);
    }
    if n >= 0x100 {
        assert(e[2] == h[2]);
    }
    if n >= 0x1_0000 {
        assert(e[3] == h[3] && e[4] == h[4]);
    }
    if n >= 0x1_0000_0000 {
        assert(e[5] == h[5] && e[6] == h[6] && e[7] == h[7] && e[8] == h[8]);
    }
}

/// The major type an item is written with.
pub open spec fn major_of(v: Cbor) -> int {
    match v {
        Cbor::Int(i) => if i >= 0 { 0 } else { 1 },
        Cbor::Bytes(_) => 2,
        Cbor::Text(_) => 3,
        Cbor::Array(_) => 4,
        Cbor::CborMap(_) => 5,
        Cbor::Tagged(_, _) => 6,
        Cbor::Simple(_) => 7,
    }
}

/// The argument an item is written with: an integer's value (or `-1 - i`
/// for a negative one), a string's length in bytes, an array's item count,
/// a map's entry count, a tag, a simple value.
pub open spec fn argument_of(v: Cbor) -> int {
    match v {
        Cbor::Int(i) => if i >= 0 { i as int } else { -1 - i },
        Cbor::Bytes(p) => p.len() as int,
        Cbor::Text(p) => p.len() as int,
        Cbor::Array(items) => items.len() as int,
        Cbor::CborMap(es) => es.len() as int,
        Cbor::Tagged(t, _) => t as int,
        Cbor::Simple(s) => s as int,
    }
}

/// Every serialization starts with a head that states the item's major
/// type and argument; a string's bytes follow its head unchanged.
pub proof fn law_serialized_heads(v: Cbor, mode: Mode, max_depth: usize)
    requires
        serialization(v, mode, max_depth) is Ok,
    ensures
        ({
            let e = serialization(v, mode, max_depth)->Ok_0;
            &&& e.len() >= head_length((e[0] % 32) as int) >= 1
            &&& e[0] / 32 == major_of(v)
            &&& stated_argument(e) == argument_of(v)
            &&& (v matches Cbor::Bytes(p) ==> e.skip(head_length((e[0] % 32) as int)) == p)
            &&& (v matches Cbor::Text(p) ==> e.skip(head_length((e[0] % 32) as int)) == p)
        }),
{
    let e = serialization(v, mode, max_depth)->Ok_0;
    match v {
        Cbor::Simple(s) => {
            if s < 24 {
                assert(e[0] == 0xe0 + s);
                lemma_byte_split(7, s as int);
            } else {
                assert(e[0] == 0xf8 && e[1] == s);
                lemma_byte_split(7, 24);
            }
        },
        _ => {
            let (major, n): (u8, u64) = match v {
                Cbor::Int(i) => if i >= 0 { (MAJOR_UNSIGNED, i as u64) } else { (MAJOR_NEGATIVE, (-1 - i) as u64) },
                Cbor::Bytes(p) => (MAJOR_BYTES, p.len() as u64),
                Cbor::Text(p) => (MAJOR_TEXT, p.len() as u64),
                Cbor::Array(items) => (MAJOR_ARRAY, items.len() as u64),
                Cbor::CborMap(es) => (MAJOR_MAP, es.len() as u64),
                Cbor::Tagged(t, _) => (MAJOR_TAG, t),
                Cbor::Simple(s) => (MAJOR_SIMPLE, s as u64),
            };
            let h = head(major, n);
            assert(h.len() <= e.len() && e.take(h.len() as int) == h);
            assert forall|j: int| 0 <= j < h.len() implies e[j] == #[trigger] h[j] by {
                assert(e.take(h.len() as int)[j] == e[j]);
            }
            lemma_head_prefix(major, n, e);
            if v is Bytes || v is Text {
                assert(e.skip(h.len() as int) =~= e.subrange(h.len() as int, e.len() as int));
            }
        },
    }
}

/// Every document starts with a head that states the major type and the
/// argument of the item it parses to, whatever width the argument was
/// written in; a string's bytes are the ones after its head.
pub proof fn law_parsed_heads(b: Seq<u8>, mode: Mode, max_depth: usize)
    requires
        parse_document(b, mode, max_depth) is Ok,
    ensures
        ({
            let v = parse_document(b, mode, max_depth)->Ok_0;
            &&& b.len() >= head_length((b[0] % 32) as int)
            &&& b[0] / 32 == major_of(v)
            &&& stated_argument(b) == argument_of(v)
            &&& (v matches Cbor::Bytes(p) ==> p == b.subrange(
                head_length((b[0] % 32) as int),
                head_length((b[0] % 32) as int) + p.len(),
            ))
            &&& (v matches Cbor::Text(p) ==> p == b.subrange(
                head_length((b[0] % 32) as int),
                head_length((b[0] % 32) as int) + p.len(),
            ))
        }),
{
    law_head_reads_big_endian(b, 0);
    assert(b.skip(0) =~= b);
    let (major, info, arg, p) = parse_head(b, 0)->Ok_0;
    let budget = max_depth as nat;
    if major == MAJOR_ARRAY && budget > 0 {
        lemma_parse_items_facts(b, p, arg as nat, mode, (budget - 1) as nat, max_depth);
    } else if major == MAJOR_MAP && budget > 0 {
        lemma_parse_entries_facts(b, p, arg as nat, mode, (budget - 1) as nat, max_depth);
    } else if major == MAJOR_SIMPLE && info == 24 {
        let y = b[1];
        assert((y as u64) as u8 == y);
    }
}

/// How an integer is read: a document that parses to an integer starts
/// with major type 0 and states the integer as its argument, or with major
/// type 1 and states `-1 - i`.
pub proof fn law_integers_parse(b: Seq<u8>, mode: Mode, max_depth: usize)
    requires
        parse_document(b, mode, max_depth) matches Ok(Cbor::Int(_)),
    ensures
        b.len() >= 1,
        b[0] / 32 == 0 ==> parse_document(b, mode, max_depth) == Ok::<Cbor, crate::error::CborError>(
            Cbor::Int(stated_argument(b) as i64),
        ) && stated_argument(b) <= i64::MAX,
        b[0] / 32 == 1 ==> parse_document(b, mode, max_depth) == Ok::<Cbor, crate::error::CborError>(
            Cbor::Int((-1 - stated_argument(b)) as i64),
        ) && stated_argument(b) <= i64::MAX,
        b[0] / 32 == 0 || b[0] / 32 == 1,
{
    law_head_reads_big_endian(b, 0);
    assert(b.skip(0) =~= b);
}

/// Map keys order bytewise, each byte an unsigned number: where two keys
/// first differ, the one with the smaller byte sorts first, and a proper
/// prefix sorts before the longer key.
pub proof fn law_key_order_is_bytewise(a: Seq<u8>, b: Seq<u8>, k: int)
    requires
        0 <= k <= a.len(),
        k <= b.len(),
        forall|j: int| 0 <= j < k ==> a[j] == b[j],
    ensures
        k < a.len() && k < b.len() && a[k] != b[k] ==> (lex_lt(a, b) <==> (a[k] as int) < (
        b[k] as int)),
        k == a.len() && k < b.len() ==> lex_lt(a, b),
        k == b.len() ==> !lex_lt(a, b),
    decreases k,
{
    if k > 0 {
        assert(a[0] == b[0]);
        assert forall|j: int| 0 <= j < k - 1 implies a.drop_first()[j] == b.drop_first()[j] by {
            assert(a[j + 1] == b[j + 1]);
        }
        law_key_order_is_bytewise(a.drop_first(), b.drop_first(), k - 1);
    }
}

/// The key check reaches every map at any depth, inside arrays, tagged
/// items, map keys and map values alike: an item's keys are usable exactly
/// when every map directly inside it has usable keys and every part of it
/// has usable keys.
pub proof fn law_key_check_reaches_every_map(v: Cbor)
    ensures
        v matches Cbor::CborMap(es) ==> (keys_usable(v) <==> forall|i: int|
            0 <= i < es.len() ==> usable_key((#[trigger] es[i]).0) && keys_usable(es[i].0)
                && keys_usable(es[i].1)),
        v matches Cbor::Array(items) ==> (keys_usable(v) <==> forall|i: int|
            0 <= i < items.len() ==> keys_usable(#[trigger] items[i])),
        v matches Cbor::Tagged(_, x) ==> (keys_usable(v) <==> keys_usable(*x)),
        !(v is CborMap || v is Array || v is Tagged) ==> keys_usable(v),
{
    match v {
        Cbor::CborMap(es) => {
            assert(v->CborMap_0 == es);
            if keys_usable(v) {
                assert forall|i: int| 0 <= i < es.len() implies usable_key((#[trigger] es[i]).0)
                    && keys_usable(es[i].0) && keys_usable(es[i].1) by {
                    assert(usable_key(v->CborMap_0[i].0) && keys_usable(v->CborMap_0[i].1));
                }
            }
        },
        Cbor::Array(items) => {
            assert(v->Array_0 == items);
            if keys_usable(v) {
                assert forall|i: int| 0 <= i < items.len() implies keys_usable(#[trigger] items[i]) by {
                    assert(keys_usable(v->Array_0[i]));
                }
            }
        },
        _ => {},
    }
}

/// The UTF-8 encoding of any characters at all, code points above U+FFFF
/// included, is valid UTF-8, so text strings accept it.
pub proof fn law_text_of_any_characters_is_valid(chars: Seq<char>)
    ensures
        vstd::utf8::valid_utf8(vstd::utf8::encode_utf8(chars)),
{
    vstd::utf8::encode_utf8_valid_utf8(chars);
}

} // verus!
