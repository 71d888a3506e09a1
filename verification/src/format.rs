//! The CBOR encoding (RFC 8949) as specification: item heads, the
//! serialization of each kind of item, and the deterministic map order.

use vstd::prelude::*;
use crate::error::CborError;
use crate::value::{within_depth, Cbor};

verus! {

/// Whether map entries keep their order (`Nondet`) or are sorted by their
/// encoded keys, with every argument in its shortest form (`Det`).
#[derive(Clone, Copy, PartialEq, Eq, Structural, Debug)]
pub enum Mode {
    Nondet,
    Det,
}

/// Major types of the initial byte.
pub const MAJOR_UNSIGNED: u8 = 0;
pub const MAJOR_NEGATIVE: u8 = 1;
pub const MAJOR_BYTES: u8 = 2;
pub const MAJOR_TEXT: u8 = 3;
pub const MAJOR_ARRAY: u8 = 4;
pub const MAJOR_MAP: u8 = 5;
pub const MAJOR_TAG: u8 = 6;
pub const MAJOR_SIMPLE: u8 = 7;

/// The head of an item of major type `major` (at most 7) with argument
/// `n`, in its shortest form.
pub open spec fn head(major: u8, n: u64) -> Seq<u8> {
    let ib = major * 32;
    if n < 24 {
        seq![(ib + n) as u8]
    } else if n < 0x100 {
        seq![(ib + 24) as u8, n as u8]
    } else if n < 0x10000 {
        seq![(ib + 25) as u8, (n >> 8u64) as u8, n as u8]
    } else if n < 0x1_0000_0000 {
        seq![(ib + 26) as u8, (n >> 24u64) as u8, (n >> 16u64) as u8, (n >> 8u64) as u8, n as u8]
    } else {
        seq![
            (ib + 27) as u8,
            (n >> 56u64) as u8,
            (n >> 48u64) as u8,
            (n >> 40u64) as u8,
            (n >> 32u64) as u8,
            (n >> 24u64) as u8,
            (n >> 16u64) as u8,
            (n >> 8u64) as u8,
            n as u8,
        ]
    }
}

/// The argument of a head with additional information `info` (24 to 27),
/// read big-endian from the bytes that follow the initial byte at `p`.
pub open spec fn read_arg(b: Seq<u8>, p: int, info: u8) -> u64 {
    if info == 24 {
        b[p] as u64
    } else if info == 25 {
        ((b[p] as u64) << 8u64) | (b[p + 1] as u64)
    } else if info == 26 {
        ((b[p] as u64) << 24u64) | ((b[p + 1] as u64) << 16u64) | ((b[p + 2] as u64) << 8u64) | (
        b[p + 3] as u64)
    } else {
        ((b[p] as u64) << 56u64) | ((b[p + 1] as u64) << 48u64) | ((b[p + 2] as u64) << 40u64) | ((
        b[p + 3] as u64) << 32u64) | ((b[p + 4] as u64) << 24u64) | ((b[p + 5] as u64) << 16u64) | ((
        b[p + 6] as u64) << 8u64) | (b[p + 7] as u64)
    }
}

/// How many argument bytes follow an initial byte with additional
/// information `info` (24 to 27).
pub open spec fn arg_width(info: u8) -> int {
    if info == 24 {
        1
    } else if info == 25 {
        2
    } else if info == 26 {
        4
    } else {
        8
    }
}

/// Whether argument `n`, written with additional information `info`, is in
/// its shortest form.
pub open spec fn shortest(info: u8, n: u64) -> bool {
    if info < 24 {
        true
    } else if info == 24 {
        n >= 24
    } else if info == 25 {
        n >= 0x100
    } else if info == 26 {
        n >= 0x10000
    } else {
        n >= 0x1_0000_0000
    }
}

/// The encoding of a simple value; the reserved range 24..=31 has none.
pub open spec fn simple_bytes(s: u8) -> Seq<u8> {
    if s < 24 {
        seq![(0xe0 + s) as u8]
    } else {
        seq![0xf8u8, s]
    }
}

/// The head of an integer: major type 0 for `i >= 0`, major type 1 with
/// argument `-1 - i` otherwise.
pub open spec fn int_bytes(i: i64) -> Seq<u8> {
    if i >= 0 {
        head(MAJOR_UNSIGNED, i as u64)
    } else {
        head(MAJOR_NEGATIVE, (-1 - i) as u64)
    }
}

/// Bytewise lexicographic order, a proper prefix first.
pub open spec fn lex_lt(a: Seq<u8>, b: Seq<u8>) -> bool
    decreases a.len(),
{
    if a.len() == 0 {
        b.len() > 0
    } else if b.len() == 0 {
        false
    } else if a[0] != b[0] {
        a[0] < b[0]
    } else {
        lex_lt(a.drop_first(), b.drop_first())
    }
}

/// An encoded map entry: the key's bytes and the value's bytes.
pub type EncodedEntry = (Seq<u8>, Seq<u8>);

/// Insert `e` before the first entry whose key sorts after its key.
pub open spec fn insert_entry(s: Seq<EncodedEntry>, e: EncodedEntry) -> Seq<EncodedEntry>
    decreases s.len(),
{
    if s.len() == 0 {
        seq![e]
    } else if lex_lt(e.0, s[0].0) {
        seq![e] + s
    } else {
        seq![s[0]] + insert_entry(s.drop_first(), e)
    }
}

/// Entries sorted by their encoded keys (a stable insertion sort).
pub open spec fn sort_entries(s: Seq<EncodedEntry>) -> Seq<EncodedEntry>
    decreases s.len(),
{
    if s.len() == 0 {
        s
    } else {
        insert_entry(sort_entries(s.drop_last()), s.last())
    }
}

/// Whether two neighbouring entries have the same encoded key.
pub open spec fn has_adjacent_duplicate(s: Seq<EncodedEntry>) -> bool {
    exists|i: int| 0 <= i < s.len() - 1 && #[trigger] s[i].0 == s[i + 1].0
}

/// The entries' bytes, key then value, one entry after the other.
pub open spec fn concat_entries(s: Seq<EncodedEntry>) -> Seq<u8>
    decreases s.len(),
{
    if s.len() == 0 {
        Seq::empty()
    } else {
        concat_entries(s.drop_last()) + s.last().0 + s.last().1
    }
}

/// The serialization of `v` with containers nested at most `budget` deep.
/// `limit` is the depth reported when that is exceeded. The first failure
/// in document order is the one reported.
pub open spec fn ser_item(v: Cbor, mode: Mode, budget: nat, limit: usize) -> Result<
    Seq<u8>,
    CborError,
>
    decreases budget, 0nat, 0nat,
{
    match v {
        Cbor::Int(i) => Ok(int_bytes(i)),
        Cbor::Bytes(p) => if p.len() > u64::MAX {
            Err(CborError::LengthOutOfRange)
        } else {
            Ok(head(MAJOR_BYTES, p.len() as u64) + p)
        },
        Cbor::Text(p) => if !vstd::utf8::valid_utf8(p) {
            Err(CborError::InvalidUtf8)
        } else if p.len() > u64::MAX {
            Err(CborError::LengthOutOfRange)
        } else {
            Ok(head(MAJOR_TEXT, p.len() as u64) + p)
        },
        Cbor::Simple(s) => if 24 <= s <= 31 {
            Err(CborError::ReservedSimple)
        } else {
            Ok(simple_bytes(s))
        },
        Cbor::Array(items) => if budget == 0 {
            Err(CborError::DepthExceeded { limit })
        } else if items.len() > u64::MAX {
            Err(CborError::LengthOutOfRange)
        } else {
            match ser_items(items, mode, (budget - 1) as nat, limit) {
                Ok(s) => Ok(head(MAJOR_ARRAY, items.len() as u64) + s),
                Err(e) => Err(e),
            }
        },
        Cbor::CborMap(entries) => if budget == 0 {
            Err(CborError::DepthExceeded { limit })
        } else if entries.len() > u64::MAX {
            Err(CborError::LengthOutOfRange)
        } else {
            match ser_entries(entries, mode, (budget - 1) as nat, limit) {
                Ok(es) => if mode == Mode::Nondet {
                    Ok(head(MAJOR_MAP, entries.len() as u64) + concat_entries(es))
                } else if has_adjacent_duplicate(sort_entries(es)) {
                    Err(CborError::DuplicateMapKey)
                } else {
                    Ok(head(MAJOR_MAP, entries.len() as u64) + concat_entries(sort_entries(es)))
                },
                Err(e) => Err(e),
            }
        },
        Cbor::Tagged(tag, x) => if budget == 0 {
            Err(CborError::DepthExceeded { limit })
        } else {
            match ser_item(*x, mode, (budget - 1) as nat, limit) {
                Ok(s) => Ok(head(MAJOR_TAG, tag) + s),
                Err(e) => Err(e),
            }
        },
    }
}

/// The items' serializations, one after the other.
pub open spec fn ser_items(items: Seq<Cbor>, mode: Mode, budget: nat, limit: usize) -> Result<
    Seq<u8>,
    CborError,
>
    decreases budget, 1nat, items.len(),
{
    if items.len() == 0 {
        Ok(Seq::empty())
    } else {
        match ser_items(items.drop_last(), mode, budget, limit) {
            Ok(a) => match ser_item(items.last(), mode, budget, limit) {
                Ok(c) => Ok(a + c),
                Err(e) => Err(e),
            },
            Err(e) => Err(e),
        }
    }
}

/// Each entry's key and value serialized, in the entries' order.
pub open spec fn ser_entries(
    entries: Seq<(Cbor, Cbor)>,
    mode: Mode,
    budget: nat,
    limit: usize,
) -> Result<Seq<EncodedEntry>, CborError>
    decreases budget, 1nat, entries.len(),
{
    if entries.len() == 0 {
        Ok(Seq::empty())
    } else {
        match ser_entries(entries.drop_last(), mode, budget, limit) {
            Ok(a) => match ser_item(entries.last().0, mode, budget, limit) {
                Ok(k) => match ser_item(entries.last().1, mode, budget, limit) {
                    Ok(x) => Ok(a.push((k, x))),
                    Err(e) => Err(e),
                },
                Err(e) => Err(e),
            },
            Err(e) => Err(e),
        }
    }
}

/// The serialization of a whole document with nesting at most `max_depth`.
pub open spec fn serialization(v: Cbor, mode: Mode, max_depth: usize) -> Result<Seq<u8>, CborError> {
    ser_item(v, mode, max_depth as nat, max_depth)
}

} // verus!

verus! {

/// A failure on a prefix of the items is the failure on all of them.
pub proof fn lemma_ser_items_err(items: Seq<Cbor>, k: int, mode: Mode, budget: nat, limit: usize)
    requires
        0 <= k <= items.len(),
        ser_items(items.take(k), mode, budget, limit) is Err,
    ensures
        ser_items(items, mode, budget, limit) == ser_items(items.take(k), mode, budget, limit),
    decreases items.len(),
{
    if k == items.len() {
        assert(items.take(k) =~= items);
    } else {
        assert(items.drop_last().take(k) =~= items.take(k));
        lemma_ser_items_err(items.drop_last(), k, mode, budget, limit);
    }
}

/// A failure on a prefix of the entries is the failure on all of them.
pub proof fn lemma_ser_entries_err(
    entries: Seq<(Cbor, Cbor)>,
    k: int,
    mode: Mode,
    budget: nat,
    limit: usize,
)
    requires
        0 <= k <= entries.len(),
        ser_entries(entries.take(k), mode, budget, limit) is Err,
    ensures
        ser_entries(entries, mode, budget, limit) == ser_entries(entries.take(k), mode, budget, limit),
    decreases entries.len(),
{
    if k == entries.len() {
        assert(entries.take(k) =~= entries);
    } else {
        assert(entries.drop_last().take(k) =~= entries.take(k));
        lemma_ser_entries_err(entries.drop_last(), k, mode, budget, limit);
    }
}

/// Inserting before the first entry with a greater key.
pub proof fn lemma_insert_entry(s: Seq<EncodedEntry>, e: EncodedEntry, j: int)
    requires
        0 <= j <= s.len(),
        forall|k: int| 0 <= k < j ==> !lex_lt(e.0, #[trigger] s[k].0),
        j < s.len() ==> lex_lt(e.0, s[j].0),
    ensures
        insert_entry(s, e) == s.insert(j, e),
    decreases s.len(),
{
    if s.len() == 0 {
        assert(s.insert(j, e) =~= seq![e]);
    } else if j == 0 {
        assert(s.insert(j, e) =~= seq![e] + s);
    } else {
        let t = s.drop_first();
        assert forall|k: int| 0 <= k < j - 1 implies !lex_lt(e.0, #[trigger] t[k].0) by {
            assert(t[k] == s[k + 1]);
        }
        lemma_insert_entry(t, e, j - 1);
        assert(s.insert(j, e) =~= seq![s[0]] + t.insert(j - 1, e));
    }
}

} // verus!

verus! {

/// The initial byte at `pos`, split into major type and additional
/// information, with the argument that follows: `(major, info, argument,
/// position after the head)`.
pub open spec fn parse_head(b: Seq<u8>, pos: int) -> Result<(u8, u8, u64, int), CborError> {
    if pos < 0 || pos >= b.len() {
        Err(CborError::UnexpectedEnd)
    } else {
        let major = b[pos] >> 5u8;
        let info = b[pos] & 31u8;
        if info < 24 {
            Ok((major, info, info as u64, pos + 1))
        } else if info < 28 {
            if pos + 1 + arg_width(info) > b.len() {
                Err(CborError::UnexpectedEnd)
            } else {
                Ok((major, info, read_arg(b, pos + 1, info), pos + 1 + arg_width(info)))
            }
        } else if info == 31 {
            if major == MAJOR_SIMPLE {
                Err(CborError::UnexpectedBreak)
            } else {
                Err(CborError::IndefiniteLength)
            }
        } else {
            Err(CborError::ReservedInfo)
        }
    }
}

/// The item that starts at `pos`, with containers nested at most `budget`
/// deep, and the position after it. `limit` is the depth reported when
/// that is exceeded. The first failure in the input is the one reported.
pub open spec fn parse_item(b: Seq<u8>, pos: int, mode: Mode, budget: nat, limit: usize) -> Result<
    (Cbor, int),
    CborError,
>
    decreases budget, 0nat, 0nat,
{
    match parse_head(b, pos) {
        Err(e) => Err(e),
        Ok((major, info, arg, p)) => if major == MAJOR_SIMPLE {
            if info < 24 {
                Ok((Cbor::Simple(info), p))
            } else if info == 24 {
                if arg < 32 {
                    Err(CborError::InvalidSimpleEncoding)
                } else {
                    Ok((Cbor::Simple(arg as u8), p))
                }
            } else {
                Err(CborError::UnsupportedFloat)
            }
        } else if mode == Mode::Det && !shortest(info, arg) {
            Err(CborError::NonCanonicalHead)
        } else if major == MAJOR_UNSIGNED || major == MAJOR_NEGATIVE {
            if arg > i64::MAX {
                Err(CborError::IntegerOutOfRange)
            } else if major == MAJOR_UNSIGNED {
                Ok((Cbor::Int(arg as i64), p))
            } else {
                Ok((Cbor::Int((-1 - arg) as i64), p))
            }
        } else if major == MAJOR_BYTES || major == MAJOR_TEXT {
            if arg > b.len() - p {
                Err(CborError::UnexpectedEnd)
            } else if major == MAJOR_BYTES {
                Ok((Cbor::Bytes(b.subrange(p, p + arg)), p + arg))
            } else if !vstd::utf8::valid_utf8(b.subrange(p, p + arg)) {
                Err(CborError::InvalidUtf8)
            } else {
                Ok((Cbor::Text(b.subrange(p, p + arg)), p + arg))
            }
        } else if budget == 0 {
            Err(CborError::DepthExceeded { limit })
        } else if major == MAJOR_ARRAY {
            if arg > b.len() - p {
                Err(CborError::UnexpectedEnd)
            } else {
                match parse_items(b, p, arg as nat, mode, (budget - 1) as nat, limit) {
                    Ok((items, q)) => Ok((Cbor::Array(items), q)),
                    Err(e) => Err(e),
                }
            }
        } else if major == MAJOR_MAP {
            if 2 * arg > b.len() - p {
                Err(CborError::UnexpectedEnd)
            } else {
                match parse_entries(b, p, arg as nat, mode, (budget - 1) as nat, limit) {
                    Ok((entries, spans, q)) => if mode == Mode::Det && !keys_ascending(b, spans) {
                        Err(CborError::MapKeyOrder)
                    } else {
                        Ok((Cbor::CborMap(entries), q))
                    },
                    Err(e) => Err(e),
                }
            }
        } else {
            match parse_item(b, p, mode, (budget - 1) as nat, limit) {
                Ok((x, q)) => Ok((Cbor::Tagged(arg, Box::new(x)), q)),
                Err(e) => Err(e),
            }
        },
    }
}

/// `n` items one after the other from `pos`.
pub open spec fn parse_items(
    b: Seq<u8>,
    pos: int,
    n: nat,
    mode: Mode,
    budget: nat,
    limit: usize,
) -> Result<(Seq<Cbor>, int), CborError>
    decreases budget, 1nat, n,
{
    if n == 0 {
        Ok((Seq::empty(), pos))
    } else {
        match parse_items(b, pos, (n - 1) as nat, mode, budget, limit) {
            Ok((xs, p)) => match parse_item(b, p, mode, budget, limit) {
                Ok((x, q)) => Ok((xs.push(x), q)),
                Err(e) => Err(e),
            },
            Err(e) => Err(e),
        }
    }
}

/// `n` map entries one after the other from `pos`, with where each key's
/// bytes lie.
pub open spec fn parse_entries(
    b: Seq<u8>,
    pos: int,
    n: nat,
    mode: Mode,
    budget: nat,
    limit: usize,
) -> Result<(Seq<(Cbor, Cbor)>, Seq<(int, int)>, int), CborError>
    decreases budget, 1nat, n,
{
    if n == 0 {
        Ok((Seq::empty(), Seq::empty(), pos))
    } else {
        match parse_entries(b, pos, (n - 1) as nat, mode, budget, limit) {
            Ok((es, spans, p)) => match parse_item(b, p, mode, budget, limit) {
                Ok((k, q)) => match parse_item(b, q, mode, budget, limit) {
                    Ok((x, r)) => Ok((es.push((k, x)), spans.push((p, q)), r)),
                    Err(e) => Err(e),
                },
                Err(e) => Err(e),
            },
            Err(e) => Err(e),
        }
    }
}

/// Whether the keys' bytes at `spans` strictly ascend.
pub open spec fn keys_ascending(b: Seq<u8>, spans: Seq<(int, int)>) -> bool {
    forall|i: int|
        0 <= i < spans.len() - 1 ==> lex_lt(
            b.subrange(spans[i].0, spans[i].1),
            b.subrange(#[trigger] spans[i + 1].0, spans[i + 1].1),
        )
}

/// The item a whole document holds, nested at most `max_depth` deep.
pub open spec fn parse_document(b: Seq<u8>, mode: Mode, max_depth: usize) -> Result<Cbor, CborError> {
    match parse_item(b, 0, mode, max_depth as nat, max_depth) {
        Ok((v, q)) => if q == b.len() {
            Ok(v)
        } else {
            Err(CborError::TrailingBytes)
        },
        Err(e) => Err(e),
    }
}

} // verus!

verus! {

/// A failure within the first `k` items is the failure of all `n`.
pub proof fn lemma_parse_items_err(
    b: Seq<u8>,
    pos: int,
    k: nat,
    n: nat,
    mode: Mode,
    budget: nat,
    limit: usize,
)
    requires
        k <= n,
        parse_items(b, pos, k, mode, budget, limit) is Err,
    ensures
        parse_items(b, pos, n, mode, budget, limit) == parse_items(b, pos, k, mode, budget, limit),
    decreases n,
{
    if k < n {
        lemma_parse_items_err(b, pos, k, (n - 1) as nat, mode, budget, limit);
    }
}

/// A failure within the first `k` entries is the failure of all `n`.
pub proof fn lemma_parse_entries_err(
    b: Seq<u8>,
    pos: int,
    k: nat,
    n: nat,
    mode: Mode,
    budget: nat,
    limit: usize,
)
    requires
        k <= n,
        parse_entries(b, pos, k, mode, budget, limit) is Err,
    ensures
        parse_entries(b, pos, n, mode, budget, limit) == parse_entries(
            b,
            pos,
            k,
            mode,
            budget,
            limit,
        ),
    decreases n,
{
    if k < n {
        lemma_parse_entries_err(b, pos, k, (n - 1) as nat, mode, budget, limit);
    }
}

} // verus!

verus! {

/// A parsed item lies within the input after `pos` and nests no deeper
/// than the budget.
pub proof fn lemma_parse_item_facts(b: Seq<u8>, pos: int, mode: Mode, budget: nat, limit: usize)
    requires
        parse_item(b, pos, mode, budget, limit) is Ok,
    ensures
        pos < parse_item(b, pos, mode, budget, limit)->Ok_0.1 <= b.len(),
        within_depth(parse_item(b, pos, mode, budget, limit)->Ok_0.0, budget),
    decreases budget, 0nat, 0nat,
{
    let (major, info, arg, p) = parse_head(b, pos)->Ok_0;
    if major != MAJOR_SIMPLE && major != MAJOR_UNSIGNED && major != MAJOR_NEGATIVE && major
        != MAJOR_BYTES && major != MAJOR_TEXT {
        if major == MAJOR_ARRAY {
            lemma_parse_items_facts(b, p, arg as nat, mode, (budget - 1) as nat, limit);
        } else if major == MAJOR_MAP {
            lemma_parse_entries_facts(b, p, arg as nat, mode, (budget - 1) as nat, limit);
        } else {
            lemma_parse_item_facts(b, p, mode, (budget - 1) as nat, limit);
        }
    }
}

/// Parsed items lie within the input from `pos`, each nesting no deeper
/// than the budget.
pub proof fn lemma_parse_items_facts(
    b: Seq<u8>,
    pos: int,
    n: nat,
    mode: Mode,
    budget: nat,
    limit: usize,
)
    requires
        parse_items(b, pos, n, mode, budget, limit) is Ok,
        0 <= pos <= b.len(),
    ensures
        pos <= parse_items(b, pos, n, mode, budget, limit)->Ok_0.1 <= b.len(),
        parse_items(b, pos, n, mode, budget, limit)->Ok_0.0.len() == n,
        forall|i: int|
            0 <= i < n ==> within_depth(
                #[trigger] parse_items(b, pos, n, mode, budget, limit)->Ok_0.0[i],
                budget,
            ),
    decreases budget, 1nat, n,
{
    if n > 0 {
        lemma_parse_items_facts(b, pos, (n - 1) as nat, mode, budget, limit);
        let (xs, p) = parse_items(b, pos, (n - 1) as nat, mode, budget, limit)->Ok_0;
        lemma_parse_item_facts(b, p, mode, budget, limit);
    }
}

/// Parsed entries lie within the input from `pos`, each key and value
/// nesting no deeper than the budget, and their key spans lie in order
/// within it too.
pub proof fn lemma_parse_entries_facts(
    b: Seq<u8>,
    pos: int,
    n: nat,
    mode: Mode,
    budget: nat,
    limit: usize,
)
    requires
        parse_entries(b, pos, n, mode, budget, limit) is Ok,
        0 <= pos <= b.len(),
    ensures
        pos <= parse_entries(b, pos, n, mode, budget, limit)->Ok_0.2 <= b.len(),
        parse_entries(b, pos, n, mode, budget, limit)->Ok_0.0.len() == n,
        parse_entries(b, pos, n, mode, budget, limit)->Ok_0.1.len() == n,
        forall|i: int|
            0 <= i < n ==> within_depth(
                (#[trigger] parse_entries(b, pos, n, mode, budget, limit)->Ok_0.0[i]).0,
                budget,
            ) && within_depth(parse_entries(b, pos, n, mode, budget, limit)->Ok_0.0[i].1, budget),
    decreases budget, 1nat, n,
{
    if n > 0 {
        lemma_parse_entries_facts(b, pos, (n - 1) as nat, mode, budget, limit);
        let (es, spans, p) = parse_entries(b, pos, (n - 1) as nat, mode, budget, limit)->Ok_0;
        lemma_parse_item_facts(b, p, mode, budget, limit);
        let (k, q) = parse_item(b, p, mode, budget, limit)->Ok_0;
        lemma_parse_item_facts(b, q, mode, budget, limit);
    }
}

} // verus!
