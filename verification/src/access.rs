//! Building and inspecting single items: the operations behind the
//! handle-based C ABI.

use vstd::prelude::*;
use crate::serialize::same_bytes;
use crate::text::is_utf8;
use crate::tree::copy_bytes;
use crate::value::{
    lemma_model_entries, lemma_model_seq, model, model_entries, payloads_all, same_storage, Cbor,
    CborValue, Payload,
};
use crate::{
    is_reserved_simple, KIND_ARRAY, KIND_BYTES, KIND_MAP, KIND_SIGNED, KIND_SIMPLE, KIND_STRING,
    KIND_TAGGED, STATUS_KEY_NOT_FOUND, STATUS_OUT_OF_BOUND, STATUS_TYPE_MISMATCH,
};

verus! {

/// Whether `k` may be a map key: containers may not, so that every key a
/// map holds is one that [`map_at`] can look up.
pub open spec fn usable_key(k: Cbor) -> bool {
    !(k is Array || k is CborMap || k is Tagged)
}

/// Whether every map key anywhere in `v` is usable.
pub open spec fn keys_usable(v: Cbor) -> bool
    decreases v,
{
    match v {
        Cbor::Array(items) => forall|i: int|
            #![trigger items[i]]
            0 <= i < items.len() ==> keys_usable(items[i]),
        Cbor::CborMap(es) => forall|i: int|
            0 <= i < es.len() ==> usable_key((#[trigger] es[i]).0) && keys_usable(es[i].1),
        Cbor::Tagged(_, x) => keys_usable(*x),
        _ => true,
    }
}

/// The kind of an item, as one of the `KIND_*` constants.
pub open spec fn kind(v: Cbor) -> i32 {
    match v {
        Cbor::Int(_) => KIND_SIGNED,
        Cbor::Bytes(_) => KIND_BYTES,
        Cbor::Text(_) => KIND_STRING,
        Cbor::Array(_) => KIND_ARRAY,
        Cbor::CborMap(_) => KIND_MAP,
        Cbor::Tagged(_, _) => KIND_TAGGED,
        Cbor::Simple(_) => KIND_SIMPLE,
    }
}

/// Report the kind of `value` as one of the `KIND_*` constants.
pub fn kind_of(value: &CborValue) -> (r: i32)
    ensures
        r == kind(value@),
{
    match value {
        CborValue::Int(_) => KIND_SIGNED,
        CborValue::ByteString(_) => KIND_BYTES,
        CborValue::TextString(_) => KIND_STRING,
        CborValue::Array(_) => KIND_ARRAY,
        CborValue::CborMap(_) => KIND_MAP,
        CborValue::Tagged { .. } => KIND_TAGGED,
        CborValue::Simple(_) => KIND_SIMPLE,
    }
}

/// Whether `value` may be used as a map key.
pub fn usable_as_key(value: &CborValue) -> (r: bool)
    ensures
        r == usable_key(value@),
{
    match value {
        CborValue::Array(_) | CborValue::CborMap(_) | CborValue::Tagged { .. } => false,
        _ => true,
    }
}

/// Whether every map key anywhere in `value` is usable.
pub fn keys_are_usable(value: &CborValue) -> (r: bool)
    ensures
        r == keys_usable(value@),
    decreases value,
{
    match value {
        CborValue::Array(items) => {
            proof {
                lemma_model_seq(items@);
            }
            let mut i: usize = 0;
            while i < items.len()
                invariant
                    i <= items@.len(),
                    *value == CborValue::Array(*items),
                    value@ == Cbor::Array(crate::value::model_seq(items@)),
                    crate::value::model_seq(items@).len() == items@.len(),
                    forall|k: int| 0 <= k < items@.len() ==> #[trigger] crate::value::model_seq(items@)[k] == model(items@[k]),
                    forall|k: int| 0 <= k < i ==> keys_usable(model(#[trigger] items@[k])),
                decreases items@.len() - i,
            {
                proof {
                    assert(decreases_to!(*value => *items));
                    assert(decreases_to!(*items => items@[i as int]));
                }
                if !keys_are_usable(&items[i]) {
                    assert(value@->Array_0 == crate::value::model_seq(items@));
                    assert(!keys_usable(value@->Array_0[i as int]));
                    return false;
                }
                i += 1;
            }
            true
        },
        CborValue::CborMap(entries) => {
            proof {
                lemma_model_entries(entries@);
            }
            let mut i: usize = 0;
            while i < entries.len()
                invariant
                    i <= entries@.len(),
                    *value == CborValue::CborMap(*entries),
                    value@ == Cbor::CborMap(model_entries(entries@)),
                    model_entries(entries@).len() == entries@.len(),
                    forall|k: int| 0 <= k < entries@.len() ==> #[trigger] model_entries(entries@)[k] == (model(entries@[k].0), model(entries@[k].1)),
                    forall|k: int| 0 <= k < i ==> usable_key(model((#[trigger] entries@[k]).0)) && keys_usable(model(entries@[k].1)),
                decreases entries@.len() - i,
            {
                proof {
                    assert(value->CborMap_0 == *entries);
                    assert(decreases_to!(*value => value->CborMap_0));
                    assert(decreases_to!(*entries => entries@[i as int]));
                    assert(decreases_to!(entries@[i as int] => entries@[i as int].1));
                }
                if !usable_as_key(&entries[i].0) || !keys_are_usable(&entries[i].1) {
                    assert(value@->CborMap_0 == model_entries(entries@));
                    assert(!(usable_key(value@->CborMap_0[i as int].0) && keys_usable(value@->CborMap_0[i as int].1)));
                    return false;
                }
                i += 1;
            }
            true
        },
        CborValue::Tagged { payload, .. } => keys_are_usable(payload),
        _ => true,
    }
}

} // verus!

verus! {

/// Build a byte string that borrows `payload`.
pub fn bytes_value<'a>(payload: &'a [u8]) -> (r: CborValue<'a>)
    ensures
        r@ == Cbor::Bytes(payload@),
        payloads_all(r, true),
{
    CborValue::ByteString(Payload::Borrowed(payload))
}

/// Build a text string that borrows `payload`, rejecting invalid UTF-8.
pub fn string_value<'a>(payload: &'a [u8]) -> (r: Option<CborValue<'a>>)
    ensures
        r is Some <==> vstd::utf8::valid_utf8(payload@),
        r matches Some(x) ==> x@ == Cbor::Text(payload@) && payloads_all(x, true),
{
    if is_utf8(payload) {
        Some(CborValue::TextString(Payload::Borrowed(payload)))
    } else {
        None
    }
}

/// Build a simple value; the values RFC 8949 reserves are refused.
pub fn simple_value<'a>(value: u8) -> (r: Option<CborValue<'a>>)
    ensures
        r is Some <==> !is_reserved_simple(value),
        r matches Some(x) ==> x@ == Cbor::Simple(value),
{
    if is_reserved_simple(value) {
        None
    } else {
        Some(CborValue::Simple(value))
    }
}

/// The entries formed by consecutive pairs of `items`, key then value.
pub open spec fn pairs_of(items: Seq<Cbor>) -> Seq<(Cbor, Cbor)> {
    Seq::new(items.len() / 2, |i: int| (items[2 * i], items[2 * i + 1]))
}

/// Build a map from `items` ordered key, value, key, value. Keys must not
/// be arrays, maps or tagged values, matching the lookup [`map_at`] offers.
pub fn map_value<'a>(items: Vec<CborValue<'a>>) -> (r: Option<CborValue<'a>>)
    requires
        items@.len() % 2 == 0,
    ensures
        r is Some <==> forall|i: int|
            0 <= i < items@.len() / 2 ==> usable_key(#[trigger] items@[2 * i]@),
        r matches Some(x) ==> x@ == Cbor::CborMap(pairs_of(crate::value::model_seq(items@))),
{
    let ghost orig = items@;
    proof {
        lemma_model_seq(items@);
    }
    let mut i: usize = 0;
    while i < items.len() / 2
        invariant
            items@ == orig,
            items@.len() % 2 == 0,
            i <= items@.len() / 2,
            forall|j: int| 0 <= j < i ==> usable_key(#[trigger] items@[2 * j]@),
        decreases items@.len() / 2 - i,
    {
        if !usable_as_key(&items[2 * i]) {
            return None;
        }
        i += 1;
    }
    let mut rest = items;
    let mut reversed: Vec<(CborValue<'a>, CborValue<'a>)> = Vec::new();
    while rest.len() >= 2
        invariant
            rest@.len() + 2 * reversed@.len() == orig.len(),
            orig.len() % 2 == 0,
            rest@ == orig.take(rest@.len() as int),
            forall|j: int|
                0 <= j < reversed@.len() ==> #[trigger] reversed@[j] == (
                    orig[orig.len() - 2 * j - 2],
                    orig[orig.len() - 2 * j - 1],
                ),
        decreases rest@.len(),
    {
        let ghost r = rest@.len();
        let v = rest.pop().unwrap();
        let k = rest.pop().unwrap();
        assert(v == orig[r - 1]);
        assert(k == orig[r - 2]);
        reversed.push((k, v));
        assert(rest@ =~= orig.take(rest@.len() as int));
    }
    let mut entries: Vec<(CborValue<'a>, CborValue<'a>)> = Vec::new();
    let n = reversed.len();
    assert(rest@.len() == 0);
    while reversed.len() > 0
        invariant
            entries@.len() + reversed@.len() == n,
            2 * n == orig.len(),
            forall|j: int|
                0 <= j < reversed@.len() ==> #[trigger] reversed@[j] == (
                    orig[orig.len() - 2 * j - 2],
                    orig[orig.len() - 2 * j - 1],
                ),
            forall|j: int|
                0 <= j < entries@.len() ==> #[trigger] entries@[j] == (orig[2 * j], orig[2 * j + 1]),
        decreases reversed@.len(),
    {
        let e = reversed.pop().unwrap();
        entries.push(e);
    }
    proof {
        lemma_model_entries(entries@);
        assert(model_entries(entries@) =~= pairs_of(crate::value::model_seq(orig)));
    }
    Some(CborValue::CborMap(entries))
}

/// A copy of `value` and everything below it that keeps each payload
/// where `value` keeps it: a borrowed payload is borrowed again from the
/// same memory, an owned one is copied.
pub fn copy_value<'a>(value: &CborValue<'a>) -> (r: CborValue<'a>)
    ensures
        r@ == value@,
        same_storage(*value, r),
    decreases value,
{
    match value {
        CborValue::Int(i) => CborValue::Int(*i),
        CborValue::ByteString(p) => CborValue::ByteString(copy_payload(p)),
        CborValue::TextString(p) => CborValue::TextString(copy_payload(p)),
        CborValue::Simple(s) => CborValue::Simple(*s),
        CborValue::Tagged { tag, payload } => CborValue::Tagged {
            tag: *tag,
            payload: Box::new(copy_value(payload)),
        },
        CborValue::Array(items) => {
            let mut out: Vec<CborValue<'a>> = Vec::new();
            let mut i: usize = 0;
            while i < items.len()
                invariant
                    i <= items@.len(),
                    *value == CborValue::Array(*items),
                    out@.len() == i,
                    crate::value::model_seq(out@) == crate::value::model_seq(items@.take(i as int)),
                    forall|j: int| 0 <= j < i ==> same_storage(#[trigger] items@[j], out@[j]),
                decreases items@.len() - i,
            {
                proof {
                    assert(value->Array_0 == *items);
                    assert(decreases_to!(*value => value->Array_0));
                    assert(decreases_to!(*items => items@[i as int]));
                }
                let x = copy_value(&items[i]);
                let ghost before = out@;
                out.push(x);
                assert(out@.drop_last() =~= before);
                assert(items@.take(i + 1).drop_last() =~= items@.take(i as int));
                i += 1;
            }
            assert(items@.take(i as int) =~= items@);
            let r = CborValue::Array(out);
            assert(same_storage(*value, r));
            r
        },
        CborValue::CborMap(entries) => {
            let mut out: Vec<(CborValue<'a>, CborValue<'a>)> = Vec::new();
            let mut i: usize = 0;
            while i < entries.len()
                invariant
                    i <= entries@.len(),
                    *value == CborValue::CborMap(*entries),
                    out@.len() == i,
                    model_entries(out@) == model_entries(entries@.take(i as int)),
                    forall|j: int|
                        0 <= j < i ==> same_storage((#[trigger] entries@[j]).0, out@[j].0)
                            && same_storage(entries@[j].1, out@[j].1),
                decreases entries@.len() - i,
            {
                proof {
                    assert(value->CborMap_0 == *entries);
                    assert(decreases_to!(*value => value->CborMap_0));
                    assert(decreases_to!(*entries => entries@[i as int]));
                    assert(decreases_to!(entries@[i as int] => entries@[i as int].0));
                    assert(decreases_to!(entries@[i as int] => entries@[i as int].1));
                }
                let k = copy_value(&entries[i].0);
                let x = copy_value(&entries[i].1);
                let ghost before = out@;
                out.push((k, x));
                assert(out@.drop_last() =~= before);
                assert(entries@.take(i + 1).drop_last() =~= entries@.take(i as int));
                i += 1;
            }
            assert(entries@.take(i as int) =~= entries@);
            let r = CborValue::CborMap(out);
            assert(same_storage(*value, r));
            r
        },
    }
}

/// A payload kept where `p` keeps it.
fn copy_payload<'a>(p: &Payload<'a>) -> (r: Payload<'a>)
    ensures
        r@ == p@,
        (r is Borrowed) == (p is Borrowed),
{
    match p {
        Payload::Borrowed(s) => Payload::Borrowed(*s),
        Payload::Owned(v) => Payload::Owned(copy_bytes(v.as_slice())),
    }
}

/// A copy of `value` and everything below it that owns every payload, so
/// that it outlives the memory `value` borrows.
pub fn owned_value<'a, 'b>(value: &CborValue<'a>) -> (r: CborValue<'b>)
    ensures
        r@ == value@,
        payloads_all(r, false),
    decreases value,
{
    match value {
        CborValue::Int(i) => CborValue::Int(*i),
        CborValue::ByteString(p) => CborValue::ByteString(Payload::Owned(copy_bytes(p.bytes()))),
        CborValue::TextString(p) => CborValue::TextString(Payload::Owned(copy_bytes(p.bytes()))),
        CborValue::Simple(s) => CborValue::Simple(*s),
        CborValue::Tagged { tag, payload } => CborValue::Tagged {
            tag: *tag,
            payload: Box::new(owned_value(payload)),
        },
        CborValue::Array(items) => {
            let mut out: Vec<CborValue<'b>> = Vec::new();
            let mut i: usize = 0;
            while i < items.len()
                invariant
                    i <= items@.len(),
                    *value == CborValue::Array(*items),
                    out@.len() == i,
                    crate::value::model_seq(out@) == crate::value::model_seq(items@.take(i as int)),
                    forall|j: int| 0 <= j < i ==> payloads_all(#[trigger] out@[j], false),
                decreases items@.len() - i,
            {
                proof {
                    assert(value->Array_0 == *items);
                    assert(decreases_to!(*value => value->Array_0));
                    assert(decreases_to!(*items => items@[i as int]));
                }
                let x = owned_value(&items[i]);
                let ghost before = out@;
                out.push(x);
                assert(out@.drop_last() =~= before);
                assert(items@.take(i + 1).drop_last() =~= items@.take(i as int));
                i += 1;
            }
            assert(items@.take(i as int) =~= items@);
            let r = CborValue::Array(out);
            assert(payloads_all(r, false));
            r
        },
        CborValue::CborMap(entries) => {
            let mut out: Vec<(CborValue<'b>, CborValue<'b>)> = Vec::new();
            let mut i: usize = 0;
            while i < entries.len()
                invariant
                    i <= entries@.len(),
                    *value == CborValue::CborMap(*entries),
                    out@.len() == i,
                    model_entries(out@) == model_entries(entries@.take(i as int)),
                    forall|j: int|
                        0 <= j < i ==> payloads_all((#[trigger] out@[j]).0, false) && payloads_all(
                            out@[j].1,
                            false,
                        ),
                decreases entries@.len() - i,
            {
                proof {
                    assert(value->CborMap_0 == *entries);
                    assert(decreases_to!(*value => value->CborMap_0));
                    assert(decreases_to!(*entries => entries@[i as int]));
                    assert(decreases_to!(entries@[i as int] => entries@[i as int].0));
                    assert(decreases_to!(entries@[i as int] => entries@[i as int].1));
                }
                let k = owned_value(&entries[i].0);
                let x = owned_value(&entries[i].1);
                let ghost before = out@;
                out.push((k, x));
                assert(out@.drop_last() =~= before);
                assert(entries@.take(i + 1).drop_last() =~= entries@.take(i as int));
                i += 1;
            }
            assert(entries@.take(i as int) =~= entries@);
            let r = CborValue::CborMap(out);
            assert(payloads_all(r, false));
            r
        },
    }
}

} // verus!

verus! {

/// Read a signed integer.
pub fn as_signed(value: &CborValue) -> (r: Result<i64, i32>)
    ensures
        match value@ {
            Cbor::Int(i) => r == Ok::<i64, i32>(i),
            _ => r == Err::<i64, i32>(STATUS_TYPE_MISMATCH),
        },
{
    match value {
        CborValue::Int(i) => Ok(*i),
        _ => Err(STATUS_TYPE_MISMATCH),
    }
}

/// Read a simple value.
pub fn as_simple(value: &CborValue) -> (r: Result<u8, i32>)
    ensures
        match value@ {
            Cbor::Simple(s) => r == Ok::<u8, i32>(s),
            _ => r == Err::<u8, i32>(STATUS_TYPE_MISMATCH),
        },
{
    match value {
        CborValue::Simple(s) => Ok(*s),
        _ => Err(STATUS_TYPE_MISMATCH),
    }
}

/// Read a byte string payload.
pub fn as_bytes<'b, 'a>(value: &'b CborValue<'a>) -> (r: Result<&'b [u8], i32>)
    ensures
        match value@ {
            Cbor::Bytes(p) => r matches Ok(s) && s@ == p,
            _ => r matches Err(e) && e == STATUS_TYPE_MISMATCH,
        },
{
    match value {
        CborValue::ByteString(p) => Ok(p.bytes()),
        _ => Err(STATUS_TYPE_MISMATCH),
    }
}

/// Read a text string payload, as UTF-8 bytes.
pub fn as_string<'b, 'a>(value: &'b CborValue<'a>) -> (r: Result<&'b [u8], i32>)
    ensures
        match value@ {
            Cbor::Text(p) => r matches Ok(s) && s@ == p,
            _ => r matches Err(e) && e == STATUS_TYPE_MISMATCH,
        },
{
    match value {
        CborValue::TextString(p) => Ok(p.bytes()),
        _ => Err(STATUS_TYPE_MISMATCH),
    }
}

/// Read the tag of a tagged value.
pub fn as_tag(value: &CborValue) -> (r: Result<u64, i32>)
    ensures
        match value@ {
            Cbor::Tagged(t, _) => r == Ok::<u64, i32>(t),
            _ => r == Err::<u64, i32>(STATUS_TYPE_MISMATCH),
        },
{
    match value {
        CborValue::Tagged { tag, .. } => Ok(*tag),
        _ => Err(STATUS_TYPE_MISMATCH),
    }
}

/// Read the entry count of an array or map.
pub fn size(value: &CborValue) -> (r: Result<usize, i32>)
    ensures
        match value@ {
            Cbor::Array(items) => r == Ok::<usize, i32>(items.len() as usize),
            Cbor::CborMap(es) => r == Ok::<usize, i32>(es.len() as usize),
            _ => r == Err::<usize, i32>(STATUS_TYPE_MISMATCH),
        },
{
    match value {
        CborValue::Array(items) => {
            proof {
                lemma_model_seq(items@);
            }
            Ok(items.len())
        },
        CborValue::CborMap(entries) => {
            proof {
                lemma_model_entries(entries@);
            }
            Ok(entries.len())
        },
        _ => Err(STATUS_TYPE_MISMATCH),
    }
}

/// Borrow an array element by index.
pub fn array_at<'b, 'a>(value: &'b CborValue<'a>, index: usize) -> (r: Result<&'b CborValue<'a>, i32>)
    ensures
        match value@ {
            Cbor::Array(items) => if index < items.len() {
                r matches Ok(x) && x@ == items[index as int]
            } else {
                r matches Err(e) && e == STATUS_OUT_OF_BOUND
            },
            _ => r matches Err(e) && e == STATUS_TYPE_MISMATCH,
        },
{
    match value {
        CborValue::Array(items) => {
            proof {
                lemma_model_seq(items@);
            }
            if index < items.len() {
                Ok(&items[index])
            } else {
                Err(STATUS_OUT_OF_BOUND)
            }
        },
        _ => Err(STATUS_TYPE_MISMATCH),
    }
}

/// Borrow a map key (`want_key`) or value by entry index.
pub fn map_entry_at<'b, 'a>(value: &'b CborValue<'a>, index: usize, want_key: bool) -> (r: Result<
    &'b CborValue<'a>,
    i32,
>)
    ensures
        match value@ {
            Cbor::CborMap(es) => if index < es.len() {
                r matches Ok(x) && x@ == if want_key {
                    es[index as int].0
                } else {
                    es[index as int].1
                }
            } else {
                r matches Err(e) && e == STATUS_OUT_OF_BOUND
            },
            _ => r matches Err(e) && e == STATUS_TYPE_MISMATCH,
        },
{
    match value {
        CborValue::CborMap(entries) => {
            proof {
                lemma_model_entries(entries@);
            }
            if index < entries.len() {
                if want_key {
                    Ok(&entries[index].0)
                } else {
                    Ok(&entries[index].1)
                }
            } else {
                Err(STATUS_OUT_OF_BOUND)
            }
        },
        _ => Err(STATUS_TYPE_MISMATCH),
    }
}

/// Borrow the payload of a tagged value, checking the tag.
pub fn tag_at<'b, 'a>(value: &'b CborValue<'a>, tag: u64) -> (r: Result<&'b CborValue<'a>, i32>)
    ensures
        match value@ {
            Cbor::Tagged(t, x) => if t == tag {
                r matches Ok(p) && p@ == *x
            } else {
                r matches Err(e) && e == STATUS_KEY_NOT_FOUND
            },
            _ => r matches Err(e) && e == STATUS_TYPE_MISMATCH,
        },
{
    match value {
        CborValue::Tagged { tag: actual, payload } => {
            if *actual == tag {
                Ok(&**payload)
            } else {
                Err(STATUS_KEY_NOT_FOUND)
            }
        },
        _ => Err(STATUS_TYPE_MISMATCH),
    }
}

/// Whether `a` is the usable key `b`.
fn same_key(a: &CborValue, b: &CborValue) -> (r: bool)
    requires
        usable_key(b@),
    ensures
        r == (a@ == b@),
{
    match (a, b) {
        (CborValue::Int(x), CborValue::Int(y)) => *x == *y,
        (CborValue::ByteString(x), CborValue::ByteString(y)) => same_bytes(x.bytes(), y.bytes()),
        (CborValue::TextString(x), CborValue::TextString(y)) => same_bytes(x.bytes(), y.bytes()),
        (CborValue::Simple(x), CborValue::Simple(y)) => *x == *y,
        _ => false,
    }
}

/// Whether some entry of `es` has key `k`.
pub open spec fn has_key(es: Seq<(Cbor, Cbor)>, k: Cbor) -> bool {
    exists|j: int| 0 <= j < es.len() && (#[trigger] es[j]).0 == k
}

/// Whether entry `j` of `es` is the first with key `k`.
pub open spec fn first_with_key(es: Seq<(Cbor, Cbor)>, k: Cbor, j: int) -> bool {
    &&& 0 <= j < es.len()
    &&& es[j].0 == k
    &&& forall|t: int| 0 <= t < j ==> (#[trigger] es[t]).0 != k
}

/// Borrow the value of the first entry whose key is `key`. Containers are
/// not usable as keys and are reported as a type mismatch.
pub fn map_at<'b, 'a>(value: &'b CborValue<'a>, key: &CborValue) -> (r: Result<&'b CborValue<'a>, i32>)
    ensures
        match value@ {
            Cbor::CborMap(es) => if !usable_key(key@) {
                r matches Err(e) && e == STATUS_TYPE_MISMATCH
            } else if has_key(es, key@) {
                r matches Ok(x) && exists|j: int| first_with_key(es, key@, j) && x@ == es[j].1
            } else {
                r matches Err(e) && e == STATUS_KEY_NOT_FOUND
            },
            _ => r matches Err(e) && e == STATUS_TYPE_MISMATCH,
        },
{
    match value {
        CborValue::CborMap(entries) => {
            if !usable_as_key(key) {
                return Err(STATUS_TYPE_MISMATCH);
            }
            let ghost es = model_entries(entries@);
            proof {
                lemma_model_entries(entries@);
            }
            let mut i: usize = 0;
            while i < entries.len()
                invariant
                    i <= entries@.len(),
                    es == model_entries(entries@),
                    value@ == Cbor::CborMap(es),
                    es.len() == entries@.len(),
                    forall|k: int| 0 <= k < entries@.len() ==> #[trigger] es[k] == (model(entries@[k].0), model(entries@[k].1)),
                    usable_key(key@),
                    forall|t: int| 0 <= t < i ==> (#[trigger] es[t]).0 != key@,
                decreases entries@.len() - i,
            {
                if same_key(&entries[i].0, key) {
                    assert(es[i as int].0 == key@);
                    assert(first_with_key(es, key@, i as int));
                    assert(has_key(es, key@));
                    return Ok(&entries[i].1);
                }
                i += 1;
            }
            assert(!has_key(es, key@));
            Err(STATUS_KEY_NOT_FOUND)
        },
        _ => Err(STATUS_TYPE_MISMATCH),
    }
}

} // verus!
