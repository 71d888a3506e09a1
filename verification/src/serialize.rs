//! Serialization of CBOR items.

use vstd::prelude::*;
use crate::error::CborError;
use crate::format::{
    concat_entries, has_adjacent_duplicate, head, insert_entry, lemma_insert_entry,
    lemma_ser_entries_err, lemma_ser_items_err, lex_lt, ser_entries, ser_item, ser_items,
    simple_bytes, sort_entries, EncodedEntry, Mode, MAJOR_ARRAY, MAJOR_BYTES, MAJOR_MAP,
    MAJOR_NEGATIVE, MAJOR_TAG, MAJOR_TEXT, MAJOR_UNSIGNED,
};
use crate::text::is_utf8;
use crate::value::{Cbor, lemma_model_entries, lemma_model_seq, model, model_entries, model_seq, CborValue};

verus! {

/// Append `src` to `out`.
pub(crate) fn push_all(out: &mut Vec<u8>, src: &[u8])
    ensures
        final(out)@ == old(out)@ + src@,
{
    let mut i: usize = 0;
    while i < src.len()
        invariant
            i <= src@.len(),
            out@ == old(out)@ + src@.take(i as int),
        decreases src@.len() - i,
    {
        out.push(src[i]);
        i += 1;
        assert(src@.take(i as int) =~= src@.take(i - 1).push(src@[i - 1]));
    }
    assert(src@.take(i as int) =~= src@);
}

/// Append the shortest head for `major` and `n`.
pub(crate) fn write_head(out: &mut Vec<u8>, major: u8, n: u64)
    requires
        major <= 7,
    ensures
        final(out)@ == old(out)@ + head(major, n),
{
    let ib: u8 = major * 32;
    if n < 24 {
        out.push(ib + n as u8);
    } else if n < 0x100 {
        out.push(ib + 24);
        out.push(n as u8);
    } else if n < 0x10000 {
        out.push(ib + 25);
        out.push((n >> 8u64) as u8);
        out.push(n as u8);
    } else if n < 0x1_0000_0000 {
        out.push(ib + 26);
        out.push((n >> 24u64) as u8);
        out.push((n >> 16u64) as u8);
        out.push((n >> 8u64) as u8);
        out.push(n as u8);
    } else {
        out.push(ib + 27);
        out.push((n >> 56u64) as u8);
        out.push((n >> 48u64) as u8);
        out.push((n >> 40u64) as u8);
        out.push((n >> 32u64) as u8);
        out.push((n >> 24u64) as u8);
        out.push((n >> 16u64) as u8);
        out.push((n >> 8u64) as u8);
        out.push(n as u8);
    }
    assert(final(out)@ =~= old(out)@ + head(major, n));
}

/// Whether `a` sorts before `b` bytewise.
pub fn lex_less(a: &[u8], b: &[u8]) -> (r: bool)
    ensures
        r == lex_lt(a@, b@),
{
    let mut i: usize = 0;
    assert(a@.skip(0) =~= a@);
    assert(b@.skip(0) =~= b@);
    while i < a.len() && i < b.len()
        invariant
            i <= a@.len(),
            i <= b@.len(),
            lex_lt(a@, b@) == lex_lt(a@.skip(i as int), b@.skip(i as int)),
        decreases a@.len() - i,
    {
        if a[i] != b[i] {
            return a[i] < b[i];
        }
        assert(a@.skip(i as int).drop_first() =~= a@.skip(i + 1));
        assert(b@.skip(i as int).drop_first() =~= b@.skip(i + 1));
        i += 1;
    }
    i < b.len()
}

/// Whether two byte strings are equal.
pub fn same_bytes(a: &[u8], b: &[u8]) -> (r: bool)
    ensures
        r == (a@ == b@),
{
    if a.len() != b.len() {
        return false;
    }
    let mut i: usize = 0;
    while i < a.len()
        invariant
            i <= a@.len(),
            a@.len() == b@.len(),
            forall|k: int| 0 <= k < i ==> a@[k] == b@[k],
        decreases a@.len() - i,
    {
        if a[i] != b[i] {
            return false;
        }
        i += 1;
    }
    assert(a@ =~= b@);
    true
}

/// The view of encoded entries.
pub open spec fn entries_view(s: Seq<(Vec<u8>, Vec<u8>)>) -> Seq<EncodedEntry> {
    s.map_values(|e: (Vec<u8>, Vec<u8>)| (e.0@, e.1@))
}

/// Insert an encoded entry where the stable insertion sort puts it.
fn insert_sorted(sorted: &mut Vec<(Vec<u8>, Vec<u8>)>, e: (Vec<u8>, Vec<u8>))
    ensures
        entries_view(final(sorted)@) == insert_entry(entries_view(old(sorted)@), (e.0@, e.1@)),
{
    let ghost s = entries_view(sorted@);
    let mut j: usize = 0;
    while j < sorted.len() && !lex_less(e.0.as_slice(), sorted[j].0.as_slice())
        invariant
            j <= sorted@.len(),
            sorted@ == old(sorted)@,
            s == entries_view(sorted@),
            forall|k: int| 0 <= k < j ==> !lex_lt(e.0@, #[trigger] s[k].0),
        decreases sorted@.len() - j,
    {
        j += 1;
    }
    proof {
        lemma_insert_entry(s, (e.0@, e.1@), j as int);
    }
    sorted.insert(j, e);
    assert(entries_view(sorted@) =~= s.insert(j as int, (e.0@, e.1@)));
}

/// Whether two neighbouring entries share a key.
fn adjacent_duplicate(sorted: &Vec<(Vec<u8>, Vec<u8>)>) -> (r: bool)
    ensures
        r == has_adjacent_duplicate(entries_view(sorted@)),
{
    let ghost s = entries_view(sorted@);
    let mut i: usize = 0;
    while sorted.len() > 0 && i < sorted.len() - 1
        invariant
            s == entries_view(sorted@),
            forall|k: int| 0 <= k < i && k < s.len() - 1 ==> s[k].0 != #[trigger] s[k + 1].0,
        decreases sorted@.len() - i,
    {
        if same_bytes(sorted[i].0.as_slice(), sorted[i + 1].0.as_slice()) {
            assert(s[i as int].0 == s[i + 1].0);
            return true;
        }
        i += 1;
    }
    false
}

/// Append the keys and values of `sorted`, in order.
fn write_entries(out: &mut Vec<u8>, sorted: &Vec<(Vec<u8>, Vec<u8>)>)
    ensures
        final(out)@ == old(out)@ + concat_entries(entries_view(sorted@)),
{
    let ghost s = entries_view(sorted@);
    let mut i: usize = 0;
    while i < sorted.len()
        invariant
            i <= sorted@.len(),
            s == entries_view(sorted@),
            out@ == old(out)@ + concat_entries(s.take(i as int)),
        decreases sorted@.len() - i,
    {
        push_all(out, sorted[i].0.as_slice());
        push_all(out, sorted[i].1.as_slice());
        i += 1;
        assert(s.take(i as int).drop_last() =~= s.take(i - 1));
    }
    assert(s.take(i as int) =~= s);
}

/// Append the serialization of `v` to `out`.
pub(crate) fn ser_into(v: &CborValue, mode: Mode, budget: usize, limit: usize, out: &mut Vec<u8>) -> (r:
    Result<(), CborError>)
    ensures
        match ser_item(v@, mode, budget as nat, limit) {
            Ok(s) => r is Ok && final(out)@ == old(out)@ + s,
            Err(e) => r == Err::<(), CborError>(e),
        },
    decreases budget,
{
    match v {
        CborValue::Int(i) => {
            assert(v@ == Cbor::Int(*i));
            if *i >= 0 {
                write_head(out, MAJOR_UNSIGNED, *i as u64);
            } else {
                let n: i64 = -1 - *i;
                assert(n as u64 == (-1 - *i) as u64);
                write_head(out, MAJOR_NEGATIVE, n as u64);
            }
            Ok(())
        },
        CborValue::ByteString(p) => {
            let p = p.bytes();
            write_head(out, MAJOR_BYTES, p.len() as u64);
            push_all(out, p);
            assert(ser_item(v@, mode, budget as nat, limit) matches Ok(s) && out@ == old(out)@ + s);
            Ok(())
        },
        CborValue::TextString(p) => {
            let p = p.bytes();
            if !is_utf8(p) {
                return Err(CborError::InvalidUtf8);
            }
            write_head(out, MAJOR_TEXT, p.len() as u64);
            push_all(out, p);
            assert(ser_item(v@, mode, budget as nat, limit) matches Ok(s) && out@ == old(out)@ + s);
            Ok(())
        },
        CborValue::Simple(s) => {
            if 24 <= *s && *s <= 31 {
                return Err(CborError::ReservedSimple);
            }
            if *s < 24 {
                out.push(0xe0 + *s);
            } else {
                out.push(0xf8);
                out.push(*s);
            }
            assert(final(out)@ =~= old(out)@ + simple_bytes(*s));
            Ok(())
        },
        CborValue::Array(items) => {
            if budget == 0 {
                return Err(CborError::DepthExceeded { limit });
            }
            let ghost ms = model_seq(items@);
            proof {
                lemma_model_seq(items@);
            }
            write_head(out, MAJOR_ARRAY, items.len() as u64);
            let ghost start = out@;
            let mut i: usize = 0;
            while i < items.len()
                invariant
                    i <= items@.len(),
                    ms == model_seq(items@),
                    v@ == Cbor::Array(ms),
                    ms.len() == items@.len(),
                    forall|k: int| 0 <= k < items@.len() ==> #[trigger] ms[k] == model(items@[k]),
                    0 < budget,
                    ser_items(ms.take(i as int), mode, (budget - 1) as nat, limit) matches Ok(s)
                        && out@ == start + s,
                decreases items@.len() - i,
            {
                let ghost before = out@;
                let r = ser_into(&items[i], mode, budget - 1, limit, out);
                assert(ms.take(i + 1).drop_last() =~= ms.take(i as int));
                match r {
                    Ok(()) => {},
                    Err(e) => {
                        proof {
                            assert(ms.take(i + 1).last() == ms[i as int]);
                            assert(ser_items(ms.take(i + 1), mode, (budget - 1) as nat, limit)
                                == Err::<Seq<u8>, CborError>(e));
                            lemma_ser_items_err(ms, i + 1, mode, (budget - 1) as nat, limit);
                        }
                        return Err(e);
                    },
                }
                i += 1;
            }
            assert(ms.take(i as int) =~= ms);
            Ok(())
        },
        CborValue::CborMap(entries) => {
            if budget == 0 {
                return Err(CborError::DepthExceeded { limit });
            }
            let ghost es = model_entries(entries@);
            proof {
                lemma_model_entries(entries@);
            }
            let ghost prefix = old(out)@;
            let mut sorted: Vec<(Vec<u8>, Vec<u8>)> = Vec::new();
            let mut written: Vec<u8> = Vec::new();
            write_head(&mut written, MAJOR_MAP, entries.len() as u64);
            let ghost start = written@;
            let mut i: usize = 0;
            while i < entries.len()
                invariant
                    i <= entries@.len(),
                    es == model_entries(entries@),
                    v@ == Cbor::CborMap(es),
                    es.len() == entries@.len(),
                    forall|k: int|
                        0 <= k < entries@.len() ==> #[trigger] es[k] == (
                        model(entries@[k].0),
                        model(entries@[k].1),
                    ),
                    0 < budget,
                    ser_entries(es.take(i as int), mode, (budget - 1) as nat, limit) matches Ok(
                        encoded,
                    ) && (mode == Mode::Nondet ==> written@ == start + concat_entries(encoded)) && (
                    mode == Mode::Det ==> entries_view(sorted@) == sort_entries(encoded)),
                    mode == Mode::Det ==> written@ == start,
                decreases entries@.len() - i,
            {
                let mut key: Vec<u8> = Vec::new();
                let mut val: Vec<u8> = Vec::new();
                let rk = ser_into(&entries[i].0, mode, budget - 1, limit, &mut key);
                assert(es.take(i + 1).drop_last() =~= es.take(i as int));
                match rk {
                    Ok(()) => {},
                    Err(e) => {
                        proof {
                            assert(es.take(i + 1).last() == es[i as int]);
                            assert(ser_entries(es.take(i + 1), mode, (budget - 1) as nat, limit)
                                == Err::<Seq<EncodedEntry>, CborError>(e));
                            lemma_ser_entries_err(es, i + 1, mode, (budget - 1) as nat, limit);
                        }
                        return Err(e);
                    },
                }
                let rv = ser_into(&entries[i].1, mode, budget - 1, limit, &mut val);
                match rv {
                    Ok(()) => {},
                    Err(e) => {
                        proof {
                            assert(es.take(i + 1).last() == es[i as int]);
                            assert(ser_entries(es.take(i + 1), mode, (budget - 1) as nat, limit)
                                == Err::<Seq<EncodedEntry>, CborError>(e));
                            lemma_ser_entries_err(es, i + 1, mode, (budget - 1) as nat, limit);
                        }
                        return Err(e);
                    },
                }
                let ghost e = (key@, val@);
                let ghost prev = ser_entries(es.take(i as int), mode, (budget - 1) as nat, limit)->Ok_0;
                proof {
                    assert(es.take(i + 1).last() == es[i as int]);
                    assert(ser_entries(es.take(i + 1), mode, (budget - 1) as nat, limit)
                        == Ok::<Seq<EncodedEntry>, CborError>(prev.push(e)));
                    assert(prev.push(e).drop_last() =~= prev);
                }
                if mode == Mode::Nondet {
                    push_all(&mut written, key.as_slice());
                    push_all(&mut written, val.as_slice());
                    assert(written@ =~= start + concat_entries(prev.push(e)));
                } else {
                    insert_sorted(&mut sorted, (key, val));
                }
                i += 1;
            }
            assert(es.take(i as int) =~= es);
            let ghost enc = ser_entries(es, mode, (budget - 1) as nat, limit)->Ok_0;
            assert(ser_entries(es, mode, (budget - 1) as nat, limit) is Ok);
            assert(mode == Mode::Nondet ==> written@ == start + concat_entries(enc));
            assert(mode == Mode::Det ==> entries_view(sorted@) == sort_entries(enc));
            if mode == Mode::Det {
                if adjacent_duplicate(&sorted) {
                    return Err(CborError::DuplicateMapKey);
                }
                write_entries(&mut written, &sorted);
            }
            let ghost hd = head(MAJOR_MAP, es.len() as u64);
            assert(start == hd);
            if mode == Mode::Det {
                assert(!has_adjacent_duplicate(sort_entries(enc)));
                assert(written@ == hd + concat_entries(sort_entries(enc)));
                assert(ser_item(v@, mode, budget as nat, limit) == Ok::<Seq<u8>, CborError>(hd + concat_entries(sort_entries(enc))));
            } else {
                assert(ser_item(v@, mode, budget as nat, limit) == Ok::<Seq<u8>, CborError>(hd + concat_entries(enc)));
            }
            out.append(&mut written);
            Ok(())
        },
        CborValue::Tagged { tag, payload } => {
            if budget == 0 {
                return Err(CborError::DepthExceeded { limit });
            }
            write_head(out, MAJOR_TAG, *tag);
            ser_into(payload, mode, budget - 1, limit, out)
        },
    }
}

} // verus!
