//! The CBOR data model.

use vstd::prelude::*;
use vstd::std_specs::cmp::PartialEqSpecImpl;
use crate::serialize::same_bytes;

verus! {

/// The mathematical model of a CBOR item.
pub enum Cbor {
    Int(i64),
    Bytes(Seq<u8>),
    Text(Seq<u8>),
    Array(Seq<Cbor>),
    CborMap(Seq<(Cbor, Cbor)>),
    Tagged(u64, Box<Cbor>),
    Simple(u8),
}

/// The bytes of a byte or text string: either a view of memory the item
/// borrows, or bytes it owns.
#[derive(Debug)]
pub enum Payload<'a> {
    Borrowed(&'a [u8]),
    Owned(Vec<u8>),
}

impl<'a> View for Payload<'a> {
    type V = Seq<u8>;

    open spec fn view(&self) -> Seq<u8> {
        match self {
            Payload::Borrowed(s) => s@,
            Payload::Owned(v) => v@,
        }
    }
}

impl<'a> Payload<'a> {
    /// The payload's bytes, wherever they live.
    pub fn bytes(&self) -> (r: &[u8])
        ensures
            r@ == self@,
    {
        match self {
            Payload::Borrowed(s) => s,
            Payload::Owned(v) => v.as_slice(),
        }
    }
}

impl<'a> PartialEq for Payload<'a> {
    fn eq(&self, other: &Self) -> (r: bool) {
        same_bytes(self.bytes(), other.bytes())
    }
}

impl<'a> PartialEqSpecImpl for Payload<'a> {
    open spec fn obeys_eq_spec() -> bool {
        true
    }

    open spec fn eq_spec(&self, other: &Self) -> bool {
        self@ == other@
    }
}

impl<'a> Eq for Payload<'a> {
}

/// A CBOR item. Its byte and text payloads may borrow memory that lives
/// for `'a`.
#[derive(Debug, PartialEq, Eq)]
pub enum CborValue<'a> {
    Int(i64),
    ByteString(Payload<'a>),
    TextString(Payload<'a>),
    Array(Vec<CborValue<'a>>),
    CborMap(Vec<(CborValue<'a>, CborValue<'a>)>),
    Tagged { tag: u64, payload: Box<CborValue<'a>> },
    Simple(u8),
}

pub open spec fn model_seq<'a>(s: Seq<CborValue<'a>>) -> Seq<Cbor>
    decreases s,
{
    if s.len() == 0 {
        Seq::empty()
    } else {
        model_seq(s.drop_last()).push(model(s.last()))
    }
}

pub open spec fn model_entries<'a>(s: Seq<(CborValue<'a>, CborValue<'a>)>) -> Seq<(Cbor, Cbor)>
    decreases s,
{
    if s.len() == 0 {
        Seq::empty()
    } else {
        model_entries(s.drop_last()).push((model(s.last().0), model(s.last().1)))
    }
}

pub open spec fn model<'a>(v: CborValue<'a>) -> Cbor
    decreases v,
{
    match v {
        CborValue::Int(i) => Cbor::Int(i),
        CborValue::ByteString(b) => Cbor::Bytes(b@),
        CborValue::TextString(t) => Cbor::Text(t@),
        CborValue::Array(items) => Cbor::Array(model_seq(items@)),
        CborValue::CborMap(entries) => Cbor::CborMap(model_entries(entries@)),
        CborValue::Tagged { tag, payload } => Cbor::Tagged(tag, Box::new(model(*payload))),
        CborValue::Simple(s) => Cbor::Simple(s),
    }
}

/// Whether every byte and text payload in `v` is borrowed (`borrowed`) or
/// every one is owned (`!borrowed`).
pub open spec fn payloads_all<'a>(v: CborValue<'a>, borrowed: bool) -> bool
    decreases v,
{
    match v {
        CborValue::ByteString(p) => (p is Borrowed) == borrowed,
        CborValue::TextString(p) => (p is Borrowed) == borrowed,
        CborValue::Array(items) => forall|i: int|
            0 <= i < items@.len() ==> payloads_all(#[trigger] items@[i], borrowed),
        CborValue::CborMap(es) => forall|i: int|
            0 <= i < es@.len() ==> payloads_all((#[trigger] es@[i]).0, borrowed) && payloads_all(
                es@[i].1,
                borrowed,
            ),
        CborValue::Tagged { payload, .. } => payloads_all(*payload, borrowed),
        _ => true,
    }
}

/// Whether `w` keeps each payload of `v` where `v` keeps it: borrowed where
/// `v` borrows, owned where `v` owns.
pub open spec fn same_storage<'a, 'b>(v: CborValue<'a>, w: CborValue<'b>) -> bool
    decreases v,
{
    match v {
        CborValue::ByteString(p) => w matches CborValue::ByteString(q) && (p is Borrowed) == (q is Borrowed),
        CborValue::TextString(p) => w matches CborValue::TextString(q) && (p is Borrowed) == (q is Borrowed),
        CborValue::Array(items) => w matches CborValue::Array(ys) && ys@.len() == items@.len() && forall|i: int|
            0 <= i < items@.len() ==> same_storage(#[trigger] items@[i], ys@[i]),
        CborValue::CborMap(es) => w matches CborValue::CborMap(fs) && fs@.len() == es@.len() && forall|i: int|
            0 <= i < es@.len() ==> same_storage((#[trigger] es@[i]).0, fs@[i].0) && same_storage(
                es@[i].1,
                fs@[i].1,
            ),
        CborValue::Tagged { payload, .. } => w matches CborValue::Tagged { payload: y, .. }
            && same_storage(*payload, *y),
        _ => true,
    }
}

impl<'a> View for CborValue<'a> {
    type V = Cbor;

    open spec fn view(&self) -> Cbor {
        model(*self)
    }
}

} // verus!

verus! {

/// The model of a sequence has the same length, and its elements are the
/// models of the elements.
pub proof fn lemma_model_seq<'a>(s: Seq<CborValue<'a>>)
    ensures
        model_seq(s).len() == s.len(),
        forall|i: int| 0 <= i < s.len() ==> #[trigger] model_seq(s)[i] == model(s[i]),
    decreases s.len(),
{
    if s.len() > 0 {
        lemma_model_seq(s.drop_last());
    }
}

/// The model of a sequence of entries has the same length, and its entries
/// are the models of the entries.
pub proof fn lemma_model_entries<'a>(s: Seq<(CborValue<'a>, CborValue<'a>)>)
    ensures
        model_entries(s).len() == s.len(),
        forall|i: int|
            0 <= i < s.len() ==> #[trigger] model_entries(s)[i] == (model(s[i].0), model(s[i].1)),
    decreases s.len(),
{
    if s.len() > 0 {
        lemma_model_entries(s.drop_last());
    }
}

} // verus!

verus! {

/// Whether `v` nests containers at most `budget` deep: a scalar has depth
/// zero, a container one more than its deepest child.
pub open spec fn within_depth(v: Cbor, budget: nat) -> bool
    decreases v,
{
    match v {
        Cbor::Array(items) => budget > 0 && forall|i: int|
            0 <= i < items.len() ==> within_depth(#[trigger] items[i], (budget - 1) as nat),
        Cbor::CborMap(es) => budget > 0 && forall|i: int|
            0 <= i < es.len() ==> within_depth((#[trigger] es[i]).0, (budget - 1) as nat)
                && within_depth(es[i].1, (budget - 1) as nat),
        Cbor::Tagged(_, x) => budget > 0 && within_depth(*x, (budget - 1) as nat),
        _ => true,
    }
}

} // verus!
