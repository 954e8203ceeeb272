//! Short lists with inline storage: the `smallvec` crate's `SmallVec`.
//!
//! `SmallVec` is generic over an array type through a trait of its own, so
//! each list the library keeps is held in a struct that the verifier does not
//! look into. What such a list holds has a name, and every operation on the
//! `SmallVec` says what it does to that sequence. How many items stand inline
//! before a list moves to the heap is no part of these contracts.

use crate::envelope::{AttrView, RecordView, Redaction, SampleVerdict};
use smallvec::SmallVec;
use std::ops::Range;
use vstd::prelude::*;

verus! {

/// The attributes of one record.
#[verifier::external_body]
#[derive(Debug)]
pub struct AttrList {
    items: SmallVec<[AttrView; 16]>,
}

/// The attributes in a list, in order.
pub uninterp spec fn attrs_of(l: AttrList) -> Seq<AttrView>;

impl View for AttrList {
    type V = Seq<AttrView>;

    open spec fn view(&self) -> Seq<AttrView> {
        attrs_of(*self)
    }
}

impl AttrList {
    /// `SmallVec::new`: a list that holds nothing.
    #[verifier::external_body]
    pub(crate) fn inline() -> (l: Self)
        ensures
            attrs_of(l) == Seq::<AttrView>::empty(),
    {
        Self { items: SmallVec::new() }
    }

    /// `SmallVec::push`: appends one item.
    #[verifier::external_body]
    pub(crate) fn append(&mut self, item: AttrView)
        ensures
            attrs_of(*final(self)) == attrs_of(*old(self)).push(item),
    {
        self.items.push(item)
    }

    /// `SmallVec::as_slice`: the items, in order.
    #[verifier::external_body]
    pub(crate) fn items(&self) -> (r: &[AttrView])
        ensures
            r@ == attrs_of(*self),
    {
        self.items.as_slice()
    }

    /// The empty list.
    pub fn new() -> (l: Self)
        ensures
            l@ == Seq::<AttrView>::empty(),
    {
        Self::inline()
    }

    /// The number of items.
    pub fn len(&self) -> (r: usize)
        ensures
            r == self@.len(),
    {
        self.items().len()
    }

    /// The item at position `i`, where there is one.
    pub fn get(&self, i: usize) -> (r: Option<&AttrView>)
        ensures
            i < self@.len() ==> r == Some(&self@[i as int]),
            i >= self@.len() ==> r is None,
    {
        let items = self.items();
        if i < items.len() {
            Some(&items[i])
        } else {
            None
        }
    }

    /// Adds an item behind the others.
    pub fn push(&mut self, item: AttrView)
        ensures
            final(self)@ == old(self)@.push(item),
    {
        self.append(item)
    }
}

/// The records of one request.
#[verifier::external_body]
#[derive(Debug)]
pub struct RecordList {
    items: SmallVec<[RecordView; 8]>,
}

/// The records in a list, in order.
pub uninterp spec fn records_of(l: RecordList) -> Seq<RecordView>;

impl View for RecordList {
    type V = Seq<RecordView>;

    open spec fn view(&self) -> Seq<RecordView> {
        records_of(*self)
    }
}

impl RecordList {
    /// `SmallVec::new`: a list that holds nothing.
    #[verifier::external_body]
    pub(crate) fn inline() -> (l: Self)
        ensures
            records_of(l) == Seq::<RecordView>::empty(),
    {
        Self { items: SmallVec::new() }
    }

    /// `SmallVec::push`: appends one item.
    #[verifier::external_body]
    pub(crate) fn append(&mut self, item: RecordView)
        ensures
            records_of(*final(self)) == records_of(*old(self)).push(item),
    {
        self.items.push(item)
    }

    /// `SmallVec::as_slice`: the items, in order.
    #[verifier::external_body]
    pub(crate) fn items(&self) -> (r: &[RecordView])
        ensures
            r@ == records_of(*self),
    {
        self.items.as_slice()
    }

    /// The empty list.
    pub fn new() -> (l: Self)
        ensures
            l@ == Seq::<RecordView>::empty(),
    {
        Self::inline()
    }

    /// The number of items.
    pub fn len(&self) -> (r: usize)
        ensures
            r == self@.len(),
    {
        self.items().len()
    }

    /// The item at position `i`, where there is one.
    pub fn get(&self, i: usize) -> (r: Option<&RecordView>)
        ensures
            i < self@.len() ==> r == Some(&self@[i as int]),
            i >= self@.len() ==> r is None,
    {
        let items = self.items();
        if i < items.len() {
            Some(&items[i])
        } else {
            None
        }
    }

    /// Adds an item behind the others.
    pub fn push(&mut self, item: RecordView)
        ensures
            final(self)@ == old(self)@.push(item),
    {
        self.append(item)
    }
}

/// The sampling verdicts of one request.
#[verifier::external_body]
#[derive(Debug)]
pub struct VerdictList {
    items: SmallVec<[SampleVerdict; 8]>,
}

/// The verdicts in a list, in order.
pub uninterp spec fn verdicts_of(l: VerdictList) -> Seq<SampleVerdict>;

impl View for VerdictList {
    type V = Seq<SampleVerdict>;

    open spec fn view(&self) -> Seq<SampleVerdict> {
        verdicts_of(*self)
    }
}

impl VerdictList {
    /// `SmallVec::new`: a list that holds nothing.
    #[verifier::external_body]
    pub(crate) fn inline() -> (l: Self)
        ensures
            verdicts_of(l) == Seq::<SampleVerdict>::empty(),
    {
        Self { items: SmallVec::new() }
    }

    /// `SmallVec::push`: appends one item.
    #[verifier::external_body]
    pub(crate) fn append(&mut self, item: SampleVerdict)
        ensures
            verdicts_of(*final(self)) == verdicts_of(*old(self)).push(item),
    {
        self.items.push(item)
    }

    /// `SmallVec::as_slice`: the items, in order.
    #[verifier::external_body]
    pub(crate) fn items(&self) -> (r: &[SampleVerdict])
        ensures
            r@ == verdicts_of(*self),
    {
        self.items.as_slice()
    }

    /// `SmallVec::clear`: drops every item.
    #[verifier::external_body]
    pub(crate) fn clear(&mut self)
        ensures
            verdicts_of(*final(self)) == Seq::<SampleVerdict>::empty(),
    {
        self.items.clear()
    }
}

/// Message windows set aside during a walk.
#[verifier::external_body]
#[derive(Debug)]
pub struct WindowList {
    items: SmallVec<[Range<usize>; 4]>,
}

/// The windows in a list, in order.
pub uninterp spec fn windows_of(l: WindowList) -> Seq<Range<usize>>;

impl View for WindowList {
    type V = Seq<Range<usize>>;

    open spec fn view(&self) -> Seq<Range<usize>> {
        windows_of(*self)
    }
}

impl WindowList {
    /// `SmallVec::new`: a list that holds nothing.
    #[verifier::external_body]
    pub(crate) fn inline() -> (l: Self)
        ensures
            windows_of(l) == Seq::<Range<usize>>::empty(),
    {
        Self { items: SmallVec::new() }
    }

    /// `SmallVec::push`: appends one item.
    #[verifier::external_body]
    pub(crate) fn append(&mut self, item: Range<usize>)
        ensures
            windows_of(*final(self)) == windows_of(*old(self)).push(item),
    {
        self.items.push(item)
    }

    /// `SmallVec::as_slice`: the items, in order.
    #[verifier::external_body]
    pub(crate) fn items(&self) -> (r: &[Range<usize>])
        ensures
            r@ == windows_of(*self),
    {
        self.items.as_slice()
    }
}

/// Replacement spans that touch one string.
#[verifier::external_body]
#[derive(Debug)]
pub struct SpanList {
    items: SmallVec<[Redaction; 4]>,
}

/// The spans in a list, in order.
pub uninterp spec fn spans_of(l: SpanList) -> Seq<Redaction>;

impl View for SpanList {
    type V = Seq<Redaction>;

    open spec fn view(&self) -> Seq<Redaction> {
        spans_of(*self)
    }
}

impl SpanList {
    /// `SmallVec::new`: a list that holds nothing.
    #[verifier::external_body]
    pub(crate) fn inline() -> (l: Self)
        ensures
            spans_of(l) == Seq::<Redaction>::empty(),
    {
        Self { items: SmallVec::new() }
    }

    /// `SmallVec::push`: appends one item.
    #[verifier::external_body]
    pub(crate) fn append(&mut self, item: Redaction)
        ensures
            spans_of(*final(self)) == spans_of(*old(self)).push(item),
    {
        self.items.push(item)
    }

    /// `SmallVec::as_slice`: the items, in order.
    #[verifier::external_body]
    pub(crate) fn items(&self) -> (r: &[Redaction])
        ensures
            r@ == spans_of(*self),
    {
        self.items.as_slice()
    }

    /// `<[T]>::sort_by_key` of std, a stable sort: by start, then by end,
    /// equal spans in their given order.
    #[verifier::external_body]
    pub(crate) fn sort(&mut self)
        ensures
            spans_of(*final(self)) == crate::export::ordered(spans_of(*old(self))),
    {
        self.items.sort_by_key(|r| (r.target.start, r.target.end))
    }
}

} // verus!
