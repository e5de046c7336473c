//! Iteration over the archived pairs in insertion order. Each step reads one pair in
//! place; iterators over one archive do not affect each other.

use crate::entry::{entry_key, entry_value, entry_wf, Entry, ENTRY_SIZE};
use crate::model::{keys_of, pair_view, values_of};
use vstd::prelude::*;

verus! {

/// Where the pair at place `index` of an array of pairs that starts at `entries` is
/// stored.
pub open spec fn entry_pos(entries: int, index: int) -> int {
    entries + ENTRY_SIZE * index
}

/// The key of the pair at place `index`.
pub open spec fn nth_key(buf: Seq<u8>, entries: int, index: int) -> Seq<u8> {
    entry_key(buf, entry_pos(entries, index))
}

/// The value of the pair at place `index`.
pub open spec fn nth_value(buf: Seq<u8>, entries: int, index: int) -> i32 {
    entry_value(buf, entry_pos(entries, index))
}

/// An array of `len` pairs starts at `entries`, and each pair with its key lies inside
/// the buffer.
pub open spec fn entries_wf(buf: Seq<u8>, entries: int, len: int) -> bool {
    &&& 0 <= entries
    &&& 0 <= len
    &&& entries + ENTRY_SIZE * len <= buf.len()
    &&& forall|i: int| 0 <= i < len ==> entry_wf(buf, #[trigger] entry_pos(entries, i))
}

/// The `len` pairs archived from `entries` on, in order.
pub open spec fn entries_at(buf: Seq<u8>, entries: int, len: int) -> Seq<(Seq<u8>, i32)> {
    Seq::new(len as nat, |i: int| (nth_key(buf, entries, i), nth_value(buf, entries, i)))
}

/// An array of pairs without its first pair is the array that starts one pair later.
pub proof fn lemma_entries_advance(buf: Seq<u8>, entries: int, len: int)
    requires
        entries_wf(buf, entries, len),
        len > 0,
    ensures
        entries_wf(buf, entries + ENTRY_SIZE, len - 1),
        entries_at(buf, entries + ENTRY_SIZE, len - 1) == entries_at(buf, entries, len).drop_first(),
{
    assert forall|i: int| 0 <= i < len - 1 implies entry_wf(
        buf,
        #[trigger] entry_pos(entries + ENTRY_SIZE, i),
    ) by {
        assert(entry_pos(entries + ENTRY_SIZE, i) == entry_pos(entries, i + 1));
    }
    assert forall|i: int| 0 <= i < len - 1 implies entries_at(buf, entries + ENTRY_SIZE, len - 1)[i]
        == entries_at(buf, entries, len).drop_first()[i] by {
        assert(entry_pos(entries + ENTRY_SIZE, i) == entry_pos(entries, i + 1));
    }
    assert(entries_at(buf, entries + ENTRY_SIZE, len - 1) =~= entries_at(
        buf,
        entries,
        len,
    ).drop_first());
}

/// The cursor behind the three iterators: the position of the next pair and the
/// number of pairs that are left.
pub struct RawIter<'a> {
    buf: &'a [u8],
    current: usize,
    remaining: usize,
}

impl<'a> View for RawIter<'a> {
    type V = Seq<(Seq<u8>, i32)>;

    /// The pairs that are left, in order.
    closed spec fn view(&self) -> Seq<(Seq<u8>, i32)> {
        entries_at(self.buf@, self.current as int, self.remaining as int)
    }
}

impl<'a> RawIter<'a> {
    #[verifier::type_invariant]
    spec fn well_formed(self) -> bool {
        entries_wf(self.buf@, self.current as int, self.remaining as int)
    }

    /// A cursor over the `len` pairs archived from `pairs` on.
    pub fn new(buf: &'a [u8], pairs: usize, len: usize) -> (iter: Self)
        requires
            entries_wf(buf@, pairs as int, len as int),
        ensures
            iter@ == entries_at(buf@, pairs as int, len as int),
    {
        RawIter { buf, current: pairs, remaining: len }
    }

    /// The next pair, if one is left.
    pub fn next(&mut self) -> (item: Option<(&'a [u8], i32)>)
        ensures
            old(self)@.len() == 0 ==> item is None && final(self)@ == old(self)@,
            old(self)@.len() > 0 ==> pair_view(item) == Some(old(self)@[0]) && final(self)@ == old(
                self,
            )@.drop_first(),
    {
        proof {
            use_type_invariant(&*self);
        }
        if self.remaining == 0 {
            None
        } else {
            proof {
                assert(self.buf@.len() == self.buf.len());
                lemma_entries_advance(self.buf@, self.current as int, self.remaining as int);
                assert(entry_pos(self.current as int, 0) == self.current);
            }
            let entry = Entry::read(self.buf, self.current);
            *self = RawIter {
                buf: self.buf,
                current: self.current + ENTRY_SIZE,
                remaining: self.remaining - 1,
            };
            Some((entry.key, entry.value))
        }
    }

    /// The number of pairs that are left, as a lower and an upper bound.
    pub fn size_hint(&self) -> (bounds: (usize, Option<usize>))
        ensures
            bounds.0 == self@.len(),
            bounds.1 == Some(bounds.0),
    {
        (self.remaining, Some(self.remaining))
    }
}

/// An iterator over the key-value pairs of an archived map, in insertion order.
pub struct Iter<'a> {
    inner: RawIter<'a>,
}

impl<'a> View for Iter<'a> {
    type V = Seq<(Seq<u8>, i32)>;

    /// The pairs that are left, in order.
    closed spec fn view(&self) -> Seq<(Seq<u8>, i32)> {
        self.inner@
    }
}

impl<'a> Iter<'a> {
    /// An iterator that goes through what `inner` has left.
    pub fn new(inner: RawIter<'a>) -> (iter: Self)
        ensures
            iter@ == inner@,
    {
        Iter { inner }
    }

    /// The next pair, if one is left.
    pub fn next(&mut self) -> (item: Option<(&'a [u8], i32)>)
        ensures
            old(self)@.len() == 0 ==> item is None && final(self)@ == old(self)@,
            old(self)@.len() > 0 ==> pair_view(item) == Some(old(self)@[0]) && final(self)@ == old(
                self,
            )@.drop_first(),
    {
        self.inner.next()
    }

    /// The number of pairs that are left, as a lower and an upper bound.
    pub fn size_hint(&self) -> (bounds: (usize, Option<usize>))
        ensures
            bounds.0 == self@.len(),
            bounds.1 == Some(bounds.0),
    {
        self.inner.size_hint()
    }
}

/// An iterator over the keys of an archived map, in insertion order.
pub struct Keys<'a> {
    inner: RawIter<'a>,
}

impl<'a> View for Keys<'a> {
    type V = Seq<Seq<u8>>;

    /// The keys that are left, in order.
    closed spec fn view(&self) -> Seq<Seq<u8>> {
        keys_of(self.inner@)
    }
}

impl<'a> Keys<'a> {
    /// An iterator that goes through the keys of what `inner` has left.
    pub fn new(inner: RawIter<'a>) -> (iter: Self)
        ensures
            iter@ == keys_of(inner@),
    {
        Keys { inner }
    }

    /// The next key, if one is left.
    pub fn next(&mut self) -> (item: Option<&'a [u8]>)
        ensures
            old(self)@.len() == 0 ==> item is None && final(self)@ == old(self)@,
            old(self)@.len() > 0 ==> item is Some && item->0@ == old(self)@[0] && final(self)@
                == old(self)@.drop_first(),
    {
        let ghost before = self.inner@;
        match self.inner.next() {
            Some((key, _)) => {
                assert(keys_of(before.drop_first()) =~= keys_of(before).drop_first());
                Some(key)
            },
            None => None,
        }
    }

    /// The number of keys that are left, as a lower and an upper bound.
    pub fn size_hint(&self) -> (bounds: (usize, Option<usize>))
        ensures
            bounds.0 == self@.len(),
            bounds.1 == Some(bounds.0),
    {
        self.inner.size_hint()
    }
}

/// An iterator over the values of an archived map, in insertion order.
pub struct Values<'a> {
    inner: RawIter<'a>,
}

impl<'a> View for Values<'a> {
    type V = Seq<i32>;

    /// The values that are left, in order.
    closed spec fn view(&self) -> Seq<i32> {
        values_of(self.inner@)
    }
}

impl<'a> Values<'a> {
    /// An iterator that goes through the values of what `inner` has left.
    pub fn new(inner: RawIter<'a>) -> (iter: Self)
        ensures
            iter@ == values_of(inner@),
    {
        Values { inner }
    }

    /// The next value, if one is left.
    pub fn next(&mut self) -> (item: Option<i32>)
        ensures
            old(self)@.len() == 0 ==> item is None && final(self)@ == old(self)@,
            old(self)@.len() > 0 ==> item == Some(old(self)@[0]) && final(self)@ == old(
                self,
            )@.drop_first(),
    {
        let ghost before = self.inner@;
        match self.inner.next() {
            Some((_, value)) => {
                assert(values_of(before.drop_first()) =~= values_of(before).drop_first());
                Some(value)
            },
            None => None,
        }
    }

    /// The number of values that are left, as a lower and an upper bound.
    pub fn size_hint(&self) -> (bounds: (usize, Option<usize>))
        ensures
            bounds.0 == self@.len(),
            bounds.1 == Some(bounds.0),
    {
        self.inner.size_hint()
    }
}

} // verus!
