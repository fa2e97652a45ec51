//! The double-ended queue: an adapter over the array engine.
//!
//! The back of the queue is the end of the array, so pushing and popping
//! there is what the array does. The front is position 0: a push there
//! shifts every element up, a pop shifts them down.

use crate::sequences::vec::{doubled, CroVec};
use vstd::prelude::*;

verus! {

/// A double-ended queue of `T`. It stands for the sequence of its elements
/// from the front to the back.
pub struct CroQue<T> {
    buffer: CroVec<T>,
}

impl<T> View for CroQue<T> {
    type V = Seq<T>;

    closed spec fn view(&self) -> Seq<T> {
        self.buffer@
    }
}

impl<T> CroQue<T> {
    /// The capacity of the array behind the queue.
    pub closed spec fn spec_cap(&self) -> usize {
        self.buffer.spec_cap()
    }

    /// The invariant of the queue: the elements fit in the capacity.
    pub open spec fn wf(&self) -> bool {
        self@.len() <= self.spec_cap()
    }

    /// An empty queue without a buffer.
    pub fn new() -> (q: Self)
        ensures
            q.wf(),
            q@ == Seq::<T>::empty(),
            q.spec_cap() == 0,
    {
        CroQue { buffer: CroVec::new() }
    }

    /// An empty queue with room for exactly `cap` elements.
    pub fn with_cap(cap: usize) -> (q: Self)
        ensures
            q.wf(),
            q@ == Seq::<T>::empty(),
            q.spec_cap() == cap,
    {
        CroQue { buffer: CroVec::with_cap(cap) }
    }

    /// The number of elements.
    pub fn size(&self) -> (n: usize)
        ensures
            n == self@.len(),
    {
        self.buffer.size()
    }

    /// Whether the queue holds no element.
    pub fn is_empty(&self) -> (b: bool)
        ensures
            b == (self@.len() == 0),
    {
        self.buffer.is_empty()
    }

    /// The current capacity.
    pub fn cap(&self) -> (n: usize)
        ensures
            n == self.spec_cap(),
    {
        self.buffer.cap()
    }

    /// The element at position `index` from the front.
    pub fn get(&self, index: usize) -> (r: &T)
        requires
            index < self@.len(),
        ensures
            *r == self@[index as int],
    {
        self.buffer.get(index)
    }

    /// Overwrites the element at position `index` from the front and hands
    /// back the one that was there.
    pub fn set(&mut self, index: usize, value: T) -> (prev: T)
        requires
            index < old(self)@.len(),
        ensures
            prev == old(self)@[index as int],
            final(self)@ == old(self)@.update(index as int, value),
            final(self).spec_cap() == old(self).spec_cap(),
    {
        self.buffer.replace(index, value)
    }

    /// Removes and returns the front element, or `None` from an empty
    /// queue. The capacity stays.
    pub fn pop_front(&mut self) -> (r: Option<T>)
        requires
            old(self).wf(),
        ensures
            final(self).wf(),
            final(self).spec_cap() == old(self).spec_cap(),
            old(self)@.len() == 0 ==> r.is_none(),
            old(self)@.len() == 0 ==> final(self)@ == old(self)@,
            old(self)@.len() > 0 ==> r == Some(old(self)@[0]),
            old(self)@.len() > 0 ==> final(self)@ == old(self)@.drop_first(),
    {
        if self.buffer.is_empty() {
            None
        } else {
            let front = self.buffer.remove(0);
            assert(self@ =~= old(self)@.drop_first());
            Some(front)
        }
    }

    /// Puts `value` at the front. A full queue first grows to `doubled` its
    /// capacity.
    pub fn push_front(&mut self, value: T)
        requires
            old(self).wf(),
            old(self)@.len() < usize::MAX,
        ensures
            final(self).wf(),
            final(self)@ == seq![value] + old(self)@,
            final(self).spec_cap() == if old(self)@.len() == old(self).spec_cap() {
                doubled(old(self).spec_cap())
            } else {
                old(self).spec_cap()
            },
    {
        self.buffer.insert(0, value);
        assert(self@ =~= seq![value] + old(self)@);
    }

    /// Puts `value` at the back. A full queue first grows to `doubled` its
    /// capacity.
    pub fn push_back(&mut self, value: T)
        requires
            old(self).wf(),
            old(self)@.len() < usize::MAX,
        ensures
            final(self).wf(),
            final(self)@ == old(self)@.push(value),
            final(self).spec_cap() == if old(self)@.len() == old(self).spec_cap() {
                doubled(old(self).spec_cap())
            } else {
                old(self).spec_cap()
            },
    {
        self.buffer.push(value);
    }

    /// Removes and returns the back element, or `None` from an empty queue.
    /// The capacity stays.
    pub fn pop_back(&mut self) -> (r: Option<T>)
        requires
            old(self).wf(),
        ensures
            final(self).wf(),
            final(self).spec_cap() == old(self).spec_cap(),
            old(self)@.len() == 0 ==> r.is_none(),
            old(self)@.len() == 0 ==> final(self)@ == old(self)@,
            old(self)@.len() > 0 ==> r == Some(old(self)@.last()),
            old(self)@.len() > 0 ==> final(self)@ == old(self)@.drop_last(),
    {
        self.buffer.pop()
    }

    /// Drops every element. The capacity stays.
    pub fn wipe(&mut self)
        requires
            old(self).wf(),
        ensures
            final(self).wf(),
            final(self)@ == Seq::<T>::empty(),
            final(self).spec_cap() == old(self).spec_cap(),
    {
        self.buffer.wipe();
    }
}

} // verus!
