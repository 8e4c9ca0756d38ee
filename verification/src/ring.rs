//! A queue whose entries keep the index they were pushed under.

use std::collections::VecDeque;
use vstd::prelude::*;

verus! {

/// A first-in first-out queue. Each entry is known by an absolute index,
/// which counts the entries pushed before it and stays the same for as long
/// as the entry is in the queue.
pub struct RingBuffer<T> {
    data: VecDeque<T>,
    // Absolute index of data[0].
    offset: usize,
}

/// `IndexMut::index_mut` of `VecDeque`: a mutable reference to the element
/// at position `index`, counted from the front. What is written through the
/// reference replaces that element and no other.
#[verifier::external_body]
fn slot<T>(data: &mut VecDeque<T>, index: usize) -> (element: &mut T)
    requires
        index < old(data)@.len(),
    ensures
        *element == old(data)@[index as int],
        final(data)@ == old(data)@.update(index as int, *final(element)),
{
    &mut data[index]
}

impl<T> View for RingBuffer<T> {
    type V = Seq<T>;

    /// The entries in the queue, oldest first.
    closed spec fn view(&self) -> Seq<T> {
        self.data@
    }
}

impl<T> RingBuffer<T> {
    /// The absolute index of the oldest entry, or of the next entry to be
    /// pushed if the queue is empty.
    pub closed spec fn first_index(&self) -> nat {
        self.offset as nat
    }

    /// The absolute index that the next pushed entry will get.
    pub open spec fn next_index(&self) -> nat {
        self.first_index() + self@.len()
    }

    /// Whether `index` is the absolute index of an entry in the queue.
    pub open spec fn live(&self, index: int) -> bool {
        self.first_index() <= index < self.next_index()
    }

    /// The entry with absolute index `index`.
    pub open spec fn entry(&self, index: int) -> T
        recommends
            self.live(index),
    {
        self@[index - self.first_index()]
    }

    pub fn new() -> (ring: Self)
        ensures
            ring@ == Seq::<T>::empty(),
            ring.first_index() == 0,
    {
        RingBuffer { data: VecDeque::new(), offset: 0 }
    }

    pub fn is_empty(&self) -> (empty: bool)
        ensures
            empty == (self@.len() == 0),
    {
        self.data.len() == 0
    }

    pub fn len(&self) -> (len: usize)
        ensures
            len == self@.len(),
    {
        self.data.len()
    }

    /// Appends an entry and returns its absolute index.
    pub fn push(&mut self, value: T) -> (index: usize)
        requires
            old(self).next_index() < usize::MAX,
        ensures
            final(self)@ == old(self)@.push(value),
            final(self).first_index() == old(self).first_index(),
            index == old(self).next_index(),
    {
        let index = self.offset + self.data.len();
        self.data.push_back(value);
        index
    }

    /// Removes every entry. The index of the front stays what it was.
    pub fn clear(&mut self)
        ensures
            final(self)@ == Seq::<T>::empty(),
            final(self).first_index() == old(self).first_index(),
    {
        self.data.clear();
    }

    pub fn index_of_first(&self) -> (index: usize)
        ensures
            index == self.first_index(),
    {
        self.offset
    }

    pub fn first(&self) -> (entry: &T)
        requires
            self@.len() > 0,
        ensures
            *entry == self@[0],
    {
        &self.data[0]
    }

    pub fn first_mut(&mut self) -> (entry: &mut T)
        requires
            old(self)@.len() > 0,
        ensures
            *entry == old(self)@[0],
            final(self)@ == old(self)@.update(0, *final(entry)),
            final(self).first_index() == old(self).first_index(),
    {
        slot(&mut self.data, 0)
    }

    /// Removes the oldest entry and returns it.
    pub fn pop_first(&mut self) -> (entry: T)
        requires
            old(self)@.len() > 0,
            old(self).first_index() < usize::MAX,
        ensures
            entry == old(self)@[0],
            final(self)@ == old(self)@.drop_first(),
            final(self).first_index() == old(self).first_index() + 1,
    {
        self.offset += 1;
        match self.data.pop_front() {
            Some(entry) => entry,
            None => unreached(),
        }
    }

    pub fn last(&self) -> (entry: &T)
        requires
            self@.len() > 0,
        ensures
            *entry == self@.last(),
    {
        &self.data[self.data.len() - 1]
    }

    pub fn last_mut(&mut self) -> (entry: &mut T)
        requires
            old(self)@.len() > 0,
        ensures
            *entry == old(self)@.last(),
            final(self)@ == old(self)@.update(old(self)@.len() - 1, *final(entry)),
            final(self).first_index() == old(self).first_index(),
    {
        let position = self.data.len() - 1;
        slot(&mut self.data, position)
    }

    pub fn second_last(&self) -> (entry: &T)
        requires
            self@.len() >= 2,
        ensures
            *entry == self@[self@.len() - 2],
    {
        &self.data[self.data.len() - 2]
    }

    /// Removes the newest entry.
    pub fn pop_last(&mut self)
        requires
            old(self)@.len() > 0,
        ensures
            final(self)@ == old(self)@.drop_last(),
            final(self).first_index() == old(self).first_index(),
    {
        let _ = self.data.pop_back();
    }

    /// The entry with absolute index `index`.
    pub fn index(&self, index: usize) -> (entry: &T)
        requires
            self.live(index as int),
        ensures
            *entry == self.entry(index as int),
    {
        &self.data[index - self.offset]
    }

    /// The entry with absolute index `index`, to be changed in place.
    pub fn index_mut(&mut self, index: usize) -> (entry: &mut T)
        requires
            old(self).live(index as int),
        ensures
            *entry == old(self).entry(index as int),
            final(self)@ == old(self)@.update(index - old(self).first_index(), *final(entry)),
            final(self).first_index() == old(self).first_index(),
    {
        let position = index - self.offset;
        slot(&mut self.data, position)
    }
}

} // verus!
