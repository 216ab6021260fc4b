//! The arena itself.

use std::collections::VecDeque;
use vstd::prelude::*;
use crate::index::Index;
use crate::model::{
    lemma_insert_valid, lemma_insert_wf, lemma_remove_wf, lemma_replace_wf, ArenaView, Slot,
};

verus! {

/// A generational arena of values of type `T`.
pub struct GenArray<T> {
    pub(crate) slots: Vec<Slot<T>>,
    pub(crate) empty: VecDeque<u32>,
}

impl<T> View for GenArray<T> {
    type V = ArenaView<T>;

    closed spec fn view(&self) -> ArenaView<T> {
        ArenaView { slots: self.slots@, free: self.empty@ }
    }
}

/// The view of an arena is its slot table and its queue of free positions.
pub(crate) proof fn lemma_view_fields<T>(arr: GenArray<T>)
    ensures
        arr@ == (ArenaView { slots: arr.slots@, free: arr.empty@ }),
{
}

impl<T> GenArray<T> {
    /// The arena's invariant holds.
    pub open spec fn wf(&self) -> bool {
        self@.wf()
    }

    /// An arena without slots.
    pub fn new() -> (arr: Self)
        ensures
            arr.wf(),
            arr@ == ArenaView::<T>::empty(),
    {
        Self { slots: Vec::new(), empty: VecDeque::new() }
    }

    /// The value of a valid handle; `None` for a handle out of range, of
    /// another generation or of a slot that holds nothing.
    pub fn get(&self, index: Index) -> (value: Option<&T>)
        ensures
            match value {
                Some(v) => self@.get(index) == Some(*v),
                None => self@.get(index) is None,
            },
    {
        let slot: usize = index.slot as usize;
        if slot < self.slots.len() {
            let entry = &self.slots[slot];
            if index.generation == entry.generation {
                entry.value.as_ref()
            } else {
                None
            }
        } else {
            None
        }
    }

    /// Exclusive access to the value of a valid handle; `None` for any
    /// other handle. What the caller writes through the reference is the
    /// value of the handle afterwards; nothing else changes.
    pub fn get_mut(&mut self, index: Index) -> (value: Option<&mut T>)
        ensures
            match value {
                Some(v) => {
                    &&& old(self)@.get(index) == Some(*v)
                    &&& final(self)@ == old(self)@.replace(index, *final(v))
                },
                None => {
                    &&& old(self)@.get(index) is None
                    &&& final(self)@ == old(self)@
                },
            },
            old(self).wf() ==> final(self).wf(),
    {
        let slot: usize = index.slot as usize;
        if slot < self.slots.len() {
            assert(self.slots@.update(slot as int, self.slots@[slot as int]) =~= self.slots@);
            let entry = &mut self.slots[slot];
            if index.generation == entry.generation {
                match &mut entry.value {
                    Some(v) => {
                        proof {
                            if old(self).wf() {
                                lemma_replace_wf(old(self)@, index, *final(v));
                            }
                        }
                        Some(v)
                    },
                    None => None,
                }
            } else {
                None
            }
        } else {
            None
        }
    }

    /// Stores `value` and returns its handle. The oldest free slot is
    /// reused, one generation up; where no slot is free, a new one is
    /// appended with generation zero.
    pub fn push(&mut self, value: T) -> (index: Index)
        requires
            old(self).wf(),
            old(self)@.can_insert(),
        ensures
            final(self).wf(),
            index == old(self)@.next_index(),
            final(self)@ == old(self)@.insert(value),
            !old(self)@.contains(index),
            final(self)@.get(index) == Some(value),
    {
        proof {
            lemma_insert_wf(self@, value);
            lemma_insert_valid(self@, value);
        }
        match self.empty.pop_front() {
            Some(slot) => {
                let generation: u32 = self.slots[slot as usize].generation + 1;
                self.slots[slot as usize] = Slot { generation, value: Some(value) };
                Index { slot, generation }
            },
            None => {
                let slot: u32 = self.slots.len() as u32;
                self.slots.push(Slot { generation: 0, value: Some(value) });
                Index { slot, generation: 0 }
            },
        }
    }

    /// Stores `value` as `push` does where there is room for it, and hands
    /// it back where there is none.
    pub fn try_push(&mut self, value: T) -> (outcome: Result<Index, T>)
        requires
            old(self).wf(),
        ensures
            final(self).wf(),
            match outcome {
                Ok(index) => {
                    &&& old(self)@.can_insert()
                    &&& index == old(self)@.next_index()
                    &&& final(self)@ == old(self)@.insert(value)
                },
                Err(returned) => {
                    &&& !old(self)@.can_insert()
                    &&& returned == value
                    &&& final(self)@ == old(self)@
                },
            },
    {
        let room: bool = if self.empty.len() > 0 {
            self.slots[self.empty[0] as usize].generation < u32::MAX
        } else {
            self.slots.len() <= u32::MAX as usize
        };
        if room {
            Ok(self.push(value))
        } else {
            Err(value)
        }
    }

    /// Removes the value of a valid handle and queues its slot for reuse.
    /// Through any other handle nothing changes.
    pub fn remove(&mut self, index: Index)
        ensures
            final(self)@ == old(self)@.remove(index),
            final(self)@.get(index) is None,
            old(self).wf() ==> final(self).wf(),
    {
        proof {
            if self.wf() {
                lemma_remove_wf(self@, index);
            }
        }
        let slot: usize = index.slot as usize;
        if slot < self.slots.len() {
            if self.slots[slot].generation == index.generation && self.slots[slot].value.is_some() {
                self.slots[slot].value = None;
                self.empty.push_back(index.slot);
            }
        }
    }
}

impl<T> Default for GenArray<T> {
    /// An arena without slots.
    fn default() -> (arr: Self)
        ensures
            arr.wf(),
            arr@ == ArenaView::<T>::empty(),
    {
        Self::new()
    }
}

} // verus!
