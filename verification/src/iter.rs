//! Traversals of an arena: the occupied values by ascending position.

use vstd::prelude::*;
use crate::arena::{lemma_view_fields, GenArray};
use crate::model::{lemma_values_from_step, lemma_wf_by_occupancy, same_occupancy, ArenaView};

verus! {

/// A read-only traversal of an arena.
pub struct GenArrayIterator<'a, T> {
    arr: &'a GenArray<T>,
    pos: usize,
}

impl<'a, T> GenArrayIterator<'a, T> {
    /// The arena that is traversed.
    pub closed spec fn arena(&self) -> ArenaView<T> {
        self.arr@
    }

    /// The position at which the traversal goes on.
    pub closed spec fn position(&self) -> int {
        self.pos as int
    }

    /// The values still to come, in the order in which they come.
    pub open spec fn remaining(&self) -> Seq<T> {
        self.arena().values_from(self.position())
    }

    /// The value of the first occupied slot at or after the traversal's
    /// position; the traversal then goes on after that slot. `None` when
    /// no such slot is left, and the traversal stays where it is.
    pub fn next(&mut self) -> (value: Option<&'a T>)
        ensures
            final(self).arena() == old(self).arena(),
            match value {
                Some(v) => {
                    let at = final(self).position() - 1;
                    &&& old(self).arena().first_occupied(old(self).position(), at)
                    &&& old(self).arena().slots[at].value == Some(*v)
                    &&& old(self).remaining() == seq![*v] + final(self).remaining()
                },
                None => {
                    &&& final(self).position() == old(self).position()
                    &&& old(self).arena().none_occupied_from(old(self).position())
                    &&& old(self).remaining() == Seq::<T>::empty()
                },
            },
    {
        let arr: &'a GenArray<T> = self.arr;
        let mut pos: usize = self.pos;
        while pos < arr.slots.len()
            invariant
                self.pos <= pos,
                arr@ == self.arena(),
                *self == *old(self),
                forall|q: int| self.pos <= q < pos ==> !arr@.occupied(q),
                arr@.values_from(pos as int) == self.remaining(),
            decreases arr.slots.len() - pos,
        {
            proof {
                lemma_view_fields(*arr);
                lemma_values_from_step(arr@, pos as int);
            }
            match &arr.slots[pos].value {
                Some(v) => {
                    self.pos = pos + 1;
                    return Some(v);
                },
                None => {
                    pos = pos + 1;
                },
            }
        }
        proof {
            lemma_view_fields(*arr);
            assert(arr@.slots.skip(arr@.slots.len() as int) =~= Seq::empty());
        }
        None
    }
}

/// The two arenas have tables of one length that agree after position `pos`.
spec fn same_after<T>(before: ArenaView<T>, after: ArenaView<T>, pos: int) -> bool {
    &&& after.slots.len() == before.slots.len()
    &&& forall|j: int| pos < j < before.slots.len() ==> after.slots[j] == before.slots[j]
}

/// A traversal of an arena that hands out each occupied value for writing,
/// one at a time.
///
/// The fields are public so that what the arena will be once the traversal
/// is over can be stated: it is the arena behind `arr`.
pub struct GenArrayIteratorMut<'a, T> {
    /// The arena that is traversed.
    pub arr: &'a mut GenArray<T>,
    /// The position at which the traversal goes on.
    pub pos: usize,
}

impl<'a, T> GenArrayIteratorMut<'a, T> {
    /// The arena that is traversed, as it is now.
    pub open spec fn arena(&self) -> ArenaView<T> {
        self.arr@
    }

    /// The position at which the traversal goes on.
    pub open spec fn position(&self) -> int {
        self.pos as int
    }

    /// The values still to come, in the order in which they come.
    pub open spec fn remaining(&self) -> Seq<T> {
        self.arena().values_from(self.position())
    }

    /// Exclusive access to the value of the first occupied slot at or after
    /// the traversal's position; the traversal then goes on after that
    /// slot. What the caller writes through the reference is the value of
    /// that slot afterwards; nothing else changes. `None` when no such slot
    /// is left, and the traversal stays where it is.
    pub fn next(&mut self) -> (value: Option<&mut T>)
        ensures
            *final(final(self).arr) == *final(old(self).arr),
            old(self).arena().wf() ==> final(self).arena().wf(),
            match value {
                Some(v) => {
                    let at = final(self).position() - 1;
                    &&& old(self).arena().first_occupied(old(self).position(), at)
                    &&& old(self).arena().slots[at].value == Some(*v)
                    &&& old(self).remaining() == seq![*v] + final(self).remaining()
                    &&& final(self).arena() == old(self).arena().replace_at(at, *final(v))
                },
                None => {
                    &&& final(self).position() == old(self).position()
                    &&& old(self).arena().none_occupied_from(old(self).position())
                    &&& old(self).remaining() == Seq::<T>::empty()
                    &&& final(self).arena() == old(self).arena()
                },
            },
    {
        let mut pos: usize = self.pos;
        while pos < self.arr.slots.len()
            invariant
                self.pos <= pos,
                *self == *old(self),
                forall|q: int| self.pos <= q < pos ==> !self.arena().occupied(q),
                self.arena().values_from(pos as int) == self.remaining(),
            decreases self.arr.slots.len() - pos,
        {
            proof {
                lemma_view_fields(*self.arr);
                lemma_values_from_step(self.arena(), pos as int);
            }
            if self.arr.slots[pos].value.is_some() {
                proof {
                    let before = self.arena();
                    assert forall|a: GenArray<T>| #[trigger]
                        a@ == (ArenaView { slots: a.slots@, free: a.empty@ }) by {
                        lemma_view_fields(a);
                    }
                    assert forall|after: ArenaView<T>| same_after(before, after, pos as int)
                        implies #[trigger] after.values_from(pos + 1) == before.values_from(pos + 1) by {
                        assert(after.slots.skip(pos + 1) =~= before.slots.skip(pos + 1));
                    }
                    assert forall|after: ArenaView<T>| before.wf() && same_occupancy(before, after)
                        implies #[trigger] after.wf() by {
                        lemma_wf_by_occupancy(before, after);
                    }
                }
                self.pos = pos + 1;
                return self.arr.slots[pos].value.as_mut();
            }
            pos = pos + 1;
        }
        proof {
            lemma_view_fields(*self.arr);
            assert(self.arena().slots.skip(self.arena().slots.len() as int) =~= Seq::empty());
        }
        None
    }
}

impl<T> GenArray<T> {
    /// A traversal of the occupied values from the first position on.
    pub fn iter(&self) -> (it: GenArrayIterator<'_, T>)
        ensures
            it.arena() == self@,
            it.position() == 0,
            it.remaining() == self@.values(),
    {
        assert(self@.slots.skip(0) =~= self@.slots);
        GenArrayIterator { arr: self, pos: 0 }
    }

    /// A traversal from the first position on that hands out each occupied
    /// value for writing. Once it is over, the arena is what the traversal
    /// left behind `arr`.
    pub fn iter_mut(&mut self) -> (it: GenArrayIteratorMut<'_, T>)
        ensures
            it.arena() == old(self)@,
            it.position() == 0,
            it.remaining() == old(self)@.values(),
            *final(it.arr) == *final(self),
    {
        assert(self@.slots.skip(0) =~= self@.slots);
        GenArrayIteratorMut { arr: self, pos: 0 }
    }
}

} // verus!
