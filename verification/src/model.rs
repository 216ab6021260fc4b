//! The mathematical model of an arena: a table of slots and a queue of the
//! positions that are free for reuse, with the operations as functions from
//! state to state.

use vstd::prelude::*;
use crate::index::Index;

verus! {

/// A storage cell: a generation counter and, while the cell is occupied, a
/// value. A cell without a value is a tombstone.
pub struct Slot<T> {
    pub generation: u32,
    pub value: Option<T>,
}

/// What an arena is, as plain mathematics.
pub struct ArenaView<T> {
    /// The slot table, by position.
    pub slots: Seq<Slot<T>>,
    /// The positions free for reuse, oldest first.
    pub free: Seq<u32>,
}

impl<T> ArenaView<T> {
    /// The arena that holds nothing and has never held anything.
    pub open spec fn empty() -> Self {
        ArenaView { slots: Seq::empty(), free: Seq::empty() }
    }

    /// Position `pos` is in the table and holds a value.
    pub open spec fn occupied(self, pos: int) -> bool {
        0 <= pos < self.slots.len() && self.slots[pos].value is Some
    }

    /// Position `pos` is in the table and holds no value.
    pub open spec fn tombstoned(self, pos: int) -> bool {
        0 <= pos < self.slots.len() && self.slots[pos].value is None
    }

    /// Position `at` is the first occupied position at or after `from`.
    pub open spec fn first_occupied(self, from: int, at: int) -> bool {
        &&& from <= at
        &&& self.occupied(at)
        &&& forall|pos: int| from <= pos < at ==> !self.occupied(pos)
    }

    /// No position at or after `from` is occupied.
    pub open spec fn none_occupied_from(self, from: int) -> bool {
        forall|pos: int| from <= pos ==> !self.occupied(pos)
    }

    /// The invariant of an arena: every position fits in 32 bits, and the
    /// free queue lists exactly the tombstoned positions, each once.
    pub open spec fn wf(self) -> bool {
        &&& self.slots.len() <= 0x1_0000_0000
        &&& forall|k: int|
            0 <= k < self.free.len() ==> self.tombstoned(#[trigger] self.free[k] as int)
        &&& forall|j: int, k: int|
            0 <= j < k < self.free.len() ==> #[trigger] self.free[j] != #[trigger] self.free[k]
        &&& forall|pos: int| #[trigger]
            self.tombstoned(pos) ==> exists|k: int|
                0 <= k < self.free.len() && #[trigger] self.free[k] == pos
    }

    /// The handle is valid: its position is in the table, the slot there is
    /// occupied, and the slot's generation is the handle's.
    pub open spec fn contains(self, index: Index) -> bool {
        &&& self.occupied(index.slot as int)
        &&& self.slots[index.slot as int].generation == index.generation
    }

    /// The value that a valid handle refers to; nothing for any other handle.
    pub open spec fn get(self, index: Index) -> Option<T> {
        if self.contains(index) {
            self.slots[index.slot as int].value
        } else {
            None
        }
    }

    /// There is room for one more value: the slot that would be reused can
    /// still count one generation up, or, where none is free, one more
    /// position still fits in 32 bits.
    pub open spec fn can_insert(self) -> bool {
        if self.free.len() > 0 {
            self.slots[self.free[0] as int].generation < u32::MAX
        } else {
            self.slots.len() < 0x1_0000_0000
        }
    }

    /// The handle that the next insertion returns: the oldest free position
    /// with its generation raised by one, or, where none is free, the
    /// position after the last with generation zero.
    pub open spec fn next_index(self) -> Index {
        if self.free.len() > 0 {
            Index {
                slot: self.free[0],
                generation: (self.slots[self.free[0] as int].generation + 1) as u32,
            }
        } else {
            Index { slot: self.slots.len() as u32, generation: 0 }
        }
    }

    /// The arena after the insertion of `value`.
    pub open spec fn insert(self, value: T) -> Self {
        let index = self.next_index();
        let slot = Slot { generation: index.generation, value: Some(value) };
        if self.free.len() > 0 {
            ArenaView {
                slots: self.slots.update(index.slot as int, slot),
                free: self.free.drop_first(),
            }
        } else {
            ArenaView { slots: self.slots.push(slot), free: self.free }
        }
    }

    /// The arena after a removal through `index`: a valid handle leaves its
    /// slot a tombstone, queued last for reuse; any other handle leaves the
    /// arena as it was.
    pub open spec fn remove(self, index: Index) -> Self {
        if self.contains(index) {
            ArenaView {
                slots: self.slots.update(
                    index.slot as int,
                    Slot { generation: index.generation, value: None },
                ),
                free: self.free.push(index.slot),
            }
        } else {
            self
        }
    }

    /// The arena after `value` was written over the value at position
    /// `pos`: the slot keeps its generation, and nothing else changes.
    pub open spec fn replace_at(self, pos: int, value: T) -> Self {
        ArenaView {
            slots: self.slots.update(
                pos,
                Slot { generation: self.slots[pos].generation, value: Some(value) },
            ),
            free: self.free,
        }
    }

    /// The arena after `value` was written over the value of a valid handle;
    /// through any other handle nothing is written.
    pub open spec fn replace(self, index: Index, value: T) -> Self {
        if self.contains(index) {
            self.replace_at(index.slot as int, value)
        } else {
            self
        }
    }

    /// The values of the occupied slots, by ascending position.
    pub open spec fn values(self) -> Seq<T> {
        live_values(self.slots)
    }

    /// The values of the occupied slots from position `pos` on, by ascending
    /// position.
    pub open spec fn values_from(self, pos: int) -> Seq<T> {
        if 0 <= pos <= self.slots.len() {
            live_values(self.slots.skip(pos))
        } else {
            Seq::empty()
        }
    }

    /// The occupied positions below `bound`, ascending.
    pub open spec fn occupied_positions_below(self, bound: int) -> Seq<int>
        decreases bound,
    {
        if bound <= 0 {
            Seq::empty()
        } else if self.occupied(bound - 1) {
            self.occupied_positions_below(bound - 1).push(bound - 1)
        } else {
            self.occupied_positions_below(bound - 1)
        }
    }

    /// The occupied positions, ascending.
    pub open spec fn occupied_positions(self) -> Seq<int> {
        self.occupied_positions_below(self.slots.len() as int)
    }
}

/// The values that `slots` hold, in the order of the slots; a tombstone
/// contributes nothing.
pub open spec fn live_values<T>(slots: Seq<Slot<T>>) -> Seq<T> {
    slots.filter_map(|slot: Slot<T>| slot.value)
}

/// What one slot contributes to the values: its value, if it has one.
pub open spec fn slot_values<T>(slot: Slot<T>) -> Seq<T> {
    match slot.value {
        Some(value) => seq![value],
        None => Seq::empty(),
    }
}

/// The values of two runs of slots laid end to end are the values of the
/// first followed by those of the second.
pub proof fn lemma_live_values_concat<T>(a: Seq<Slot<T>>, b: Seq<Slot<T>>)
    ensures
        live_values(a + b) == live_values(a) + live_values(b),
    decreases b.len(),
{
    if b.len() == 0 {
        assert(a + b =~= a);
        assert(live_values(a) + live_values(b) =~= live_values(a));
    } else {
        lemma_live_values_concat(a, b.drop_last());
        assert((a + b).drop_last() =~= a + b.drop_last());
        assert((a + b).last() == b.last());
        assert(live_values(a + b) =~= live_values(a) + live_values(b));
    }
}

/// The values from an in-range position on are what the slot there
/// contributes, followed by the values from the next position on.
pub proof fn lemma_values_from_step<T>(arena: ArenaView<T>, pos: int)
    requires
        0 <= pos < arena.slots.len(),
    ensures
        arena.values_from(pos) == slot_values(arena.slots[pos]) + arena.values_from(pos + 1),
{
    let head = seq![arena.slots[pos]];
    assert(arena.slots.skip(pos) =~= head + arena.slots.skip(pos + 1));
    lemma_live_values_concat(head, arena.slots.skip(pos + 1));
    Seq::lemma_filter_map_singleton(arena.slots[pos], |slot: Slot<T>| slot.value);
}

/// An insertion keeps the invariant.
pub proof fn lemma_insert_wf<T>(arena: ArenaView<T>, value: T)
    requires
        arena.wf(),
        arena.can_insert(),
    ensures
        arena.insert(value).wf(),
{
    let after = arena.insert(value);
    if arena.free.len() > 0 {
        let reused = arena.free[0];
        assert(arena.tombstoned(reused as int));
        assert forall|k: int| 0 <= k < after.free.len() implies after.tombstoned(
            #[trigger] after.free[k] as int,
        ) by {
            assert(after.free[k] == arena.free[k + 1]);
            assert(arena.tombstoned(arena.free[k + 1] as int));
        }
        assert forall|j: int, k: int| 0 <= j < k < after.free.len() implies #[trigger] after.free[j]
            != #[trigger] after.free[k] by {
            assert(after.free[j] == arena.free[j + 1]);
            assert(after.free[k] == arena.free[k + 1]);
        }
        assert forall|pos: int| #[trigger] after.tombstoned(pos) implies exists|k: int|
            0 <= k < after.free.len() && #[trigger] after.free[k] == pos by {
            assert(arena.tombstoned(pos));
            let k = choose|k: int| 0 <= k < arena.free.len() && #[trigger] arena.free[k] == pos;
            assert(after.free[k - 1] == pos);
        }
    } else {
        assert forall|pos: int| !#[trigger] after.tombstoned(pos) by {
            if 0 <= pos < arena.slots.len() {
                assert(!arena.tombstoned(pos));
            }
        }
    }
}

/// The handle that an insertion returns was not valid before, and is valid
/// for the inserted value right after.
pub proof fn lemma_insert_valid<T>(arena: ArenaView<T>, value: T)
    requires
        arena.wf(),
        arena.can_insert(),
    ensures
        !arena.contains(arena.next_index()),
        arena.insert(value).get(arena.next_index()) == Some(value),
{
    if arena.free.len() > 0 {
        assert(arena.tombstoned(arena.free[0] as int));
    }
}

/// A removal keeps the invariant, whatever the handle.
pub proof fn lemma_remove_wf<T>(arena: ArenaView<T>, index: Index)
    requires
        arena.wf(),
    ensures
        arena.remove(index).wf(),
{
    let after = arena.remove(index);
    if arena.contains(index) {
        let last = arena.free.len() as int;
        assert(after.free[last] == index.slot);
        assert forall|k: int| 0 <= k < after.free.len() implies after.tombstoned(
            #[trigger] after.free[k] as int,
        ) by {
            if k < last {
                assert(arena.tombstoned(arena.free[k] as int));
            }
        }
        assert forall|j: int, k: int| 0 <= j < k < after.free.len() implies #[trigger] after.free[j]
            != #[trigger] after.free[k] by {
            assert(arena.tombstoned(arena.free[j] as int));
        }
        assert forall|pos: int| #[trigger] after.tombstoned(pos) implies exists|k: int|
            0 <= k < after.free.len() && #[trigger] after.free[k] == pos by {
            if pos == index.slot {
                assert(after.free[last] == pos);
            } else {
                assert(arena.tombstoned(pos));
                let k = choose|k: int| 0 <= k < arena.free.len() && #[trigger] arena.free[k] == pos;
                assert(after.free[k] == pos);
            }
        }
    }
}

/// The two arenas have the same free queue and tables of one length in
/// which the same positions are occupied.
pub open spec fn same_occupancy<T>(arena: ArenaView<T>, other: ArenaView<T>) -> bool {
    &&& other.free == arena.free
    &&& other.slots.len() == arena.slots.len()
    &&& forall|pos: int|
        0 <= pos < arena.slots.len() ==> (#[trigger] other.slots[pos]).value is Some
            == arena.slots[pos].value is Some
}

/// The invariant rests on the length of the table, on which of its slots
/// are occupied, and on the free queue: an arena that agrees in these with
/// one that meets the invariant meets it too.
pub proof fn lemma_wf_by_occupancy<T>(arena: ArenaView<T>, other: ArenaView<T>)
    requires
        arena.wf(),
        same_occupancy(arena, other),
    ensures
        other.wf(),
{
    assert forall|k: int| 0 <= k < other.free.len() implies other.tombstoned(
        #[trigger] other.free[k] as int,
    ) by {
        assert(arena.tombstoned(arena.free[k] as int));
    }
    assert forall|pos: int| #[trigger] other.tombstoned(pos) implies exists|k: int|
        0 <= k < other.free.len() && #[trigger] other.free[k] == pos by {
        assert(arena.tombstoned(pos));
        let k = choose|k: int| 0 <= k < arena.free.len() && #[trigger] arena.free[k] == pos;
        assert(other.free[k] == pos);
    }
}

/// Writing over the value of an occupied slot keeps the invariant.
pub proof fn lemma_replace_at_wf<T>(arena: ArenaView<T>, pos: int, value: T)
    requires
        arena.wf(),
        arena.occupied(pos),
    ensures
        arena.replace_at(pos, value).wf(),
{
    lemma_wf_by_occupancy(arena, arena.replace_at(pos, value));
}

/// Writing through a handle keeps the invariant, whatever the handle.
pub proof fn lemma_replace_wf<T>(arena: ArenaView<T>, index: Index, value: T)
    requires
        arena.wf(),
    ensures
        arena.replace(index, value).wf(),
{
    if arena.contains(index) {
        lemma_replace_at_wf(arena, index.slot as int, value);
    }
}

} // verus!
