//! What holds of an arena over any run of operations.

use vstd::prelude::*;
use crate::index::Index;
use crate::model::{
    lemma_insert_valid, lemma_insert_wf, lemma_remove_wf, lemma_replace_wf, live_values, ArenaView,
};

verus! {

/// One operation on an arena.
pub enum Op<T> {
    /// The insertion of a value.
    Insert(T),
    /// A removal through a handle.
    Remove(Index),
    /// A write through a handle.
    Replace(Index, T),
}

impl<T> Op<T> {
    /// The operation is a removal through `index`.
    pub open spec fn removes(self, index: Index) -> bool {
        self matches Op::Remove(removed) && removed == index
    }

    /// The operation is a write through `index`.
    pub open spec fn writes(self, index: Index) -> bool {
        self matches Op::Replace(written, _) && written == index
    }
}

impl<T> ArenaView<T> {
    /// The operation can be carried out: an insertion needs room.
    pub open spec fn admits(self, op: Op<T>) -> bool {
        op is Insert ==> self.can_insert()
    }

    /// The arena after the operation.
    pub open spec fn apply(self, op: Op<T>) -> Self {
        match op {
            Op::Insert(value) => self.insert(value),
            Op::Remove(index) => self.remove(index),
            Op::Replace(index, value) => self.replace(index, value),
        }
    }

    /// Each operation of the run can be carried out when its turn comes.
    pub open spec fn admits_all(self, ops: Seq<Op<T>>) -> bool
        decreases ops.len(),
    {
        ops.len() > 0 ==> self.admits(ops[0]) && self.apply(ops[0]).admits_all(ops.drop_first())
    }

    /// The arena after the operations of the run, first to last.
    pub open spec fn apply_all(self, ops: Seq<Op<T>>) -> Self
        decreases ops.len(),
    {
        if ops.len() == 0 {
            self
        } else {
            self.apply(ops[0]).apply_all(ops.drop_first())
        }
    }

    /// The handle is stale: its slot has moved on to a later generation, or
    /// holds nothing at the handle's own.
    pub open spec fn retired(self, index: Index) -> bool {
        &&& index.slot < self.slots.len()
        &&& self.slots[index.slot as int].generation >= index.generation
        &&& self.slots[index.slot as int].generation == index.generation ==> self.tombstoned(
            index.slot as int,
        )
    }
}

/// Every operation that can be carried out keeps the invariant.
pub proof fn lemma_apply_wf<T>(arena: ArenaView<T>, op: Op<T>)
    requires
        arena.wf(),
        arena.admits(op),
    ensures
        arena.apply(op).wf(),
{
    match op {
        Op::Insert(value) => lemma_insert_wf(arena, value),
        Op::Remove(index) => lemma_remove_wf(arena, index),
        Op::Replace(index, value) => lemma_replace_wf(arena, index, value),
    }
}

/// Every run of operations that can be carried out keeps the invariant.
pub proof fn lemma_apply_all_wf<T>(arena: ArenaView<T>, ops: Seq<Op<T>>)
    requires
        arena.wf(),
        arena.admits_all(ops),
    ensures
        arena.apply_all(ops).wf(),
    decreases ops.len(),
{
    if ops.len() > 0 {
        lemma_apply_wf(arena, ops[0]);
        lemma_apply_all_wf(arena.apply(ops[0]), ops.drop_first());
    }
}

/// A valid handle stays valid through any operation but its own removal,
/// and keeps its value through any operation but its own removal and a
/// write through it.
pub proof fn lemma_valid_through_op<T>(arena: ArenaView<T>, op: Op<T>, index: Index)
    requires
        arena.wf(),
        arena.admits(op),
        arena.contains(index),
        !op.removes(index),
    ensures
        arena.apply(op).contains(index),
        !op.writes(index) ==> arena.apply(op).get(index) == arena.get(index),
{
    if op is Insert && arena.free.len() > 0 {
        assert(arena.tombstoned(arena.free[0] as int));
    }
}

/// A valid handle stays valid through any run of operations in which it is
/// not removed, and keeps its value if the run does not write through it
/// either.
pub proof fn lemma_valid_until_removed<T>(arena: ArenaView<T>, ops: Seq<Op<T>>, index: Index)
    requires
        arena.wf(),
        arena.admits_all(ops),
        arena.contains(index),
        forall|k: int| 0 <= k < ops.len() ==> !(#[trigger] ops[k]).removes(index),
    ensures
        arena.apply_all(ops).contains(index),
        (forall|k: int| 0 <= k < ops.len() ==> !(#[trigger] ops[k]).writes(index)) ==> arena.apply_all(
            ops,
        ).get(index) == arena.get(index),
    decreases ops.len(),
{
    if ops.len() > 0 {
        let rest = ops.drop_first();
        lemma_apply_wf(arena, ops[0]);
        lemma_valid_through_op(arena, ops[0], index);
        assert forall|k: int| 0 <= k < rest.len() implies !(#[trigger] rest[k]).removes(index) by {
            assert(rest[k] == ops[k + 1]);
        }
        lemma_valid_until_removed(arena.apply(ops[0]), rest, index);
        if forall|k: int| 0 <= k < ops.len() ==> !(#[trigger] ops[k]).writes(index) {
            assert forall|k: int| 0 <= k < rest.len() implies !(#[trigger] rest[k]).writes(index) by {
                assert(rest[k] == ops[k + 1]);
            }
        }
    }
}

/// A handle that an insertion returns is valid for the inserted value right
/// after the insertion, and through any run of operations that follows in
/// which it is neither removed nor written through.
pub proof fn lemma_inserted_until_removed<T>(arena: ArenaView<T>, value: T, ops: Seq<Op<T>>)
    requires
        arena.wf(),
        arena.can_insert(),
        arena.insert(value).admits_all(ops),
        forall|k: int| 0 <= k < ops.len() ==> !(#[trigger] ops[k]).removes(arena.next_index()),
        forall|k: int| 0 <= k < ops.len() ==> !(#[trigger] ops[k]).writes(arena.next_index()),
    ensures
        arena.insert(value).get(arena.next_index()) == Some(value),
        arena.insert(value).apply_all(ops).get(arena.next_index()) == Some(value),
{
    lemma_insert_wf(arena, value);
    lemma_insert_valid(arena, value);
    lemma_valid_until_removed(arena.insert(value), ops, arena.next_index());
}

/// A stale handle is not valid.
pub proof fn lemma_retired_is_absent<T>(arena: ArenaView<T>, index: Index)
    requires
        arena.retired(index),
    ensures
        !arena.contains(index),
        arena.get(index) is None,
{
}

/// The removal of a valid handle leaves it stale.
pub proof fn lemma_removed_is_retired<T>(arena: ArenaView<T>, index: Index)
    requires
        arena.contains(index),
    ensures
        arena.remove(index).retired(index),
{
}

/// The handle that an insertion returns is new: it was neither valid nor
/// stale before.
pub proof fn lemma_inserted_is_new<T>(arena: ArenaView<T>)
    requires
        arena.wf(),
        arena.can_insert(),
    ensures
        !arena.contains(arena.next_index()),
        !arena.retired(arena.next_index()),
{
    if arena.free.len() > 0 {
        assert(arena.tombstoned(arena.free[0] as int));
    }
}

/// A stale handle stays stale through any operation.
pub proof fn lemma_retired_through_op<T>(arena: ArenaView<T>, op: Op<T>, index: Index)
    requires
        arena.wf(),
        arena.admits(op),
        arena.retired(index),
    ensures
        arena.apply(op).retired(index),
{
}

/// A stale handle stays stale through any run of operations.
pub proof fn lemma_retired_forever<T>(arena: ArenaView<T>, ops: Seq<Op<T>>, index: Index)
    requires
        arena.wf(),
        arena.admits_all(ops),
        arena.retired(index),
    ensures
        arena.apply_all(ops).retired(index),
    decreases ops.len(),
{
    if ops.len() > 0 {
        lemma_apply_wf(arena, ops[0]);
        lemma_retired_through_op(arena, ops[0], index);
        lemma_retired_forever(arena.apply(ops[0]), ops.drop_first(), index);
    }
}

/// Once a valid handle has been removed, no run of operations makes it valid
/// again, not even one that reuses its slot.
pub proof fn lemma_removed_stays_absent<T>(arena: ArenaView<T>, index: Index, ops: Seq<Op<T>>)
    requires
        arena.wf(),
        arena.contains(index),
        arena.remove(index).admits_all(ops),
    ensures
        arena.remove(index).apply_all(ops).get(index) is None,
{
    lemma_remove_wf(arena, index);
    lemma_retired_forever(arena.remove(index), ops, index);
}

/// A removal through a handle that is not valid changes nothing, and so
/// does a second removal through the same handle.
pub proof fn lemma_remove_idempotent<T>(arena: ArenaView<T>, index: Index)
    ensures
        !arena.contains(index) ==> arena.remove(index) == arena,
        arena.remove(index).remove(index) == arena.remove(index),
{
}

/// The generation of a slot goes up by exactly one when the slot passes
/// from tombstone to occupied, which is when an insertion reuses it, and
/// changes at no other time; a slot that an insertion appends starts at
/// generation zero.
pub proof fn lemma_generation_step<T>(arena: ArenaView<T>, op: Op<T>, pos: int)
    requires
        arena.wf(),
        arena.admits(op),
        0 <= pos < arena.apply(op).slots.len(),
    ensures
        arena.slots.len() <= arena.apply(op).slots.len() <= arena.slots.len() + 1,
        pos == arena.slots.len() ==> arena.apply(op).slots[pos].generation == 0,
        arena.tombstoned(pos) && arena.apply(op).occupied(pos) ==> {
            &&& op is Insert
            &&& arena.apply(op).slots[pos].generation == arena.slots[pos].generation + 1
        },
        pos < arena.slots.len() && !(arena.tombstoned(pos) && arena.apply(op).occupied(pos))
            ==> arena.apply(op).slots[pos].generation == arena.slots[pos].generation,
{
    if op is Insert && arena.free.len() > 0 {
        assert(arena.tombstoned(arena.free[0] as int));
    }
}

/// Over any run of operations the table never shrinks and no generation
/// goes down.
pub proof fn lemma_generation_monotone<T>(arena: ArenaView<T>, ops: Seq<Op<T>>, pos: int)
    requires
        arena.wf(),
        arena.admits_all(ops),
        0 <= pos < arena.slots.len(),
    ensures
        pos < arena.apply_all(ops).slots.len(),
        arena.apply_all(ops).slots[pos].generation >= arena.slots[pos].generation,
    decreases ops.len(),
{
    if ops.len() > 0 {
        lemma_apply_wf(arena, ops[0]);
        lemma_generation_step(arena, ops[0], pos);
        lemma_generation_monotone(arena.apply(ops[0]), ops.drop_first(), pos);
    }
}

/// Writing through a valid handle is seen by a lookup through the same
/// handle, and by no lookup through another; it is the write at the
/// handle's position that a traversal makes.
pub proof fn lemma_replace_visible<T>(arena: ArenaView<T>, index: Index, value: T)
    requires
        arena.contains(index),
    ensures
        arena.replace(index, value).get(index) == Some(value),
        arena.replace(index, value) == arena.replace_at(index.slot as int, value),
        forall|other: Index|
            other != index ==> #[trigger] arena.replace(index, value).get(other) == arena.get(other),
{
}

/// Below any bound, the values of the slots are the values at the occupied
/// positions, position by position.
proof fn lemma_values_by_position_below<T>(arena: ArenaView<T>, bound: int)
    requires
        0 <= bound <= arena.slots.len(),
    ensures
        ({
            let positions = arena.occupied_positions_below(bound);
            let values = live_values(arena.slots.take(bound));
            &&& positions.len() == values.len()
            &&& forall|k: int|
                0 <= k < positions.len() ==> {
                    &&& 0 <= #[trigger] positions[k] < bound
                    &&& arena.slots[positions[k]].value == Some(values[k])
                }
            &&& forall|j: int, k: int|
                0 <= j < k < positions.len() ==> #[trigger] positions[j] < #[trigger] positions[k]
            &&& forall|pos: int|
                0 <= pos < bound && arena.occupied(pos) ==> #[trigger] positions.contains(pos)
        }),
    decreases bound,
{
    let positions = arena.occupied_positions_below(bound);
    let values = live_values(arena.slots.take(bound));
    if bound > 0 {
        let shorter = arena.occupied_positions_below(bound - 1);
        lemma_values_by_position_below(arena, bound - 1);
        assert(arena.slots.take(bound).drop_last() =~= arena.slots.take(bound - 1));
        assert forall|pos: int| 0 <= pos < bound && arena.occupied(pos) implies #[trigger] positions.contains(
            pos,
        ) by {
            if pos < bound - 1 {
                assert(shorter.contains(pos));
                let k = choose|k: int| 0 <= k < shorter.len() && shorter[k] == pos;
                assert(positions[k] == pos);
            } else {
                assert(positions[positions.len() - 1] == pos);
            }
        }
    }
}

/// A traversal meets exactly the occupied slots, in ascending order of
/// position: the values of an arena are the values at its occupied
/// positions, which are listed ascending, each once, and with no other
/// position among them.
pub proof fn lemma_values_by_position<T>(arena: ArenaView<T>)
    ensures
        arena.occupied_positions().len() == arena.values().len(),
        forall|k: int|
            0 <= k < arena.values().len() ==> {
                &&& arena.occupied(#[trigger] arena.occupied_positions()[k])
                &&& arena.slots[arena.occupied_positions()[k]].value == Some(arena.values()[k])
            },
        forall|j: int, k: int|
            0 <= j < k < arena.values().len() ==> #[trigger] arena.occupied_positions()[j]
                < #[trigger] arena.occupied_positions()[k],
        forall|pos: int| arena.occupied(pos) ==> #[trigger] arena.occupied_positions().contains(pos),
{
    lemma_values_by_position_below(arena, arena.slots.len() as int);
    assert(arena.slots.take(arena.slots.len() as int) =~= arena.slots);
}

} // verus!
