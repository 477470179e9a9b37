//! The mathematical model of an arena, and the operations on it.
//!
//! Every contract of the executable arena is stated over [`ArenaView`]: what a
//! call does to the arena is one of the functions below applied to its view.

use vstd::prelude::*;
use crate::index::Index;

verus! {

/// What one slot of an arena holds.
pub enum SlotView<T> {
    /// Nothing: the slot is on the free list.
    Free,
    /// A value, stamped with the arena's generation at the time it was stored.
    Occupied { generation: nat, value: T },
}

/// One call that changes an arena.
pub enum Op<T> {
    /// Store a value if a slot is free.
    TryInsert(T),
    /// Store a value, growing the arena if it is full.
    Insert(T),
    /// Remove the value that a handle stands for.
    Remove(Index),
    /// Append so many free slots.
    Reserve(nat),
    /// Replace the value that a handle stands for.
    Write(Index, T),
}

/// What an arena is, seen from outside.
#[verifier::ext_equal]
pub struct ArenaView<T> {
    /// One entry for each slot, by position.
    pub slots: Seq<SlotView<T>>,
    /// The positions of the free slots in the order of the free list: the first
    /// is the slot that the next insertion fills.
    pub free: Seq<int>,
    /// The generation counter: the number of removals so far.
    pub generation: nat,
}

impl<T> ArenaView<T> {
    /// The number of slots, free and occupied.
    pub open spec fn capacity(self) -> nat {
        self.slots.len()
    }

    /// Slot `p` exists and holds no value.
    pub open spec fn is_free(self, p: int) -> bool {
        0 <= p < self.slots.len() && self.slots[p] is Free
    }

    /// Slot `p` exists and holds a value.
    pub open spec fn is_occupied(self, p: int) -> bool {
        0 <= p < self.slots.len() && self.slots[p] is Occupied
    }

    /// The number of values that the arena holds.
    pub open spec fn live(self) -> nat {
        Set::new(|p: int| self.is_occupied(p)).len()
    }

    /// The free list visits every free slot, each once, and nothing else, and
    /// no value is stamped with a generation that is still to come.
    pub open spec fn inv(self) -> bool {
        &&& self.free.no_duplicates()
        &&& forall|k: int| 0 <= k < self.free.len() ==> self.is_free(#[trigger] self.free[k])
        &&& forall|p: int| #[trigger] self.is_free(p) ==> self.free.contains(p)
        &&& forall|p: int| #[trigger]
            self.is_occupied(p) ==> self.slots[p]->generation <= self.generation
    }

    /// The value that the handle `i` stands for, if it stands for one: slot
    /// `i.position()` is occupied and bears the stamp `i.generation()`.
    pub open spec fn lookup(self, i: Index) -> Option<T> {
        if self.is_occupied(i.position() as int) && self.slots[i.position() as int]->generation
            == i.generation() {
            Some(self.slots[i.position() as int]->value)
        } else {
            None
        }
    }

    /// The handle `i` stands for a value.
    pub open spec fn contains(self, i: Index) -> bool {
        self.lookup(i) is Some
    }

    /// The handle `i` is the one that storing a value would return now.
    pub open spec fn issues(self, i: Index) -> bool {
        &&& self.free.len() > 0
        &&& i.position() == self.free[0]
        &&& i.generation() == self.generation
    }

    /// An arena of `n` free slots, threaded in increasing order of position.
    pub open spec fn fresh(n: nat) -> ArenaView<T> {
        ArenaView {
            slots: Seq::new(n, |p: int| SlotView::Free),
            free: Seq::new(n, |k: int| k),
            generation: 0,
        }
    }

    /// The arena with `additional` free slots appended, which go to the front
    /// of the free list in increasing order of position.
    pub open spec fn reserve(self, additional: nat) -> ArenaView<T> {
        ArenaView {
            slots: self.slots + Seq::new(additional, |k: int| SlotView::Free),
            free: Seq::new(additional, |k: int| self.slots.len() + k) + self.free,
            generation: self.generation,
        }
    }

    /// The arena with `value` stored in the first slot of the free list, under
    /// the present generation. A full arena stays as it is.
    pub open spec fn try_insert(self, value: T) -> ArenaView<T> {
        if self.free.len() == 0 {
            self
        } else {
            ArenaView {
                slots: self.slots.update(
                    self.free[0],
                    SlotView::Occupied { generation: self.generation, value },
                ),
                free: self.free.drop_first(),
                generation: self.generation,
            }
        }
    }

    /// The number of slots by which a full arena grows: as many as it has, and
    /// one where it has none.
    pub open spec fn growth(self) -> nat {
        if self.slots.len() == 0 {
            1
        } else {
            self.slots.len()
        }
    }

    /// The arena as it is when it has a free slot, and grown where it is full.
    pub open spec fn with_room(self) -> ArenaView<T> {
        if self.free.len() == 0 {
            self.reserve(self.growth())
        } else {
            self
        }
    }

    /// The arena with `value` stored, grown first where it was full.
    pub open spec fn insert(self, value: T) -> ArenaView<T> {
        self.with_room().try_insert(value)
    }

    /// The arena without the value that `i` stands for: its slot goes to the
    /// front of the free list and the generation advances by one. Where `i`
    /// stands for no value the arena stays as it is.
    pub open spec fn remove(self, i: Index) -> ArenaView<T> {
        if self.contains(i) {
            ArenaView {
                slots: self.slots.update(i.position() as int, SlotView::Free),
                free: seq![i.position() as int] + self.free,
                generation: self.generation + 1,
            }
        } else {
            self
        }
    }

    /// The arena with the value that `i` stands for replaced by `value`. Where
    /// `i` stands for no value the arena stays as it is.
    pub open spec fn write(self, i: Index, value: T) -> ArenaView<T> {
        if self.contains(i) {
            ArenaView {
                slots: self.slots.update(
                    i.position() as int,
                    SlotView::Occupied { generation: i.generation(), value },
                ),
                free: self.free,
                generation: self.generation,
            }
        } else {
            self
        }
    }

    /// The arena after one call.
    pub open spec fn apply(self, op: Op<T>) -> ArenaView<T> {
        match op {
            Op::TryInsert(value) => self.try_insert(value),
            Op::Insert(value) => self.insert(value),
            Op::Remove(i) => self.remove(i),
            Op::Reserve(additional) => self.reserve(additional),
            Op::Write(i, value) => self.write(i, value),
        }
    }

    /// The arena after the calls `ops`, made in order.
    pub open spec fn apply_all(self, ops: Seq<Op<T>>) -> ArenaView<T>
        decreases ops.len(),
    {
        if ops.len() == 0 {
            self
        } else {
            self.apply_all(ops.drop_last()).apply(ops.last())
        }
    }

    /// The arena after storing `values`, in order, growing as needed.
    pub open spec fn insert_all(self, values: Seq<T>) -> ArenaView<T>
        decreases values.len(),
    {
        if values.len() == 0 {
            self
        } else {
            self.insert_all(values.drop_last()).insert(values.last())
        }
    }

    /// The handle `i` was given out before the latest removal and stands for
    /// nothing now.
    pub open spec fn stale(self, i: Index) -> bool {
        i.generation() < self.generation && !self.contains(i)
    }

    /// The values that the arena holds, in increasing order of position.
    pub open spec fn values(self) -> Seq<T> {
        values_of(self.slots)
    }
}

/// Slot `b` is a copy of slot `a`: free as `a` is, or holding a clone of the
/// value of `a` under the same stamp.
pub open spec fn slot_cloned<T: Clone>(a: SlotView<T>, b: SlotView<T>) -> bool {
    match a {
        SlotView::Free => b is Free,
        SlotView::Occupied { generation, value } => {
            &&& b is Occupied
            &&& b->generation == generation
            &&& cloned(value, b->value)
        },
    }
}

impl<T: Clone> ArenaView<T> {
    /// This arena is a copy of `origin`: the same free list and generation,
    /// and slot by slot a copy.
    pub open spec fn is_clone_of(self, origin: ArenaView<T>) -> bool {
        &&& self.free == origin.free
        &&& self.generation == origin.generation
        &&& self.slots.len() == origin.slots.len()
        &&& forall|p: int|
            0 <= p < origin.slots.len() ==> slot_cloned(origin.slots[p], #[trigger] self.slots[p])
    }
}

/// The values in the occupied slots of `slots`, in order.
pub open spec fn values_of<T>(slots: Seq<SlotView<T>>) -> Seq<T>
    decreases slots.len(),
{
    if slots.len() == 0 {
        Seq::empty()
    } else if slots[0] is Occupied {
        seq![slots[0]->value] + values_of(slots.drop_first())
    } else {
        values_of(slots.drop_first())
    }
}

} // verus!
