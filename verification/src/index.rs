//! The handle that an arena gives out for each stored value.

use core::cmp::Ordering;
use vstd::prelude::*;
use vstd::std_specs::cmp::PartialOrdSpecImpl;

verus! {

/// A handle to one value in an arena: the position of the slot that holds it
/// and the arena's generation at the moment the value was stored.
///
/// Two handles are equal when both parts are. Handles are ordered by position
/// first and by generation second.
#[derive(Clone, Copy, Debug, PartialEq, Eq, Ord, Hash, Structural)]
pub struct Index {
    index: usize,
    generation: u64,
}

impl Index {
    /// The position of the slot that the handle points at.
    pub closed spec fn position(self) -> nat {
        self.index as nat
    }

    /// The generation that the handle was stamped with.
    pub closed spec fn generation(self) -> nat {
        self.generation as nat
    }

    /// A handle is its position and its generation, and nothing else.
    pub proof fn lemma_equal(self, other: Index)
        ensures
            self == other <==> self.position() == other.position() && self.generation()
                == other.generation(),
    {
    }

    pub(crate) fn new(index: usize, generation: u64) -> (i: Index)
        ensures
            i.position() == index,
            i.generation() == generation,
    {
        Index { index, generation }
    }

    pub(crate) fn slot(&self) -> (p: usize)
        ensures
            p == self.position(),
    {
        self.index
    }

    pub(crate) fn stamp(&self) -> (g: u64)
        ensures
            g == self.generation(),
    {
        self.generation
    }
}

impl PartialOrd for Index {
    /// Compares by position, and by generation where the positions are equal.
    fn partial_cmp(&self, other: &Index) -> (r: Option<Ordering>) {
        if self.index < other.index {
            Some(Ordering::Less)
        } else if self.index > other.index {
            Some(Ordering::Greater)
        } else if self.generation < other.generation {
            Some(Ordering::Less)
        } else if self.generation > other.generation {
            Some(Ordering::Greater)
        } else {
            Some(Ordering::Equal)
        }
    }
}

impl PartialOrdSpecImpl for Index {
    open spec fn obeys_partial_cmp_spec() -> bool {
        true
    }

    open spec fn partial_cmp_spec(&self, other: &Index) -> Option<Ordering> {
        if self.position() < other.position() {
            Some(Ordering::Less)
        } else if self.position() > other.position() {
            Some(Ordering::Greater)
        } else if self.generation() < other.generation() {
            Some(Ordering::Less)
        } else if self.generation() > other.generation() {
            Some(Ordering::Greater)
        } else {
            Some(Ordering::Equal)
        }
    }
}

} // verus!
