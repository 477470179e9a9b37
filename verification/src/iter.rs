//! Taking an arena apart: its values, one by one, in order of position.

use vstd::prelude::*;
use vstd::std_specs::iter::{IteratorSpec, IteratorSpecImpl};
use crate::arena::{Arena, Entry, slot_view};
use crate::model::{SlotView, values_of};

verus! {

/// What is left of an arena that is being taken apart: the slots from `next`
/// on are still to be visited.
pub struct IntoIter<T> {
    items: Vec<Entry<T>>,
    next: usize,
}

/// The slots of `items` from position `from` on.
spec fn slots_from<T>(items: Seq<Entry<T>>, from: int) -> Seq<SlotView<T>> {
    items.map_values(|e: Entry<T>| slot_view(e)).subrange(from, items.len() as int)
}

/// The values from position `from` on are the value at `from`, if there is
/// one, and then those from the next position on.
proof fn lemma_values_step<T>(items: Seq<Entry<T>>, from: int)
    requires
        0 <= from < items.len(),
    ensures
        values_of(slots_from(items, from)) == (match items[from] {
            Entry::Occupied { value, .. } => seq![value] + values_of(slots_from(items, from + 1)),
            Entry::Free { .. } => values_of(slots_from(items, from + 1)),
        }),
{
    assert(slots_from(items, from).drop_first() =~= slots_from(items, from + 1));
}

impl<T> IntoIter<T> {
    #[verifier::type_invariant]
    spec fn inv(self) -> bool {
        self.next <= self.items@.len()
    }
}

impl<T> View for IntoIter<T> {
    type V = Seq<T>;

    /// The values still to come, in the order in which they come.
    closed spec fn view(&self) -> Seq<T> {
        values_of(slots_from(self.items@, self.next as int))
    }
}

impl<T> Iterator for IntoIter<T> {
    type Item = T;

    /// The next value, and `None` when all have been given out.
    fn next(&mut self) -> (r: Option<T>)
        ensures
            old(self)@.len() > 0 ==> r == Some(old(self)@[0]) && final(self)@ == old(
                self,
            )@.drop_first(),
            old(self)@.len() == 0 ==> r is None && final(self)@ == old(self)@,
    {
        proof {
            use_type_invariant(&*self);
        }
        while self.next < self.items.len()
            invariant
                old(self).next <= self.next <= self.items@.len(),
                self.items@.len() == old(self).items@.len(),
                self@ == old(self)@,
            decreases self.items@.len() - self.next,
        {
            let ghost before = self.items@;
            let mut entry = Entry::Free { next_free: None };
            core::mem::swap(&mut self.items[self.next], &mut entry);
            self.next += 1;
            proof {
                lemma_values_step(before, self.next - 1);
                assert(slots_from(self.items@, self.next as int) =~= slots_from(
                    before,
                    self.next as int,
                ));
            }
            match entry {
                Entry::Occupied { value, .. } => {
                    return Some(value);
                },
                Entry::Free { .. } => {},
            }
        }
        proof {
            assert(slots_from(self.items@, self.next as int).len() == 0);
        }
        None
    }
}

impl<T> IteratorSpecImpl for IntoIter<T> {
    open spec fn obeys_prophetic_iter_laws(&self) -> bool {
        true
    }

    open spec fn remaining(&self) -> Seq<T> {
        self@
    }

    open spec fn will_return_none(&self) -> bool {
        true
    }

    closed spec fn decrease(&self) -> Option<nat> {
        Some((self.items@.len() - self.next) as nat)
    }

    open spec fn initial_value_relation(&self, init: &Self) -> bool {
        init@ == self@
    }

    open spec fn peek(&self, index: int) -> Option<T> {
        if 0 <= index < self@.len() {
            Some(self@[index])
        } else {
            None
        }
    }
}

impl<T> IntoIterator for Arena<T> {
    type Item = T;

    type IntoIter = IntoIter<T>;

    /// Takes the arena apart: what comes out are its values, each once, in
    /// increasing order of position.
    fn into_iter(self) -> (it: IntoIter<T>)
        ensures
            it@ == self@.values(),
            IteratorSpec::decrease(&it) is Some,
            IteratorSpec::initial_value_relation(&it, &it),
    {
        let items = self.into_items();
        assert(slots_from(items@, 0) =~= self@.slots);
        IntoIter { items, next: 0 }
    }
}

} // verus!
