//! The arena itself: slots in a vector, the free ones threaded into a list by
//! position.

use vstd::prelude::*;
use crate::index::Index;
use crate::laws::{
    lemma_clone_inv, lemma_fresh_inv, lemma_remove_inv, lemma_reserve_inv, lemma_try_insert_inv,
    lemma_write_inv,
};
use crate::model::{ArenaView, SlotView, slot_cloned};

verus! {

/// One slot of the arena.
#[derive(Debug)]
pub(crate) enum Entry<T> {
    /// An unused slot, with the position of the next one on the free list.
    Free { next_free: Option<usize> },
    /// A stored value and the generation at which it was stored.
    Occupied { generation: u64, value: T },
}

/// A pool of values of type `T`, each reached through the [`Index`] that
/// storing it returned.
///
/// A handle is checked on every access: it stands for a value only as long as
/// the value it was given out for is in the arena. Once that value has been
/// removed the handle stands for nothing, also when its slot holds a new value.
#[derive(Debug)]
pub struct Arena<T> {
    items: Vec<Entry<T>>,
    generation: u64,
    free_list_head: Option<usize>,
}

/// The number of slots of an arena made by [`Arena::new`].
pub const DEFAULT_CAPACITY: usize = 4;

/// What a slot holds, without its link.
pub(crate) open spec fn slot_view<T>(e: Entry<T>) -> SlotView<T> {
    match e {
        Entry::Free { .. } => SlotView::Free,
        Entry::Occupied { generation, value } => SlotView::Occupied {
            generation: generation as nat,
            value,
        },
    }
}

/// A link of the free list as a position.
spec fn link(l: Option<usize>) -> Option<int> {
    match l {
        Some(p) => Some(p as int),
        None => None,
    }
}

/// The link that a slot carries; an occupied slot carries none.
spec fn next_of<T>(e: Entry<T>) -> Option<int> {
    match e {
        Entry::Free { next_free } => link(next_free),
        Entry::Occupied { .. } => None,
    }
}

/// Slot `list[k]` of `items` is free and linked to `list[k + 1]`, or to nothing
/// where `list` ends with it.
spec fn linked_at<T>(items: Seq<Entry<T>>, list: Seq<int>, k: int) -> bool {
    &&& 0 <= list[k] < items.len()
    &&& items[list[k]] is Free
    &&& next_of(items[list[k]]) == (if k + 1 < list.len() {
        Some(list[k + 1])
    } else {
        None
    })
}

/// `list` is what a walk from `head` along the links of `items` visits, up to
/// the slot that carries no link.
spec fn linked<T>(items: Seq<Entry<T>>, head: Option<int>, list: Seq<int>) -> bool {
    &&& head == (if list.len() == 0 {
        None
    } else {
        Some(list[0])
    })
    &&& forall|k: int| 0 <= k < list.len() ==> #[trigger] linked_at(items, list, k)
}

/// Two walks from one head along the same links agree as far as both go.
proof fn lemma_linked_agree<T>(
    items: Seq<Entry<T>>,
    head: Option<int>,
    a: Seq<int>,
    b: Seq<int>,
    k: int,
)
    requires
        linked(items, head, a),
        linked(items, head, b),
        0 <= k < a.len(),
        k < b.len(),
    ensures
        a[k] == b[k],
    decreases k,
{
    if k > 0 {
        lemma_linked_agree(items, head, a, b, k - 1);
        assert(linked_at(items, a, k - 1));
        assert(linked_at(items, b, k - 1));
    }
}

/// The head and the links determine the walk.
proof fn lemma_linked_unique<T>(
    items: Seq<Entry<T>>,
    head: Option<int>,
    a: Seq<int>,
    b: Seq<int>,
)
    requires
        linked(items, head, a),
        linked(items, head, b),
    ensures
        a == b,
{
    if a.len() < b.len() {
        if a.len() > 0 {
            lemma_linked_agree(items, head, a, b, a.len() - 1);
            assert(linked_at(items, a, a.len() - 1));
            assert(linked_at(items, b, a.len() - 1));
        }
    } else if b.len() < a.len() {
        if b.len() > 0 {
            lemma_linked_agree(items, head, a, b, b.len() - 1);
            assert(linked_at(items, a, b.len() - 1));
            assert(linked_at(items, b, b.len() - 1));
        }
    } else {
        assert forall|k: int| 0 <= k < a.len() implies a[k] == b[k] by {
            lemma_linked_agree(items, head, a, b, k);
        }
        assert(a =~= b);
    }
}

/// `post` is `pre` with `additional` free slots appended, linked each to the
/// next and the last to the old head, and the first of them made the head.
spec fn extended<T>(pre: Arena<T>, post: Arena<T>, additional: nat) -> bool {
    let start = pre.items@.len() as int;
    let end = start + additional;
    &&& additional > 0
    &&& end <= usize::MAX
    &&& post.items@.len() == end
    &&& forall|p: int| 0 <= p < start ==> post.items@[p] == pre.items@[p]
    &&& forall|p: int|
        start <= p < end ==> post.items@[p] == (Entry::<T>::Free {
            next_free: if p == end - 1 {
                pre.free_list_head
            } else {
                Some((p + 1) as usize)
            },
        })
    &&& post.generation == pre.generation
    &&& post.free_list_head == Some(start as usize)
}

/// Appending linked free slots is a reservation in the model.
proof fn lemma_extended<T>(pre: Arena<T>, post: Arena<T>, additional: nat)
    requires
        pre.wf(),
        extended(pre, post, additional),
    ensures
        post.wf(),
        post@ == pre@.reserve(additional),
{
    let start = pre.items@.len() as int;
    let list = Seq::new(additional, |k: int| start + k) + pre.free_list();
    assert forall|k: int| 0 <= k < list.len() implies #[trigger] linked_at(
        post.items@,
        list,
        k,
    ) by {
        if k < additional {
            assert(list[k] == start + k);
            if k + 1 < additional {
                assert(list[k + 1] == start + k + 1);
            } else if k + 1 < list.len() {
                assert(list[k + 1] == pre.free_list()[0]);
            }
        } else {
            let j = k - additional;
            assert(linked_at(pre.items@, pre.free_list(), j));
            assert(list[k] == pre.free_list()[j]);
            assert(post.items@[list[k]] == pre.items@[list[k]]);
            if k + 1 < list.len() {
                assert(list[k + 1] == pre.free_list()[j + 1]);
            }
        }
    }
    assert(list[0] == start);
    lemma_linked_unique(post.items@, link(post.free_list_head), list, post.free_list());
    assert(post@ =~= pre@.reserve(additional));
    lemma_reserve_inv(pre@, additional);
}

/// `post` is `pre` with slot `pos` written back as it was.
spec fn untouched<T>(pre: Arena<T>, post: Arena<T>, pos: int) -> bool {
    &&& 0 <= pos < pre.items@.len()
    &&& post.items@ == pre.items@.update(pos, pre.items@[pos])
    &&& post.generation == pre.generation
    &&& post.free_list_head == pre.free_list_head
}

/// Writing a slot back as it was leaves the arena as it was.
proof fn lemma_untouched<T>(pre: Arena<T>, pos: int)
    requires
        pre.wf(),
    ensures
        forall|post: Arena<T>| untouched(pre, post, pos) ==> #[trigger] post.wf(),
        forall|post: Arena<T>| untouched(pre, post, pos) ==> #[trigger] post.view() == pre@,
{
    assert forall|post: Arena<T>| untouched(pre, post, pos) implies post.wf() && post.view()
        == pre@ by {
        assert(post.items@ =~= pre.items@);
        lemma_linked_unique(
            post.items@,
            link(post.free_list_head),
            pre.free_list(),
            post.free_list(),
        );
        assert(post@ =~= pre@);
    }
}

/// `post` is `pre` with the value in the occupied slot `pos` replaced by
/// `value`.
spec fn rewritten<T>(pre: Arena<T>, post: Arena<T>, pos: int, value: T) -> bool {
    &&& 0 <= pos < pre.items@.len()
    &&& pre.items@[pos] is Occupied
    &&& post.items@ == pre.items@.update(
        pos,
        Entry::Occupied { generation: pre.items@[pos]->generation, value },
    )
    &&& post.generation == pre.generation
    &&& post.free_list_head == pre.free_list_head
}

/// Replacing the value that `i` stands for leaves the arena well formed, and
/// is a write in the model.
proof fn lemma_rewritten<T>(pre: Arena<T>, i: Index, value: T)
    requires
        pre.wf(),
        pre@.contains(i),
    ensures
        forall|post: Arena<T>|
            rewritten(pre, post, i.position() as int, value) ==> #[trigger] post.wf(),
        forall|post: Arena<T>|
            rewritten(pre, post, i.position() as int, value) ==> #[trigger] post.view()
                == pre@.write(i, value),
{
    let pos = i.position() as int;
    assert forall|post: Arena<T>| rewritten(pre, post, pos, value) implies post.wf()
        && post.view() == pre@.write(i, value) by {
        let list = pre.free_list();
        assert forall|k: int| 0 <= k < list.len() implies #[trigger] linked_at(
            post.items@,
            list,
            k,
        ) by {
            assert(linked_at(pre.items@, list, k));
        }
        lemma_linked_unique(post.items@, link(post.free_list_head), list, post.free_list());
        assert(post@ =~= pre@.write(i, value));
        lemma_write_inv(pre@, i, value);
    }
}

/// Slot by slot `copy` has the link of `origin` and a copy of what it holds.
spec fn copied<T: Clone>(origin: Arena<T>, copy: Arena<T>) -> bool {
    &&& copy.items@.len() == origin.items@.len()
    &&& forall|p: int|
        0 <= p < origin.items@.len() ==> next_of(#[trigger] copy.items@[p]) == next_of(
            origin.items@[p],
        ) && slot_cloned(slot_view(origin.items@[p]), slot_view(copy.items@[p]))
    &&& copy.generation == origin.generation
    &&& copy.free_list_head == origin.free_list_head
}

/// A slot-by-slot copy of a well-formed arena is well formed, and a copy of it
/// in the model.
proof fn lemma_copied<T: Clone>(origin: Arena<T>, copy: Arena<T>)
    requires
        origin.wf(),
        copied(origin, copy),
    ensures
        copy.wf(),
        copy@.is_clone_of(origin@),
{
    let list = origin.free_list();
    assert forall|k: int| 0 <= k < list.len() implies #[trigger] linked_at(
        copy.items@,
        list,
        k,
    ) by {
        assert(linked_at(origin.items@, list, k));
        assert(slot_cloned(slot_view(origin.items@[list[k]]), slot_view(copy.items@[list[k]])));
    }
    lemma_linked_unique(copy.items@, link(copy.free_list_head), list, copy.free_list());
    assert forall|p: int| 0 <= p < origin@.slots.len() implies slot_cloned(
        origin@.slots[p],
        #[trigger] copy@.slots[p],
    ) by {
        assert(slot_cloned(slot_view(origin.items@[p]), slot_view(copy.items@[p])));
    }
    lemma_clone_inv(origin@, copy@);
}

/// A copy of a slot: free with the same link, or a clone of the value under
/// the same stamp.
fn copy_entry<T: Clone>(entry: &Entry<T>) -> (r: Entry<T>)
    ensures
        next_of(r) == next_of(*entry),
        slot_cloned(slot_view(*entry), slot_view(r)),
{
    match entry {
        Entry::Free { next_free } => Entry::Free { next_free: *next_free },
        Entry::Occupied { generation, value } => Entry::Occupied {
            generation: *generation,
            value: value.clone(),
        },
    }
}

impl<T> View for Arena<T> {
    type V = ArenaView<T>;

    /// The slots without their links, the free list as the walk from the head
    /// along the links finds it, and the generation counter.
    closed spec fn view(&self) -> ArenaView<T> {
        ArenaView {
            slots: self.items@.map_values(|e: Entry<T>| slot_view(e)),
            free: self.free_list(),
            generation: self.generation as nat,
        }
    }
}

impl<T> Arena<T> {
    /// The positions that a walk from the head along the links visits.
    spec fn free_list(&self) -> Seq<int> {
        choose|list: Seq<int>| linked(self.items@, link(self.free_list_head), list)
    }

    /// The arena's state is consistent: a walk from the head along the links
    /// ends, and what it visits is the free list of a view that satisfies
    /// [`ArenaView::inv`].
    pub closed spec fn wf(&self) -> bool {
        &&& linked(self.items@, link(self.free_list_head), self.free_list())
        &&& self@.inv()
    }

    /// What a well-formed arena's view is known to satisfy: the model's
    /// invariant, and the limits of the machine.
    pub proof fn lemma_wf(&self)
        requires
            self.wf(),
        ensures
            self@.inv(),
            self@.capacity() <= usize::MAX,
            self@.generation <= u64::MAX,
    {
        assert(self.items.len() == self.items@.len());
    }

    /// An arena with [`DEFAULT_CAPACITY`] free slots.
    pub fn new() -> (arena: Arena<T>)
        ensures
            arena.wf(),
            arena@ == ArenaView::<T>::fresh(DEFAULT_CAPACITY as nat),
    {
        Arena::with_capacity(DEFAULT_CAPACITY)
    }

    /// An arena with `n` free slots, which insertion fills in increasing order
    /// of position. An arena starts with one slot at least.
    pub fn with_capacity(n: usize) -> (arena: Arena<T>)
        requires
            n > 0,
        ensures
            arena.wf(),
            arena@ == ArenaView::<T>::fresh(n as nat),
    {
        let mut arena = Arena { items: Vec::new(), generation: 0, free_list_head: None };
        proof {
            let empty = Seq::<int>::empty();
            assert(linked(arena.items@, link(arena.free_list_head), empty));
            lemma_linked_unique(
                arena.items@,
                link(arena.free_list_head),
                empty,
                arena.free_list(),
            );
            lemma_fresh_inv::<T>(0);
            assert(arena@ =~= ArenaView::<T>::fresh(0));
        }
        arena.reserve(n);
        assert(arena@ =~= ArenaView::<T>::fresh(n as nat));
        arena
    }

    /// Stores `value` in the first slot of the free list and returns its
    /// handle. Where no slot is free, gives `value` back and changes nothing.
    pub fn try_insert(&mut self, value: T) -> (r: Result<Index, T>)
        requires
            old(self).wf(),
        ensures
            final(self).wf(),
            final(self)@ == old(self)@.try_insert(value),
            final(self)@.capacity() == old(self)@.capacity(),
            match r {
                Ok(i) => old(self)@.issues(i) && final(self)@.lookup(i) == Some(value),
                Err(v) => old(self)@.free.len() == 0 && v == value && *final(self) == *old(
                    self,
                ),
            },
    {
        match self.free_list_head {
            None => Err(value),
            Some(i) => {
                assert(linked_at(old(self).items@, old(self).free_list(), 0));
                match self.items[i] {
                    Entry::Occupied { .. } => unreached(),
                    Entry::Free { next_free } => {
                        self.free_list_head = next_free;
                        self.items[i] = Entry::Occupied { generation: self.generation, value };
                        proof {
                            let list = old(self).free_list().drop_first();
                            assert forall|k: int| 0 <= k < list.len() implies #[trigger] linked_at(
                                self.items@,
                                list,
                                k,
                            ) by {
                                assert(linked_at(old(self).items@, old(self).free_list(), k + 1));
                                assert(old(self)@.free[k + 1] != old(self)@.free[0]);
                            }
                            lemma_linked_unique(
                                self.items@,
                                link(self.free_list_head),
                                list,
                                self.free_list(),
                            );
                            assert(self@ =~= old(self)@.try_insert(value));
                            lemma_try_insert_inv(old(self)@, value);
                        }
                        Ok(Index::new(i, self.generation))
                    },
                }
            },
        }
    }

    /// Stores `value` and returns its handle. Where no slot is free the arena
    /// first grows by as many slots as it has, and by one where it has none.
    pub fn insert(&mut self, value: T) -> (i: Index)
        requires
            old(self).wf(),
            old(self)@.free.len() == 0 ==> old(self)@.capacity() + old(self)@.growth()
                <= usize::MAX,
        ensures
            final(self).wf(),
            final(self)@ == old(self)@.insert(value),
            final(self)@.capacity() == old(self)@.with_room().capacity(),
            final(self)@.capacity() >= old(self)@.capacity(),
            old(self)@.with_room().issues(i),
            final(self)@.lookup(i) == Some(value),
    {
        match self.try_insert(value) {
            Ok(i) => i,
            Err(value) => {
                let len = self.items.len();
                self.reserve(if len == 0 { 1 } else { len });
                match self.try_insert(value) {
                    Ok(i) => i,
                    Err(_) => unreached(),
                }
            },
        }
    }

    /// Removes the value that `i` stands for and returns it. Where `i` stands
    /// for no value, because the value was removed before, nothing changes.
    ///
    /// The generation counter must not have run out: the removal advances it.
    pub fn remove(&mut self, i: Index) -> (r: Option<T>)
        requires
            old(self).wf(),
            i.position() < old(self)@.capacity(),
            old(self)@.contains(i) ==> old(self)@.generation < u64::MAX,
        ensures
            final(self).wf(),
            r == old(self)@.lookup(i),
            final(self)@ == old(self)@.remove(i),
            final(self)@.capacity() == old(self)@.capacity(),
            !final(self)@.contains(i),
            r is Some ==> final(self)@.stale(i),
    {
        let pos = i.slot();
        let mut entry = Entry::Free { next_free: self.free_list_head };
        core::mem::swap(&mut self.items[pos], &mut entry);
        match entry {
            Entry::Occupied { generation, value } => {
                if generation == i.stamp() {
                    self.generation += 1;
                    self.free_list_head = Some(pos);
                    proof {
                        let list = seq![pos as int] + old(self).free_list();
                        assert forall|k: int| 0 <= k < list.len() implies #[trigger] linked_at(
                            self.items@,
                            list,
                            k,
                        ) by {
                            if k > 0 {
                                assert(linked_at(old(self).items@, old(self).free_list(), k - 1));
                            }
                        }
                        lemma_linked_unique(
                            self.items@,
                            link(self.free_list_head),
                            list,
                            self.free_list(),
                        );
                        assert(self@ =~= old(self)@.remove(i));
                        lemma_remove_inv(old(self)@, i);
                    }
                    Some(value)
                } else {
                    self.items[pos] = Entry::Occupied { generation, value };
                    assert(self.items@ =~= old(self).items@);
                    None
                }
            },
            e => {
                self.items[pos] = e;
                assert(self.items@ =~= old(self).items@);
                None
            },
        }
    }

    /// Whether `i` still stands for a value.
    pub fn contains(&self, i: Index) -> (r: bool)
        requires
            i.position() < self@.capacity(),
        ensures
            r == self@.contains(i),
    {
        self.get(i).is_some()
    }

    /// The value that `i` stands for, if it still stands for one.
    pub fn get(&self, i: Index) -> (r: Option<&T>)
        requires
            i.position() < self@.capacity(),
        ensures
            match r {
                Some(value) => self@.lookup(i) == Some(*value),
                None => self@.lookup(i) is None,
            },
    {
        match &self.items[i.slot()] {
            Entry::Occupied { generation, value } if *generation == i.stamp() => Some(value),
            _ => None,
        }
    }

    /// The value that `i` stands for, if it still stands for one, to be
    /// changed in place. What is written through the result is the arena's
    /// value for `i` afterwards; nothing else changes.
    pub fn get_mut(&mut self, i: Index) -> (r: Option<&mut T>)
        requires
            old(self).wf(),
            i.position() < old(self)@.capacity(),
        ensures
            final(self).wf(),
            final(self)@.capacity() == old(self)@.capacity(),
            match r {
                Some(value) => old(self)@.lookup(i) == Some(*value) && final(self)@ == old(
                    self,
                )@.write(i, *final(value)),
                None => old(self)@.lookup(i) is None && final(self)@ == old(self)@,
            },
    {
        proof {
            lemma_untouched(*old(self), i.position() as int);
        }
        match &mut self.items[i.slot()] {
            Entry::Occupied { generation, value } => {
                if *generation == i.stamp() {
                    proof {
                        lemma_rewritten(*old(self), i, *final(value));
                    }
                    Some(value)
                } else {
                    None
                }
            },
            Entry::Free { .. } => None,
        }
    }

    /// The number of slots, free and occupied.
    pub fn capacity(&self) -> (n: usize)
        ensures
            n == self@.capacity(),
    {
        self.items.len()
    }

    /// The generation counter: the number of removals so far, and the stamp of
    /// the next value stored. A caller that cannot bound the number of removals
    /// beforehand learns from it whether one more is possible.
    pub fn generation(&self) -> (g: u64)
        ensures
            g == self@.generation,
    {
        self.generation
    }

    /// Appends `additional_capacity` free slots and puts them at the front of
    /// the free list, lowest position first. No handle changes its meaning.
    pub fn reserve(&mut self, additional_capacity: usize)
        requires
            old(self).wf(),
            old(self)@.capacity() + additional_capacity <= usize::MAX,
        ensures
            final(self).wf(),
            final(self)@ == old(self)@.reserve(additional_capacity as nat),
            final(self)@.capacity() == old(self)@.capacity() + additional_capacity,
            forall|i: Index| final(self)@.lookup(i) == old(self)@.lookup(i),
    {
        if additional_capacity == 0 {
            assert(self@ =~= old(self)@.reserve(0));
            return ;
        }
        let start = self.items.len();
        let end = start + additional_capacity;
        let old_head = self.free_list_head;
        self.items.reserve(additional_capacity);
        let mut i = start;
        while i < end
            invariant
                start <= i <= end,
                end == start + additional_capacity,
                start == old(self).items@.len(),
                self.items@.len() == i,
                self.generation == old(self).generation,
                self.free_list_head == old_head,
                old_head == old(self).free_list_head,
                forall|p: int| 0 <= p < start ==> self.items@[p] == old(self).items@[p],
                forall|p: int|
                    start <= p < i ==> self.items@[p] == (Entry::<T>::Free {
                        next_free: if p == end - 1 {
                            old_head
                        } else {
                            Some((p + 1) as usize)
                        },
                    }),
            decreases end - i,
        {
            if i == end - 1 {
                self.items.push(Entry::Free { next_free: old_head });
            } else {
                self.items.push(Entry::Free { next_free: Some(i + 1) });
            }
            i += 1;
        }
        self.free_list_head = Some(start);
        proof {
            lemma_extended(*old(self), *self, additional_capacity as nat);
        }
    }

    /// The slots of the arena, given up by it.
    pub(crate) fn into_items(self) -> (items: Vec<Entry<T>>)
        ensures
            items@.map_values(|e: Entry<T>| slot_view(e)) == self@.slots,
    {
        self.items
    }
}

impl<T: Clone> Clone for Arena<T> {
    /// A second arena, with a clone of each value in the slot where this arena
    /// holds the value: every handle of this arena stands for the clone there.
    fn clone(&self) -> (r: Self)
        ensures
            self.wf() ==> r.wf() && r@.is_clone_of(self@),
    {
        let mut items: Vec<Entry<T>> = Vec::new();
        let mut k: usize = 0;
        while k < self.items.len()
            invariant
                k <= self.items@.len(),
                items@.len() == k,
                forall|p: int|
                    0 <= p < k ==> next_of(#[trigger] items@[p]) == next_of(self.items@[p])
                        && slot_cloned(slot_view(self.items@[p]), slot_view(items@[p])),
            decreases self.items@.len() - k,
        {
            items.push(copy_entry(&self.items[k]));
            k += 1;
        }
        let r = Arena { items, generation: self.generation, free_list_head: self.free_list_head };
        proof {
            if self.wf() {
                lemma_copied(*self, r);
            }
        }
        r
    }
}

} // verus!
