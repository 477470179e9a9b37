//! What holds of every arena: the laws of the model, proved once and for all.

use vstd::prelude::*;
use vstd::set_lib::{
    lemma_int_range, lemma_set_disjoint_lens, lemma_set_union_finite_iff, set_int_range,
};
use crate::index::Index;
use crate::model::{ArenaView, Op, SlotView, slot_cloned, values_of};

verus! {

/// A new arena is consistent.
pub proof fn lemma_fresh_inv<T>(n: nat)
    ensures
        ArenaView::<T>::fresh(n).inv(),
{
    let a = ArenaView::<T>::fresh(n);
    assert forall|p: int| #[trigger] a.is_free(p) implies a.free.contains(p) by {
        assert(a.free[p] == p);
    }
}

/// Appending free slots keeps the arena consistent.
pub proof fn lemma_reserve_inv<T>(a: ArenaView<T>, additional: nat)
    requires
        a.inv(),
    ensures
        a.reserve(additional).inv(),
{
    let b = a.reserve(additional);
    let n = a.slots.len() as int;
    assert forall|k: int| 0 <= k < b.free.len() implies b.is_free(#[trigger] b.free[k]) by {
        if k >= additional {
            assert(a.is_free(a.free[k - additional]));
        }
    }
    assert forall|j: int, k: int|
        0 <= j < b.free.len() && 0 <= k < b.free.len() && j != k implies b.free[j]
        != b.free[k] by {
        if j >= additional {
            assert(a.is_free(a.free[j - additional]));
        }
        if k >= additional {
            assert(a.is_free(a.free[k - additional]));
        }
    }
    assert forall|p: int| #[trigger] b.is_free(p) implies b.free.contains(p) by {
        if p < n {
            assert(a.is_free(p));
            let k = a.free.index_of(p);
            assert(b.free[additional + k] == p);
        } else {
            assert(b.free[p - n] == p);
        }
    }
    assert forall|p: int| #[trigger] b.is_occupied(p) implies b.slots[p]->generation
        <= b.generation by {
        assert(a.is_occupied(p));
    }
}

/// Storing a value keeps the arena consistent.
pub proof fn lemma_try_insert_inv<T>(a: ArenaView<T>, value: T)
    requires
        a.inv(),
    ensures
        a.try_insert(value).inv(),
{
    let b = a.try_insert(value);
    if a.free.len() > 0 {
        let head = a.free[0];
        assert(a.is_free(head));
        assert forall|k: int| 0 <= k < b.free.len() implies b.is_free(#[trigger] b.free[k]) by {
            assert(a.is_free(a.free[k + 1]));
        }
        assert forall|p: int| #[trigger] b.is_free(p) implies b.free.contains(p) by {
            assert(a.is_free(p));
            let k = a.free.index_of(p);
            assert(b.free[k - 1] == p);
        }
        assert forall|p: int| #[trigger] b.is_occupied(p) implies b.slots[p]->generation
            <= b.generation by {
            if p != head {
                assert(a.is_occupied(p));
            }
        }
    }
}

/// Storing a value, with growth where the arena is full, keeps it consistent.
pub proof fn lemma_insert_inv<T>(a: ArenaView<T>, value: T)
    requires
        a.inv(),
    ensures
        a.with_room().inv(),
        a.with_room().free.len() > 0,
        a.insert(value).inv(),
{
    if a.free.len() == 0 {
        lemma_reserve_inv(a, a.growth());
    }
    lemma_try_insert_inv(a.with_room(), value);
}

/// Removing a value keeps the arena consistent.
pub proof fn lemma_remove_inv<T>(a: ArenaView<T>, i: Index)
    requires
        a.inv(),
    ensures
        a.remove(i).inv(),
{
    let b = a.remove(i);
    if a.contains(i) {
        let pos = i.position() as int;
        assert(a.is_occupied(pos));
        assert forall|k: int| 0 <= k < b.free.len() implies b.is_free(#[trigger] b.free[k]) by {
            if k > 0 {
                assert(a.is_free(a.free[k - 1]));
            }
        }
        assert forall|j: int, k: int|
            0 <= j < b.free.len() && 0 <= k < b.free.len() && j != k implies b.free[j]
            != b.free[k] by {
            if j > 0 {
                assert(a.is_free(a.free[j - 1]));
            }
            if k > 0 {
                assert(a.is_free(a.free[k - 1]));
            }
        }
        assert forall|p: int| #[trigger] b.is_free(p) implies b.free.contains(p) by {
            if p == pos {
                assert(b.free[0] == p);
            } else {
                assert(a.is_free(p));
                let k = a.free.index_of(p);
                assert(b.free[k + 1] == p);
            }
        }
        assert forall|p: int| #[trigger] b.is_occupied(p) implies b.slots[p]->generation
            <= b.generation by {
            assert(a.is_occupied(p));
        }
    }
}

/// Replacing a stored value keeps the arena consistent.
pub proof fn lemma_write_inv<T>(a: ArenaView<T>, i: Index, value: T)
    requires
        a.inv(),
    ensures
        a.write(i, value).inv(),
{
    let b = a.write(i, value);
    if a.contains(i) {
        let pos = i.position() as int;
        assert(a.is_occupied(pos));
        assert forall|k: int| 0 <= k < b.free.len() implies b.is_free(#[trigger] b.free[k]) by {
            assert(a.is_free(a.free[k]));
        }
        assert forall|p: int| #[trigger] b.is_free(p) implies b.free.contains(p) by {
            assert(a.is_free(p));
        }
        assert forall|p: int| #[trigger] b.is_occupied(p) implies b.slots[p]->generation
            <= b.generation by {
            assert(a.is_occupied(p));
        }
    }
}

/// A copy of a consistent arena is consistent, and a handle stands for a value
/// in the copy exactly when it stands for one in the arena copied, of which
/// the copy then holds a clone.
pub proof fn lemma_clone_inv<T: Clone>(a: ArenaView<T>, b: ArenaView<T>)
    requires
        a.inv(),
        b.is_clone_of(a),
    ensures
        b.inv(),
        forall|i: Index| b.contains(i) == a.contains(i),
        forall|i: Index| a.contains(i) ==> cloned(a.lookup(i)->0, b.lookup(i)->0),
{
    assert forall|p: int| b.is_free(p) == a.is_free(p) by {
        if 0 <= p < a.slots.len() {
            assert(slot_cloned(a.slots[p], b.slots[p]));
        }
    }
    assert forall|p: int| #[trigger] b.is_occupied(p) implies b.slots[p]->generation
        <= b.generation by {
        assert(slot_cloned(a.slots[p], b.slots[p]));
        assert(a.is_occupied(p));
    }
    assert forall|k: int| 0 <= k < b.free.len() implies b.is_free(#[trigger] b.free[k]) by {
        assert(a.is_free(a.free[k]));
    }
    assert forall|p: int| #[trigger] b.is_free(p) implies b.free.contains(p) by {
        assert(a.is_free(p));
    }
    assert forall|i: Index| b.contains(i) == a.contains(i) && (a.contains(i) ==> cloned(
        a.lookup(i)->0,
        b.lookup(i)->0,
    )) by {
        let p = i.position() as int;
        if 0 <= p < a.slots.len() {
            assert(slot_cloned(a.slots[p], b.slots[p]));
        }
    }
}

/// Whatever is done to a consistent arena, it stays consistent.
pub proof fn lemma_apply_inv<T>(a: ArenaView<T>, op: Op<T>)
    requires
        a.inv(),
    ensures
        a.apply(op).inv(),
{
    match op {
        Op::TryInsert(value) => lemma_try_insert_inv(a, value),
        Op::Insert(value) => lemma_insert_inv(a, value),
        Op::Remove(i) => lemma_remove_inv(a, i),
        Op::Reserve(additional) => lemma_reserve_inv(a, additional),
        Op::Write(i, value) => lemma_write_inv(a, i, value),
    }
}

/// What one call can do: no slot is lost, a free slot gets a value only by an
/// insertion and only at the head of the free list, a value leaves its slot
/// only by the removal of its handle, and the generation advances by one with
/// each removal that finds its value, and with nothing else.
pub proof fn lemma_apply_effects<T>(a: ArenaView<T>, op: Op<T>, p: int)
    requires
        a.inv(),
    ensures
        0 <= p < a.capacity() ==> p < a.apply(op).capacity(),
        a.is_free(p) && !a.apply(op).is_free(p) ==> (op is Insert || op is TryInsert)
            && a.with_room().free[0] == p,
        a.is_occupied(p) && !a.apply(op).is_occupied(p) ==> op is Remove && a.contains(
            op->Remove_0,
        ) && op->Remove_0.position() == p,
        a.apply(op).generation == a.generation + (if op is Remove && a.contains(op->Remove_0) {
            1nat
        } else {
            0nat
        }),
{
    match op {
        Op::TryInsert(value) => {
            if a.free.len() > 0 {
                assert(a.is_free(a.free[0]));
            }
        },
        Op::Insert(value) => {
            lemma_insert_inv(a, value);
            assert(a.with_room().is_free(a.with_room().free[0]));
        },
        Op::Remove(i) => {},
        Op::Reserve(additional) => {},
        Op::Write(i, value) => {},
    }
}

/// After any sequence of calls a consistent arena is consistent.
pub proof fn lemma_apply_all_inv<T>(a: ArenaView<T>, ops: Seq<Op<T>>)
    requires
        a.inv(),
    ensures
        a.apply_all(ops).inv(),
    decreases ops.len(),
{
    if ops.len() > 0 {
        lemma_apply_all_inv(a, ops.drop_last());
        lemma_apply_inv(a.apply_all(ops.drop_last()), ops.last());
    }
}

/// In a consistent arena the free list is as long as there are slots without
/// a value: its length and the number of stored values add up to the capacity.
pub proof fn lemma_free_list_counts_free_slots<T>(a: ArenaView<T>)
    requires
        a.inv(),
    ensures
        a.free.len() + a.live() == a.capacity(),
        forall|p: int| a.free.contains(p) <==> a.is_free(p),
{
    let free = a.free.to_set();
    let occupied = Set::new(|p: int| a.is_occupied(p));
    let all = set_int_range(0, a.slots.len() as int);
    assert forall|p: int| a.free.contains(p) implies a.is_free(p) by {
        let k = a.free.index_of(p);
        assert(a.is_free(a.free[k]));
    }
    assert forall|p: int| free.contains(p) <==> a.is_free(p) by {
        if a.is_free(p) {
            assert(a.free.contains(p));
        }
    }
    assert(free + occupied =~= all);
    assert(free.disjoint(occupied));
    lemma_int_range(0, a.slots.len() as int);
    lemma_set_union_finite_iff(free, occupied);
    lemma_set_disjoint_lens(free, occupied);
    a.free.unique_seq_to_set();
}

/// Free-list integrity: after any sequence of calls on a consistent arena, the
/// free list holds each free slot once and nothing else, so that its length is
/// the capacity less the number of stored values.
pub proof fn lemma_free_list_integrity<T>(a: ArenaView<T>, ops: Seq<Op<T>>)
    requires
        a.inv(),
    ensures
        a.apply_all(ops).free.no_duplicates(),
        forall|p: int| a.apply_all(ops).free.contains(p) <==> a.apply_all(ops).is_free(p),
        a.apply_all(ops).free.len() == a.apply_all(ops).capacity() - a.apply_all(ops).live(),
{
    lemma_apply_all_inv(a, ops);
    lemma_free_list_counts_free_slots(a.apply_all(ops));
}

/// The occupied slots among those of `slots` from position `from` on.
spec fn occupied_from<T>(slots: Seq<SlotView<T>>, from: int) -> Set<int> {
    Set::new(|p: int| from <= p < slots.len() && slots[p] is Occupied)
}

/// From any position on, there are as many values as occupied slots.
proof fn lemma_values_count_from<T>(slots: Seq<SlotView<T>>, from: int)
    requires
        0 <= from <= slots.len(),
    ensures
        occupied_from(slots, from).finite(),
        values_of(slots.subrange(from, slots.len() as int)).len() == occupied_from(
            slots,
            from,
        ).len(),
    decreases slots.len() - from,
{
    let rest = slots.subrange(from, slots.len() as int);
    if from == slots.len() {
        assert(occupied_from(slots, from) =~= Set::empty());
    } else {
        lemma_values_count_from(slots, from + 1);
        assert(rest.drop_first() =~= slots.subrange(from + 1, slots.len() as int));
        if slots[from] is Occupied {
            assert(occupied_from(slots, from) =~= occupied_from(slots, from + 1).insert(from));
        } else {
            assert(occupied_from(slots, from) =~= occupied_from(slots, from + 1));
        }
    }
}

/// Taking an arena apart gives as many values as it holds.
pub proof fn lemma_values_count<T>(a: ArenaView<T>)
    ensures
        a.values().len() == a.live(),
{
    lemma_values_count_from(a.slots, 0);
    assert(a.slots.subrange(0, a.slots.len() as int) =~= a.slots);
    assert(occupied_from(a.slots, 0) =~= Set::new(|p: int| a.is_occupied(p)));
}

/// Round trip: the handle that an insertion returns stands for the value that
/// was stored.
pub proof fn lemma_insert_then_get<T>(a: ArenaView<T>, value: T, i: Index)
    requires
        a.inv(),
        a.with_room().issues(i),
    ensures
        a.insert(value).lookup(i) == Some(value),
        a.insert(value).contains(i),
{
    lemma_insert_inv(a, value);
    assert(a.with_room().is_free(a.with_room().free[0]));
}

/// No call gives a stale handle a meaning again.
pub proof fn lemma_apply_stale<T>(a: ArenaView<T>, i: Index, op: Op<T>)
    requires
        a.inv(),
        a.stale(i),
    ensures
        a.apply(op).stale(i),
{
    match op {
        Op::TryInsert(value) => {
            if a.free.len() > 0 {
                assert(a.is_free(a.free[0]));
            }
        },
        Op::Insert(value) => {
            let b = a.with_room();
            lemma_insert_inv(a, value);
            assert(b.stale(i));
            assert(b.is_free(b.free[0]));
        },
        Op::Remove(j) => {},
        Op::Reserve(additional) => {},
        Op::Write(j, value) => {},
    }
}

/// A handle that is stale stays stale, whatever is done to the arena.
pub proof fn lemma_apply_all_stale<T>(a: ArenaView<T>, i: Index, ops: Seq<Op<T>>)
    requires
        a.inv(),
        a.stale(i),
    ensures
        a.apply_all(ops).stale(i),
    decreases ops.len(),
{
    if ops.len() > 0 {
        lemma_apply_all_stale(a, i, ops.drop_last());
        lemma_apply_all_inv(a, ops.drop_last());
        lemma_apply_stale(a.apply_all(ops.drop_last()), i, ops.last());
    }
}

/// Invalidation on removal: once the value that `i` stands for has been
/// removed, `i` stands for nothing, and whatever calls follow, it never will:
/// looking it up finds nothing and removing it again changes nothing, also
/// where its slot holds a new value.
pub proof fn lemma_removed_is_gone_for_good<T>(a: ArenaView<T>, i: Index, ops: Seq<Op<T>>)
    requires
        a.inv(),
        a.contains(i),
    ensures
        a.remove(i).stale(i),
        a.remove(i).apply_all(ops).lookup(i) is None,
        !a.remove(i).apply_all(ops).contains(i),
        a.remove(i).apply_all(ops).remove(i) == a.remove(i).apply_all(ops),
{
    assert(a.is_occupied(i.position() as int));
    lemma_remove_inv(a, i);
    lemma_apply_all_stale(a.remove(i), i, ops);
}

/// No false positive after reuse: store a value, remove it, store another.
/// The second handle points at the slot of the first and bears a later
/// generation; the first stands for nothing and the second for the second
/// value.
pub proof fn lemma_reuse_gives_new_handle<T>(
    a: ArenaView<T>,
    first: T,
    second: T,
    i1: Index,
    i2: Index,
)
    requires
        a.inv(),
        a.with_room().issues(i1),
        a.insert(first).remove(i1).with_room().issues(i2),
    ensures
        i2.position() == i1.position(),
        i2.generation() > i1.generation(),
        i1 != i2,
        a.insert(first).remove(i1).insert(second).lookup(i1) is None,
        a.insert(first).remove(i1).insert(second).lookup(i2) == Some(second),
{
    lemma_insert_then_get(a, first, i1);
    lemma_insert_inv(a, first);
    let b = a.insert(first);
    lemma_remove_inv(b, i1);
    let c = b.remove(i1);
    lemma_insert_then_get(c, second, i2);
}

/// Capacity never decreases, whatever is done to the arena.
pub proof fn lemma_capacity_never_decreases<T>(a: ArenaView<T>, ops: Seq<Op<T>>)
    requires
        a.inv(),
    ensures
        a.apply_all(ops).capacity() >= a.capacity(),
    decreases ops.len(),
{
    if ops.len() > 0 {
        lemma_capacity_never_decreases(a, ops.drop_last());
        lemma_apply_all_inv(a, ops.drop_last());
        let b = a.apply_all(ops.drop_last());
        match ops.last() {
            Op::TryInsert(value) => {
                if b.free.len() > 0 {
                    assert(b.is_free(b.free[0]));
                }
            },
            Op::Insert(value) => {
                lemma_insert_inv(b, value);
                assert(b.with_room().capacity() >= b.capacity());
                assert(b.with_room().is_free(b.with_room().free[0]));
            },
            Op::Remove(i) => {},
            Op::Reserve(additional) => {},
            Op::Write(i, value) => {},
        }
    }
}

/// A reservation adds exactly the slots asked for.
pub proof fn lemma_reserve_capacity<T>(a: ArenaView<T>, additional: nat)
    ensures
        a.reserve(additional).capacity() == a.capacity() + additional,
{
}

/// Filling a new arena: the first `n` insertions use up its `n` slots, lowest
/// position first, without growth.
pub proof fn lemma_fill<T>(n: nat, values: Seq<T>)
    requires
        values.len() <= n,
    ensures
        ArenaView::<T>::fresh(n).insert_all(values).capacity() == n,
        ArenaView::<T>::fresh(n).insert_all(values).generation == 0,
        ArenaView::<T>::fresh(n).insert_all(values).free == Seq::new(
            (n - values.len()) as nat,
            |k: int| values.len() + k,
        ),
    decreases values.len(),
{
    let a = ArenaView::<T>::fresh(n);
    if values.len() == 0 {
        assert(a.free =~= Seq::new(n, |k: int| 0 + k));
    } else {
        lemma_fill::<T>(n, values.drop_last());
        let b = a.insert_all(values.drop_last());
        assert(b.free.len() > 0);
        assert(b.insert(values.last()).free =~= Seq::new(
            (n - values.len()) as nat,
            |k: int| values.len() + k,
        ));
    }
}

/// Growth happens once: of `n + 1` insertions into a new arena of `n` slots
/// the first `n` leave the capacity at `n`, and the last doubles it.
pub proof fn lemma_fill_then_grow_once<T>(n: nat, values: Seq<T>)
    requires
        n > 0,
        values.len() == n + 1,
    ensures
        forall|k: int|
            0 <= k <= n ==> (#[trigger] ArenaView::<T>::fresh(n).insert_all(
                values.take(k),
            )).capacity() == n,
        ArenaView::<T>::fresh(n).insert_all(values).capacity() == 2 * n,
{
    assert forall|k: int| 0 <= k <= n implies (#[trigger] ArenaView::<T>::fresh(n).insert_all(
        values.take(k),
    )).capacity() == n by {
        lemma_fill::<T>(n, values.take(k));
    }
    lemma_fill::<T>(n, values.drop_last());
}

} // verus!
