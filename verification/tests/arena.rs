use generational_arena::{Arena, Index};

fn show(i: Index) -> String {
    format!("{:?}", i)
}

fn handle(position: usize, generation: u64) -> String {
    format!("Index {{ index: {}, generation: {} }}", position, generation)
}

#[test]
fn new_has_four_slots() {
    let arena: Arena<u8> = Arena::new();
    assert_eq!(arena.capacity(), 4);
}

#[test]
fn with_capacity_has_that_many_slots() {
    let arena: Arena<u8> = Arena::with_capacity(7);
    assert_eq!(arena.capacity(), 7);
}

#[test]
fn new_arena_fills_slots_in_order_of_position() {
    let mut arena = Arena::new();
    for position in 0..4 {
        let i = arena.try_insert(position).unwrap();
        assert_eq!(show(i), handle(position, 0));
    }
    assert_eq!(arena.try_insert(4), Err(4));
}

#[test]
fn insert_then_get_round_trip() {
    let mut arena = Arena::new();
    let a = arena.insert(String::from("a"));
    let b = arena.insert(String::from("b"));
    assert_eq!(arena.get(a), Some(&String::from("a")));
    assert_eq!(arena.get(b), Some(&String::from("b")));
    assert!(arena.contains(a));
    assert!(arena.contains(b));
    assert_ne!(a, b);
}

#[test]
fn try_insert_then_get_round_trip() {
    let mut arena = Arena::with_capacity(2);
    let a = arena.try_insert(1.5_f64).unwrap();
    let b = arena.try_insert(2.5_f64).unwrap();
    assert_eq!(arena.get(a), Some(&1.5));
    assert_eq!(arena.get(b), Some(&2.5));
}

#[test]
fn growth_then_reuse_of_a_slot() {
    let mut arena = Arena::with_capacity(1);
    let a = arena.insert(10);
    assert_eq!(show(a), handle(0, 0));
    assert_eq!(arena.capacity(), 1);
    let b = arena.insert(20);
    assert_eq!(arena.capacity(), 2);
    assert_eq!(show(b), handle(1, 0));
    assert_eq!(arena.get(a), Some(&10));
    assert_eq!(arena.remove(a), Some(10));
    assert_eq!(arena.get(a), None);
    let c = arena.insert(30);
    assert_eq!(show(c), handle(0, 1));
    assert_eq!(arena.get(a), None);
    assert_eq!(arena.get(c), Some(&30));
    assert_eq!(arena.get(b), Some(&20));
    assert_eq!(arena.capacity(), 2);
}

#[test]
fn try_insert_on_full_arena_gives_value_back() {
    let mut arena = Arena::with_capacity(1);
    let a = arena.try_insert(String::from("kept")).unwrap();
    assert_eq!(arena.try_insert(String::from("offered")), Err(String::from("offered")));
    assert_eq!(arena.capacity(), 1);
    assert_eq!(arena.get(a), Some(&String::from("kept")));
    assert!(arena.contains(a));
}

#[test]
fn removed_handle_reports_absent_everywhere() {
    let mut arena = Arena::new();
    let a = arena.insert(5);
    assert_eq!(arena.remove(a), Some(5));
    assert_eq!(arena.get(a), None);
    assert_eq!(arena.get_mut(a), None);
    assert!(!arena.contains(a));
    assert_eq!(arena.remove(a), None);
}

#[test]
fn removed_handle_stays_absent_after_slot_is_reused() {
    let mut arena = Arena::with_capacity(1);
    let a = arena.insert(5);
    assert_eq!(arena.remove(a), Some(5));
    let b = arena.insert(6);
    assert_eq!(show(b), handle(0, 1));
    assert_eq!(arena.get(a), None);
    assert_eq!(arena.get_mut(a), None);
    assert!(!arena.contains(a));
    assert_eq!(arena.remove(a), None);
    assert_eq!(arena.get(b), Some(&6));
    assert_eq!(arena.capacity(), 1);
}

#[test]
fn second_remove_changes_nothing() {
    let mut arena = Arena::with_capacity(2);
    let a = arena.insert(1);
    let b = arena.insert(2);
    assert_eq!(arena.remove(a), Some(1));
    assert_eq!(arena.remove(a), None);
    // One removal only: the next value is stamped with generation 1, and the
    // slot of `a` is handed out once.
    let c = arena.try_insert(3).unwrap();
    assert_eq!(show(c), handle(0, 1));
    assert_eq!(arena.try_insert(4), Err(4));
    assert_eq!(arena.get(b), Some(&2));
}

#[test]
fn stale_remove_leaves_new_tenant_alone() {
    let mut arena = Arena::with_capacity(1);
    let a = arena.insert(String::from("first"));
    assert_eq!(arena.remove(a), Some(String::from("first")));
    let b = arena.insert(String::from("second"));
    assert_eq!(arena.remove(a), None);
    assert_eq!(arena.get(b), Some(&String::from("second")));
    // The failed removal did not advance the generation.
    assert_eq!(arena.remove(b), Some(String::from("second")));
    let c = arena.insert(String::from("third"));
    assert_eq!(show(c), handle(0, 2));
}

#[test]
fn reuse_gives_a_different_handle_for_the_same_slot() {
    let mut arena = Arena::new();
    let i1 = arena.insert('A');
    assert_eq!(arena.remove(i1), Some('A'));
    let i2 = arena.insert('B');
    assert_eq!(show(i1), handle(0, 0));
    assert_eq!(show(i2), handle(0, 1));
    assert_ne!(i1, i2);
    assert!(i1 < i2);
    assert_eq!(arena.get(i1), None);
    assert_eq!(arena.get(i2), Some(&'B'));
}

#[test]
fn generation_advances_on_removal_only() {
    let mut arena = Arena::new();
    let a = arena.insert(0);
    let b = arena.insert(1);
    let c = arena.insert(2);
    assert_eq!(show(a), handle(0, 0));
    assert_eq!(show(b), handle(1, 0));
    assert_eq!(show(c), handle(2, 0));
    assert_eq!(arena.remove(b), Some(1));
    assert_eq!(arena.remove(a), Some(0));
    let d = arena.insert(3);
    let e = arena.insert(4);
    let f = arena.insert(5);
    // Freed slots come back last freed first, then the untouched slot 3.
    assert_eq!(show(d), handle(0, 2));
    assert_eq!(show(e), handle(1, 2));
    assert_eq!(show(f), handle(3, 2));
    assert_eq!(arena.get(c), Some(&2));
}

#[test]
fn get_mut_changes_the_value_in_place() {
    let mut arena = Arena::new();
    let a = arena.insert(vec![1]);
    let b = arena.insert(vec![9]);
    arena.get_mut(a).unwrap().push(2);
    assert_eq!(arena.get(a), Some(&vec![1, 2]));
    assert_eq!(arena.get(b), Some(&vec![9]));
    *arena.get_mut(b).unwrap() = vec![];
    assert_eq!(arena.get(b), Some(&vec![]));
    assert_eq!(arena.capacity(), 4);
    // Writing is no removal: the next handle still bears generation 0.
    let c = arena.insert(vec![3]);
    assert_eq!(show(c), handle(2, 0));
}

#[test]
fn get_mut_on_free_slot_is_absent() {
    let mut arena: Arena<u8> = Arena::with_capacity(2);
    let a = arena.insert(1);
    assert_eq!(arena.remove(a), Some(1));
    assert_eq!(arena.get_mut(a), None);
    assert_eq!(arena.get(a), None);
}

#[test]
fn contains_agrees_with_get() {
    let mut arena = Arena::with_capacity(3);
    let a = arena.insert(1);
    let b = arena.insert(2);
    assert_eq!(arena.remove(a), Some(1));
    let c = arena.insert(3);
    for i in [a, b, c] {
        assert_eq!(arena.contains(i), arena.get(i).is_some());
    }
    assert!(!arena.contains(a));
    assert!(arena.contains(b));
    assert!(arena.contains(c));
}

#[test]
fn capacity_counts_slots_not_values() {
    let mut arena = Arena::with_capacity(3);
    assert_eq!(arena.capacity(), 3);
    let a = arena.insert(1);
    assert_eq!(arena.capacity(), 3);
    assert_eq!(arena.remove(a), Some(1));
    assert_eq!(arena.capacity(), 3);
}

#[test]
fn reserve_adds_exactly_the_slots_asked_for() {
    let mut arena: Arena<u8> = Arena::with_capacity(2);
    arena.reserve(5);
    assert_eq!(arena.capacity(), 7);
    arena.reserve(1);
    assert_eq!(arena.capacity(), 8);
}

#[test]
fn reserve_of_nothing_changes_nothing() {
    let mut arena = Arena::with_capacity(1);
    let a = arena.insert(1);
    arena.reserve(0);
    assert_eq!(arena.capacity(), 1);
    assert_eq!(arena.get(a), Some(&1));
    assert_eq!(arena.try_insert(2), Err(2));
    let b = arena.insert(2);
    assert_eq!(show(b), handle(1, 0));
    assert_eq!(arena.capacity(), 2);
}

#[test]
fn reserve_of_nothing_keeps_the_free_list() {
    let mut arena = Arena::with_capacity(2);
    arena.reserve(0);
    assert_eq!(arena.capacity(), 2);
    let a = arena.try_insert(1).unwrap();
    let b = arena.try_insert(2).unwrap();
    assert_eq!(show(a), handle(0, 0));
    assert_eq!(show(b), handle(1, 0));
    assert_eq!(arena.try_insert(3), Err(3));
}

#[test]
fn reserved_slots_are_used_first_and_in_order() {
    let mut arena = Arena::with_capacity(2);
    let a = arena.insert(10);
    arena.reserve(3);
    assert_eq!(arena.capacity(), 5);
    let order: Vec<String> = (0..4).map(|v| show(arena.try_insert(v).unwrap())).collect();
    assert_eq!(order, vec![handle(2, 0), handle(3, 0), handle(4, 0), handle(1, 0)]);
    assert_eq!(arena.try_insert(99), Err(99));
    assert_eq!(arena.get(a), Some(&10));
}

#[test]
fn reserve_keeps_every_handle_valid() {
    let mut arena = Arena::with_capacity(2);
    let a = arena.insert(1);
    let b = arena.insert(2);
    assert_eq!(arena.remove(a), Some(1));
    arena.reserve(4);
    assert_eq!(arena.get(a), None);
    assert_eq!(arena.get(b), Some(&2));
    // No removal happened: the generation is still 1.
    let c = arena.insert(3);
    assert_eq!(show(c), handle(2, 1));
}

#[test]
fn insert_doubles_a_full_arena() {
    let mut arena = Arena::with_capacity(1);
    let mut capacities = Vec::new();
    for v in 0..9 {
        arena.insert(v);
        capacities.push(arena.capacity());
    }
    assert_eq!(capacities, vec![1, 2, 4, 4, 8, 8, 8, 8, 16]);
}

#[test]
fn one_more_insert_than_capacity_grows_once() {
    for n in 1..6 {
        let mut arena = Arena::with_capacity(n);
        let mut handles = Vec::new();
        for v in 0..n {
            handles.push(arena.insert(v));
            assert_eq!(arena.capacity(), n);
        }
        handles.push(arena.insert(n));
        assert_eq!(arena.capacity(), 2 * n);
        for (v, i) in handles.iter().enumerate() {
            assert_eq!(arena.get(*i), Some(&v));
        }
    }
}

#[test]
fn capacity_never_decreases() {
    let mut arena = Arena::with_capacity(2);
    let mut last = arena.capacity();
    let mut held: Vec<(Index, u32)> = Vec::new();
    for round in 0..30u32 {
        if round % 3 == 2 {
            let (i, v) = held.remove(0);
            assert_eq!(arena.remove(i), Some(v));
        } else {
            held.push((arena.insert(round), round));
        }
        if round == 10 {
            arena.reserve(3);
        }
        assert!(arena.capacity() >= last);
        last = arena.capacity();
    }
    assert_eq!(last, 11);
    for (i, v) in held {
        assert_eq!(arena.get(i), Some(&v));
    }
}

#[test]
fn free_slots_are_capacity_less_live_values() {
    let mut arena = Arena::with_capacity(3);
    let a = arena.insert(0);
    let b = arena.insert(1);
    let _c = arena.insert(2);
    let _d = arena.insert(3);
    assert_eq!(arena.remove(b), Some(1));
    arena.reserve(2);
    assert_eq!(arena.remove(a), Some(0));
    // Eight slots, two values: six insertions fit, the seventh does not, and
    // no slot is handed out twice.
    assert_eq!(arena.capacity(), 8);
    let mut given = Vec::new();
    for v in 10..16 {
        given.push(show(arena.try_insert(v).unwrap()));
    }
    assert_eq!(arena.try_insert(16), Err(16));
    assert_eq!(
        given,
        vec![handle(0, 2), handle(6, 2), handle(7, 2), handle(1, 2), handle(4, 2), handle(5, 2)]
    );
    assert_eq!(arena.capacity(), 8);
}

#[test]
fn clone_is_independent() {
    let mut arena = Arena::with_capacity(2);
    let a = arena.insert(String::from("a"));
    let mut copy = arena.clone();
    assert_eq!(copy.remove(a), Some(String::from("a")));
    assert_eq!(arena.get(a), Some(&String::from("a")));
    assert_eq!(copy.get(a), None);
    let b = copy.insert(String::from("b"));
    assert_eq!(show(b), handle(0, 1));
    let c = arena.insert(String::from("c"));
    assert_eq!(show(c), handle(1, 0));
}

#[test]
fn generation_counts_removals_that_found_a_value() {
    let mut arena = Arena::new();
    assert_eq!(arena.generation(), 0);
    let a = arena.insert(1);
    let b = arena.insert(2);
    assert_eq!(arena.generation(), 0);
    assert_eq!(arena.remove(a), Some(1));
    assert_eq!(arena.generation(), 1);
    assert_eq!(arena.remove(a), None);
    assert_eq!(arena.generation(), 1);
    arena.reserve(2);
    *arena.get_mut(b).unwrap() = 3;
    assert_eq!(arena.generation(), 1);
    assert_eq!(arena.remove(b), Some(3));
    assert_eq!(arena.generation(), 2);
    let c = arena.insert(4);
    assert_eq!(show(c), handle(1, 2));
}
