use generational_arena::{Arena, IntoIter};

#[test]
fn into_iter_yields_live_values_in_order_of_position() {
    let mut arena = Arena::with_capacity(2);
    let a = arena.insert("a");
    let _b = arena.insert("b");
    let c = arena.insert("c");
    let _d = arena.insert("d");
    let _e = arena.insert("e");
    assert_eq!(arena.remove(c), Some("c"));
    assert_eq!(arena.remove(a), Some("a"));
    let _f = arena.insert("f");
    assert_eq!(arena.capacity(), 8);
    let values: Vec<&str> = arena.into_iter().collect();
    assert_eq!(values, vec!["f", "b", "d", "e"]);
}

#[test]
fn into_iter_of_empty_arena_yields_nothing() {
    let arena: Arena<String> = Arena::new();
    let mut values = arena.into_iter();
    assert_eq!(values.next(), None);
    assert_eq!(values.next(), None);
}

#[test]
fn into_iter_skips_slots_freed_again() {
    let mut arena = Arena::new();
    let handles: Vec<_> = (0..4).map(|v| arena.insert(v)).collect();
    for i in handles {
        assert!(arena.remove(i).is_some());
    }
    assert_eq!(arena.into_iter().count(), 0);
}

#[test]
fn next_gives_each_value_once_and_then_none() {
    let mut arena = Arena::with_capacity(3);
    arena.insert(String::from("x"));
    let y = arena.insert(String::from("y"));
    arena.insert(String::from("z"));
    assert_eq!(arena.remove(y), Some(String::from("y")));
    let mut values: IntoIter<String> = arena.into_iter();
    assert_eq!(values.next(), Some(String::from("x")));
    assert_eq!(values.next(), Some(String::from("z")));
    assert_eq!(values.next(), None);
    assert_eq!(values.next(), None);
}

#[test]
fn for_loop_consumes_the_arena() {
    let mut arena = Arena::new();
    arena.insert(1);
    arena.insert(2);
    arena.insert(3);
    let mut sum = 0;
    for v in arena {
        sum += v;
    }
    assert_eq!(sum, 6);
}

#[test]
fn into_iter_sees_values_written_through_get_mut() {
    let mut arena = Arena::new();
    let a = arena.insert(1);
    arena.insert(2);
    *arena.get_mut(a).unwrap() = 10;
    assert_eq!(arena.into_iter().collect::<Vec<_>>(), vec![10, 2]);
}

#[test]
fn into_iter_yields_as_many_values_as_are_live() {
    let mut arena = Arena::with_capacity(4);
    let handles: Vec<_> = (0..10).map(|v| arena.insert(v)).collect();
    for i in handles.iter().step_by(3) {
        assert!(arena.remove(*i).is_some());
    }
    // Ten stored, four removed (0, 3, 6, 9), sixteen slots.
    assert_eq!(arena.capacity(), 16);
    let live = handles.iter().filter(|i| arena.contains(**i)).count();
    assert_eq!(live, 6);
    assert_eq!(arena.into_iter().collect::<Vec<_>>(), vec![1, 2, 4, 5, 7, 8]);
}
