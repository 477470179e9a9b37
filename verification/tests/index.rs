use generational_arena::{Arena, Index};
use std::cmp::Ordering;
use std::collections::{BTreeSet, HashMap, HashSet};

// Handles (0, 0), (1, 0) and (0, 1), in that order.
fn three_handles() -> (Index, Index, Index) {
    let mut arena = Arena::with_capacity(2);
    let first = arena.insert(0);
    let second = arena.insert(1);
    assert_eq!(arena.remove(first), Some(0));
    let third = arena.insert(2);
    (first, second, third)
}

#[test]
fn index_is_copy_and_equal_to_its_copy() {
    let (first, second, third) = three_handles();
    let copy = first;
    assert_eq!(copy, first);
    assert_eq!(first.clone(), first);
    assert_ne!(first, second);
    assert_ne!(first, third);
    assert_ne!(second, third);
}

#[test]
fn index_orders_by_position_then_generation() {
    let (first, second, third) = three_handles();
    // (0, 0) < (0, 1) < (1, 0)
    assert!(first < third);
    assert!(third < second);
    assert!(first < second);
    assert!(second > third);
    assert!(first <= first);
    assert!(first >= first);
    assert_eq!(first.partial_cmp(&third), Some(Ordering::Less));
    assert_eq!(second.partial_cmp(&third), Some(Ordering::Greater));
    assert_eq!(third.partial_cmp(&third), Some(Ordering::Equal));
}

#[test]
fn index_total_order_agrees_with_partial_order() {
    let (first, second, third) = three_handles();
    for a in [first, second, third] {
        for b in [first, second, third] {
            assert_eq!(a.partial_cmp(&b), Some(a.cmp(&b)));
            assert_eq!(a == b, a.cmp(&b) == Ordering::Equal);
        }
    }
    let mut sorted = vec![second, third, first];
    sorted.sort();
    assert_eq!(sorted, vec![first, third, second]);
}

#[test]
fn index_is_a_set_and_map_key() {
    let (first, second, third) = three_handles();
    let mut names = HashMap::new();
    names.insert(first, "first");
    names.insert(second, "second");
    names.insert(third, "third");
    names.insert(first, "first again");
    assert_eq!(names.len(), 3);
    assert_eq!(names[&first], "first again");
    assert_eq!(names[&third], "third");
    let hashed: HashSet<Index> = [first, first, second].into_iter().collect();
    assert_eq!(hashed.len(), 2);
    let ordered: BTreeSet<Index> = [second, third, first, third].into_iter().collect();
    assert_eq!(ordered.into_iter().collect::<Vec<_>>(), vec![first, third, second]);
}

#[test]
fn index_debug_shows_both_parts() {
    let (_, _, third) = three_handles();
    assert_eq!(format!("{:?}", third), "Index { index: 0, generation: 1 }");
}
