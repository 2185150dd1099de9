use kon_ecs::{SparseSet, Storage};

#[test]
fn insert_and_get() {
    let mut set = SparseSet::new();
    set.insert(1, "a");
    assert_eq!(set.get(1), Some(&"a"));
}

#[test]
fn get_nonexistent() {
    let set = SparseSet::<i32>::new();
    assert_eq!(set.get(1), None);
}

#[test]
fn remove_existing() {
    let mut set = SparseSet::new();
    set.insert(1, "a");
    assert_eq!(set.remove(1), Some("a"));
    assert_eq!(set.get(1), None);
    assert_eq!(set.len(), 0);
}

#[test]
fn remove_nonexistent() {
    let mut set = SparseSet::<i32>::new();
    assert_eq!(set.remove(1), None);
}

#[test]
fn insert_overwrites() {
    let mut set = SparseSet::new();
    set.insert(1, "a");
    set.insert(1, "b");
    assert_eq!(set.get(1), Some(&"b"));
    assert_eq!(set.len(), 1);
}

#[test]
fn remove_middle_swaps_last() {
    let mut set = SparseSet::new();
    set.insert(1, "a");
    set.insert(2, "b");
    set.insert(3, "c");

    set.remove(2);

    assert_eq!(set.len(), 2);
    assert_eq!(set.get(1), Some(&"a"));
    assert_eq!(set.get(3), Some(&"c"));
    assert_eq!(set.get(2), None);
}

#[test]
fn contains_check() {
    let mut set = SparseSet::new();
    set.insert(1, "a");
    assert!(set.contains(1));
    assert!(!set.contains(2));
}

#[test]
fn iter_all_entries() {
    let mut set = SparseSet::new();
    set.insert(1, "a");
    set.insert(2, "b");
    set.insert(3, "c");

    let items: Vec<_> = set.iter();
    assert_eq!(items.len(), 3);
}

#[test]
fn iter_mut_modifies() {
    let mut set = SparseSet::new();
    set.insert(1, 50);
    set.insert(2, 100);

    for (_, value) in set.iter_mut() {
        *value *= 3;
    }

    assert_eq!(set.get(1), Some(&150));
    assert_eq!(set.get(2), Some(&300));
}

#[test]
fn empty_set() {
    let set = SparseSet::<i32>::new();
    assert_eq!(set.len(), 0);
    assert!(set.is_empty());
}

#[test]
fn dense_order_after_swap_remove() {
    let mut set = SparseSet::new();
    set.insert(7, 'x');
    set.insert(3, 'y');
    set.insert(9, 'z');
    assert_eq!(set.entities(), &[7, 3, 9]);
    set.remove(7);
    assert_eq!(set.entities(), &[9, 3]);
    let items = set.iter();
    assert_eq!(items, vec![(9, &'z'), (3, &'y')]);
}

#[test]
fn remove_last_and_double_remove() {
    let mut set = SparseSet::new();
    set.insert(0, 5u8);
    set.insert(4, 6u8);
    assert_eq!(set.remove(4), Some(6));
    assert_eq!(set.remove(4), None);
    assert_eq!(set.entities(), &[0]);
    assert_eq!(set.remove(100), None);
    assert_eq!(set.len(), 1);
}

#[test]
fn round_trip_large_id() {
    let mut set = SparseSet::new();
    set.insert(1000, -1i64);
    assert_eq!(set.get(1000), Some(&-1));
    assert_eq!(set.get(999), None);
    if let Some(v) = set.get_mut(1000) {
        *v = 42;
    }
    assert_eq!(set.get(1000), Some(&42));
    assert!(set.get_mut(5).is_none());
}

#[test]
fn storage_trait_surface() {
    let mut set = SparseSet::new();
    set.insert(2, "two");
    set.insert(5, "five");
    assert!(Storage::contains(&set, 5));
    assert_eq!(Storage::entity_ids(&set), &[2, 5]);
    assert!(Storage::remove(&mut set, 2));
    assert!(!Storage::remove(&mut set, 2));
    assert_eq!(Storage::entity_ids(&set), &[5]);
    let d: SparseSet<u8> = SparseSet::default();
    assert!(d.is_empty());
}
