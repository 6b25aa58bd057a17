use ecs::sparse::{ImmutableSparseArray, ImmutableSparseSet, SparseArray, SparseSet};

#[test]
fn sparse_array_insert() {
    let mut array = SparseArray::<u32>::new();
    array.push(10);
    array.insert(0, 20);

    let value = array[0];
    assert_eq!(value, Some(20));
}

#[test]
fn sparse_array_remove() {
    let mut array = SparseArray::<u32>::new();
    array.push(10);

    let value = array.remove(0);
    assert_eq!(value, Some(10));
}

#[test]
fn sparse_set_insert() {
    let mut set = SparseSet::<u32>::new();
    set.insert(0, 10);
    set.insert(1, 20);
    set.insert(10, 30);

    assert_eq!(set.get(0), Some(&10));
    assert_eq!(set.get(1), Some(&20));
    assert_eq!(set.get(10), Some(&30));
}

#[test]
fn sparse_set_remove() {
    let mut set = SparseSet::<u32>::new();
    set.insert(0, 10);
    set.insert(1, 20);
    set.insert(10, 30);

    assert_eq!(set.remove(1), Some(20));
}

#[test]
fn sparse_array_insert_pads_with_empty_slots() {
    let mut array = SparseArray::<u8, u8>::new();
    array.insert(3, 7);
    assert_eq!(array.len(), 4);
    assert_eq!(array[0], None);
    assert_eq!(array[3], Some(7));
    assert_eq!(array[200], None);
    assert!(array.contains(3));
    assert!(!array.contains(2));
    assert_eq!(array.get(3), Some(&7));
    assert_eq!(array.get(9), None);
}

#[test]
fn sparse_array_reserve_and_clear() {
    let mut array = SparseArray::<u16, u16>::new();
    array.reserve(5);
    assert_eq!(array.len(), 6);
    assert!(!array.is_empty());
    array.clear();
    assert!(array.is_empty());
}

#[test]
fn sparse_array_get_mut_and_remove_at() {
    let mut array = SparseArray::<u32, usize>::new();
    array.insert(2, 5);
    if let Some(v) = array.get_mut(2) {
        *v = 6;
    }
    assert_eq!(array.get(2), Some(&6));
    assert_eq!(array.get_mut(1), None);
    assert_eq!(array.remove_at(2), Some(6));
    assert_eq!(array.remove_at(2), None);
    assert_eq!(array.remove_at(99), None);
    assert_eq!(array.len(), 3);
}

#[test]
fn immutable_sparse_array_keeps_slots() {
    let mut array = SparseArray::<u32, u32>::new();
    array.insert(1, 4);
    let frozen = ImmutableSparseArray::from_array(array);
    assert_eq!(frozen.len(), 2);
    assert!(!frozen.is_empty());
    assert_eq!(frozen.get(1), Some(&4));
    assert_eq!(frozen.get(0), None);
    assert!(frozen.contains(1));
    assert!(!frozen.contains(7));
}

#[test]
fn sparse_set_insert_replaces_value() {
    let mut set = SparseSet::<u32, u32>::new();
    assert_eq!(set.insert(4, 1), None);
    assert_eq!(set.insert(4, 2), Some(1));
    assert_eq!(set.len(), 1);
    assert_eq!(set.get(4), Some(&2));
    assert_eq!(set.values(), &[2]);
    assert_eq!(set.indices(), &[4]);
}

#[test]
fn sparse_set_remove_moves_last_into_place() {
    let mut set = SparseSet::<char, u32>::new();
    set.insert(0, 'a');
    set.insert(1, 'b');
    set.insert(2, 'c');
    assert_eq!(set.remove(0), Some('a'));
    assert_eq!(set.values(), &['c', 'b']);
    assert_eq!(set.indices(), &[2, 1]);
    assert_eq!(set.get(2), Some(&'c'));
    assert!(!set.contains(0));
    assert_eq!(set.remove(0), None);
}

#[test]
fn sparse_set_remove_at_and_drain() {
    let mut set = SparseSet::<u32, u32>::new();
    set.insert(5, 50);
    set.insert(6, 60);
    set.insert(7, 70);
    assert_eq!(set.remove_at(9), None);
    assert_eq!(set.remove_at(0), Some((5, 50)));
    assert_eq!(set.indices(), &[7, 6]);
    let drained = set.drain();
    assert_eq!(drained, vec![(7, 70), (6, 60)]);
    assert!(set.is_empty());
}

#[test]
fn sparse_set_get_mut_iter_clear() {
    let mut set = SparseSet::<u32, u32>::new();
    set.insert(3, 30);
    set.insert(1, 10);
    if let Some(v) = set.get_mut(1) {
        *v = 11;
    }
    let pairs = set.iter();
    assert_eq!(pairs, vec![(&3, &30), (&1, &11)]);
    set.clear();
    assert_eq!(set.len(), 0);
    assert_eq!(set.get(3), None);
}

#[test]
fn immutable_sparse_set_lookup() {
    let mut set = SparseSet::<u32, u32>::new();
    set.insert(2, 20);
    set.insert(0, 0);
    let mut frozen = ImmutableSparseSet::from_set(set);
    assert_eq!(frozen.len(), 2);
    assert_eq!(frozen.get(2), Some(&20));
    assert!(frozen.contains(0));
    assert!(!frozen.contains(1));
    if let Some(v) = frozen.get_mut(0) {
        *v = 5;
    }
    frozen.values_mut()[0] = 21;
    assert_eq!(frozen.values(), &[21, 5]);
    assert_eq!(frozen.indices(), &[2, 0]);
    assert_eq!(frozen.iter(), vec![(&2, &21), (&0, &5)]);
}

#[test]
fn sparse_set_from_pairs_keeps_last_value_per_index() {
    let set = SparseSet::<u32, usize>::from_pairs(vec![(3, 30), (1, 10), (3, 31)]);
    assert_eq!(set.len(), 2);
    assert_eq!(set.get(3), Some(&31));
    assert_eq!(set.get(1), Some(&10));
    assert_eq!(set.indices(), &[3, 1]);
    assert_eq!(set.values(), &[31, 10]);
}

#[test]
fn sparse_set_iter_mut_changes_values_in_place() {
    let mut set = SparseSet::<u32, usize>::new();
    set.insert(4, 1);
    set.insert(2, 2);
    {
        let (indices, values) = set.iter_mut();
        assert_eq!(indices, &[4, 2]);
        for value in values.iter_mut() {
            *value *= 10;
        }
    }
    assert_eq!(set.get(4), Some(&10));
    assert_eq!(set.get(2), Some(&20));
}

#[test]
fn sparse_array_index_mut_grows_and_writes() {
    let mut array = SparseArray::<u32, usize>::new();
    *array.index_mut(3) = Some(7);
    assert_eq!(array.len(), 4);
    assert_eq!(array.get(3), Some(&7));
    assert_eq!(array.get(1), None);
    *array.index_mut(3) = None;
    assert!(!array.contains(3));
    assert_eq!(array.len(), 4);
}

#[test]
fn sparse_set_contains_after_drain_reads_the_slot() {
    let mut set = SparseSet::<u32, usize>::new();
    set.insert(2, 20);
    let drained = set.drain();
    assert_eq!(drained, vec![(2, 20)]);
    assert!(set.contains(2));
    assert_eq!(set.len(), 0);
}

#[test]
fn sparse_array_reads_back_an_insert_after_other_changes() {
    let mut array = SparseArray::<u32, usize>::new();
    array.insert(2, 7);
    array.push(1);
    array.insert(5, 9);
    array.remove(0);
    array.remove(5);
    assert_eq!(array.get(2), Some(&7));
    assert_eq!(array.get(40), None);
}

#[test]
fn sparse_set_get_after_remove_at_finds_the_moved_entry() {
    let mut set: SparseSet<u32, u32> = SparseSet::new();
    set.insert(0, 10);
    set.insert(1, 20);
    assert_eq!(set.remove_at(0), Some((0, 10)));
    assert_eq!(set.get(1), Some(&20));
    assert_eq!(set.indices(), &[1]);
    assert!(set.contains(0));
    assert_eq!(set.get(0), Some(&20));
}

#[test]
fn sparse_set_remove_of_index_whose_slot_is_stale() {
    let mut set: SparseSet<u32, u32> = SparseSet::new();
    set.insert(0, 10);
    set.insert(1, 20);
    set.insert(2, 30);
    assert_eq!(set.remove_at(2), Some((2, 30)));
    assert_eq!(set.remove(2), None);
    assert!(!set.contains(2));
    assert_eq!(set.values(), &[10, 20]);
    assert_eq!(set.remove(0), Some(10));
    assert_eq!(set.values(), &[20]);
    assert_eq!(set.get(1), Some(&20));
}

#[test]
fn sparse_set_insert_after_drain_at_a_fresh_index() {
    let mut set: SparseSet<u32, u32> = SparseSet::new();
    set.insert(4, 40);
    let drained = set.drain();
    assert_eq!(drained, vec![(4, 40)]);
    assert_eq!(set.insert(5, 50), None);
    assert_eq!(set.get(5), Some(&50));
}
