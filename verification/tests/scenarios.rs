use skip_list::{SkipList, SkipListError};

fn list_of(max_level: usize, keys: &[i32]) -> SkipList {
    let mut list = SkipList::new(max_level).unwrap();
    for &key in keys {
        assert_eq!(list.insert(key), Ok(()));
    }
    list
}

#[test]
fn search_for_a_key_that_was_never_inserted() {
    let list = list_of(3, &[2, 3]);
    assert_eq!(list.search(1), None);
}

#[test]
fn level_zero_lists_the_keys_in_ascending_order() {
    let list = list_of(5, &[2, 3, 10, 7, 20, 15]);
    assert_eq!(list.keys_at(0), vec![2, 3, 7, 10, 15, 20]);
    let levels = list.levels();
    assert_eq!(levels[0].0, 0);
    assert_eq!(levels[0].1, vec![2, 3, 7, 10, 15, 20]);
}

#[test]
fn delete_takes_the_key_and_leaves_the_others() {
    let mut list = list_of(5, &[2, 3, 10, 7, 20, 15]);
    assert_eq!(list.delete(7), Ok(()));
    assert_eq!(list.search(7), None);
    assert_eq!(list.search(10), Some(10));
    assert_eq!(list.keys_at(0), vec![2, 3, 10, 15, 20]);
}

#[test]
fn delete_on_an_empty_list_finds_nothing() {
    let mut list = SkipList::new(4).unwrap();
    assert_eq!(list.delete(99), Err(SkipListError::NotFound));
    assert_eq!(list.keys_at(0), Vec::<i32>::new());
    assert_eq!(list.level(), 0);
    assert_eq!(list.levels(), vec![(0, Vec::<i32>::new())]);
}

#[test]
fn second_insert_of_a_key_is_refused() {
    let mut list = SkipList::new(2).unwrap();
    assert_eq!(list.insert(5), Ok(()));
    assert_eq!(list.insert(5), Err(SkipListError::AlreadyPresent));
    assert_eq!(list.keys_at(0), vec![5]);
}

#[test]
fn a_list_needs_a_level() {
    assert!(matches!(SkipList::new(0), Err(SkipListError::InvalidConfiguration)));
    assert!(SkipList::new(1).is_ok());
}

#[test]
fn a_new_list_is_empty() {
    let list = SkipList::new(6).unwrap();
    assert_eq!(list.max_level(), 6);
    assert_eq!(list.level(), 0);
    for l in 0..6 {
        assert_eq!(list.keys_at(l), Vec::<i32>::new());
    }
    assert_eq!(list.search(0), None);
}

#[test]
fn search_finds_each_key_that_was_inserted() {
    let keys = [2, 3, 10, 7, 20, 15];
    let list = list_of(3, &keys);
    for key in keys {
        assert_eq!(list.search(key), Some(key));
    }
    for key in [1, 4, 8, 16, 21, -3] {
        assert_eq!(list.search(key), None);
    }
}

#[test]
fn the_smallest_and_the_largest_key() {
    let mut list = list_of(4, &[0, i32::MAX, i32::MIN]);
    assert_eq!(list.keys_at(0), vec![i32::MIN, 0, i32::MAX]);
    assert_eq!(list.search(i32::MIN), Some(i32::MIN));
    assert_eq!(list.search(i32::MAX), Some(i32::MAX));
    assert_eq!(list.delete(i32::MIN), Ok(()));
    assert_eq!(list.delete(i32::MAX), Ok(()));
    assert_eq!(list.keys_at(0), vec![0]);
}
