use skip_list::grid::align;
use skip_list::{SkipList, SkipListError};

fn towers(max_level: usize, keys: &[(i32, usize)]) -> SkipList {
    let mut list = SkipList::new(max_level).unwrap();
    for &(key, height) in keys {
        assert_eq!(list.insert_with_height(key, height), Ok(()));
    }
    list
}

#[test]
fn a_tower_joins_each_level_up_to_its_height() {
    let list = towers(4, &[(10, 2), (5, 0), (20, 1)]);
    assert_eq!(list.level(), 2);
    assert_eq!(
        list.levels(),
        vec![(0, vec![5, 10, 20]), (1, vec![10, 20]), (2, vec![10])]
    );
    assert_eq!(list.keys_at(3), Vec::<i32>::new());
}

#[test]
fn level_rises_to_the_tallest_tower() {
    let mut list = SkipList::new(5).unwrap();
    assert_eq!(list.level(), 0);
    list.insert_with_height(1, 0).unwrap();
    assert_eq!(list.level(), 0);
    list.insert_with_height(2, 3).unwrap();
    assert_eq!(list.level(), 3);
    list.insert_with_height(3, 1).unwrap();
    assert_eq!(list.level(), 3);
    list.insert_with_height(4, 4).unwrap();
    assert_eq!(list.level(), 4);
}

#[test]
fn level_falls_when_the_tallest_tower_leaves() {
    let mut list = towers(5, &[(1, 0), (2, 3), (3, 1), (4, 4)]);
    assert_eq!(list.delete(4), Ok(()));
    assert_eq!(list.level(), 3);
    assert_eq!(list.delete(2), Ok(()));
    assert_eq!(list.level(), 1);
    assert_eq!(list.levels(), vec![(0, vec![1, 3]), (1, vec![3])]);
    assert_eq!(list.delete(3), Ok(()));
    assert_eq!(list.level(), 0);
    assert_eq!(list.delete(1), Ok(()));
    assert_eq!(list.level(), 0);
    assert_eq!(list.levels(), vec![(0, Vec::<i32>::new())]);
}

#[test]
fn a_list_with_keys_can_have_level_zero() {
    let list = towers(3, &[(7, 0), (8, 0)]);
    assert_eq!(list.level(), 0);
    assert_eq!(list.keys_at(0), vec![7, 8]);
    let mut flat = SkipList::new(1).unwrap();
    for key in [4, 2, 9] {
        flat.insert(key).unwrap();
    }
    assert_eq!(flat.level(), 0);
    assert_eq!(flat.keys_at(0), vec![2, 4, 9]);
}

#[test]
fn a_refused_insert_changes_no_level() {
    let mut list = towers(4, &[(10, 1), (20, 0)]);
    let before = list.levels();
    assert_eq!(
        list.insert_with_height(20, 3),
        Err(SkipListError::AlreadyPresent)
    );
    assert_eq!(list.levels(), before);
    assert_eq!(list.level(), 1);
}

#[test]
fn a_failed_delete_changes_no_level() {
    let mut list = towers(4, &[(10, 2), (20, 0), (30, 1)]);
    let before = list.levels();
    assert_eq!(list.delete(15), Err(SkipListError::NotFound));
    assert_eq!(list.levels(), before);
    assert_eq!(list.delete(15), Err(SkipListError::NotFound));
    assert_eq!(list.levels(), before);
}

#[test]
fn insert_and_delete_at_once_restore_every_level() {
    let mut list = towers(4, &[(10, 2), (20, 0), (30, 1)]);
    let before = list.levels();
    for height in 0..4 {
        for key in [5, 15, 25, 35] {
            assert_eq!(list.insert_with_height(key, height), Ok(()));
            assert_eq!(list.delete(key), Ok(()));
            assert_eq!(list.levels(), before);
        }
    }
}

#[test]
fn delete_unlinks_a_tower_between_taller_ones() {
    let mut list = towers(3, &[(1, 2), (2, 1), (3, 2), (4, 0)]);
    assert_eq!(list.delete(2), Ok(()));
    assert_eq!(
        list.levels(),
        vec![(0, vec![1, 3, 4]), (1, vec![1, 3]), (2, vec![1, 3])]
    );
    assert_eq!(list.delete(1), Ok(()));
    assert_eq!(
        list.levels(),
        vec![(0, vec![3, 4]), (1, vec![3]), (2, vec![3])]
    );
}

#[test]
fn a_released_slot_is_used_again() {
    let mut list = SkipList::new(4).unwrap();
    for round in 0..50 {
        for key in 0..20 {
            let height = ((key + round) % 4) as usize;
            assert_eq!(list.insert_with_height(key, height), Ok(()));
        }
        assert_eq!(list.keys_at(0), (0..20).collect::<Vec<i32>>());
        for key in 0..20 {
            if (key + round) % 3 != 0 {
                assert_eq!(list.delete(key), Ok(()));
            }
        }
        let left: Vec<i32> = (0..20).filter(|key| (key + round) % 3 == 0).collect();
        assert_eq!(list.keys_at(0), left);
        for key in left {
            assert_eq!(list.delete(key), Ok(()));
        }
        assert_eq!(list.levels(), vec![(0, Vec::<i32>::new())]);
        assert_eq!(list.slots(), 21);
        assert_eq!(list.spare_slots(), 20);
    }
}

#[test]
fn each_slot_holds_the_head_or_a_key_or_is_spare() {
    let mut list = SkipList::new(3).unwrap();
    assert_eq!((list.slots(), list.spare_slots()), (1, 0));
    list.insert_with_height(4, 1).unwrap();
    list.insert_with_height(6, 0).unwrap();
    assert_eq!((list.slots(), list.spare_slots()), (3, 0));
    assert_eq!(
        list.insert_with_height(6, 2),
        Err(SkipListError::AlreadyPresent)
    );
    assert_eq!((list.slots(), list.spare_slots()), (3, 0));
    list.delete(4).unwrap();
    assert_eq!((list.slots(), list.spare_slots()), (3, 1));
    assert_eq!(list.delete(4), Err(SkipListError::NotFound));
    assert_eq!((list.slots(), list.spare_slots()), (3, 1));
    list.insert_with_height(5, 2).unwrap();
    assert_eq!((list.slots(), list.spare_slots()), (3, 0));
    list.insert_with_height(7, 0).unwrap();
    assert_eq!((list.slots(), list.spare_slots()), (4, 0));
    assert_eq!(list.slots(), 1 + list.keys_at(0).len() + list.spare_slots());
    assert_eq!(
        list.levels(),
        vec![(0, vec![5, 6, 7]), (1, vec![5]), (2, vec![5])]
    );
}

#[test]
fn keys_of_a_level_are_keys_of_the_levels_below() {
    let mut list = SkipList::new(6).unwrap();
    let mut key: i32 = 17;
    for step in 0..400 {
        key = (key * 31 + 7) % 101;
        if step % 3 == 2 {
            let _ = list.delete(key);
        } else {
            let _ = list.insert(key);
        }
        assert!(list.level() < list.max_level());
        let levels = list.levels();
        assert_eq!(levels.len(), list.level() + 1);
        for l in 0..levels.len() {
            assert_eq!(levels[l].0, l);
            assert!(levels[l].1.windows(2).all(|pair| pair[0] < pair[1]));
            if l > 0 {
                assert!(!levels[l].1.is_empty());
                assert!(levels[l].1.iter().all(|k| levels[l - 1].1.contains(k)));
            }
        }
        for l in levels.len()..list.max_level() {
            assert!(list.keys_at(l).is_empty());
        }
    }
}

#[test]
fn the_grid_has_a_tower_in_one_column() {
    let list = towers(4, &[(10, 2), (5, 0), (20, 1)]);
    assert_eq!(
        list.grid(),
        vec![
            vec![Some(5), Some(10), Some(20)],
            vec![None, Some(10), Some(20)],
            vec![None, Some(10), None],
            vec![None, None, None],
        ]
    );
    let empty = SkipList::new(2).unwrap();
    assert_eq!(empty.grid(), vec![Vec::<Option<i32>>::new(), Vec::new()]);
}

#[test]
fn align_marks_the_keys_that_a_level_has() {
    assert_eq!(
        align(&vec![1, 4, 6, 9], &vec![4, 9]),
        vec![None, Some(4), None, Some(9)]
    );
    assert_eq!(align(&vec![1, 4], &vec![]), vec![None, None]);
    assert_eq!(align(&vec![], &vec![]), Vec::<Option<i32>>::new());
    assert_eq!(align(&vec![0, 2], &vec![0, 2]), vec![Some(0), Some(2)]);
    assert_eq!(align(&vec![3, 5], &vec![1, 4, 5, 8]), vec![None, Some(5)]);
}
