use skip_list::level::{draw_flips, level_from_flips};
use skip_list::{SkipList, SkipListError};
use std::collections::BTreeSet;

#[test]
fn the_list_holds_what_was_inserted_and_not_deleted() {
    let mut list = SkipList::new(8).unwrap();
    let mut held: BTreeSet<i32> = BTreeSet::new();
    let mut state: u32 = 12345;
    for _ in 0..3000 {
        state = state.wrapping_mul(1103515245).wrapping_add(12345);
        let key = ((state >> 16) % 200) as i32 - 100;
        if (state >> 8) % 3 == 0 {
            let expected = if held.remove(&key) {
                Ok(())
            } else {
                Err(SkipListError::NotFound)
            };
            assert_eq!(list.delete(key), expected);
        } else {
            let expected = if held.insert(key) {
                Ok(())
            } else {
                Err(SkipListError::AlreadyPresent)
            };
            assert_eq!(list.insert(key), expected);
        }
        let probe = ((state >> 4) % 200) as i32 - 100;
        let found = if held.contains(&probe) {
            Some(probe)
        } else {
            None
        };
        assert_eq!(list.search(probe), found);
    }
    assert_eq!(list.keys_at(0), held.iter().copied().collect::<Vec<i32>>());
    for key in -100..100 {
        assert_eq!(list.search(key).is_some(), held.contains(&key));
    }
}

#[test]
fn inserting_twice_adds_one_key() {
    let mut list = SkipList::new(4).unwrap();
    for key in [8, 3, 5] {
        list.insert(key).unwrap();
    }
    assert_eq!(list.keys_at(0).len(), 3);
    assert_eq!(list.insert(4), Ok(()));
    let once = list.levels();
    assert_eq!(once[0].1, vec![3, 4, 5, 8]);
    assert_eq!(list.insert(4), Err(SkipListError::AlreadyPresent));
    assert_eq!(list.levels(), once);
}

#[test]
fn random_level_stays_below_max_level() {
    for max_level in 1..6 {
        let list = SkipList::new(max_level).unwrap();
        for _ in 0..200 {
            assert!(list.random_level() < max_level);
        }
    }
}

#[test]
fn random_level_reaches_more_than_one_level() {
    let list = SkipList::new(4).unwrap();
    let mut seen = [false; 4];
    for _ in 0..2000 {
        seen[list.random_level()] = true;
    }
    assert!(seen[0] && seen[1]);
}

#[test]
fn level_from_flips_counts_the_leading_heads() {
    assert_eq!(level_from_flips(&vec![], 5), 0);
    assert_eq!(level_from_flips(&vec![false], 5), 0);
    assert_eq!(level_from_flips(&vec![false, true, true], 5), 0);
    assert_eq!(level_from_flips(&vec![true, false], 5), 1);
    assert_eq!(level_from_flips(&vec![true, true, false, true], 5), 2);
    assert_eq!(level_from_flips(&vec![true, true, true], 5), 3);
}

#[test]
fn level_from_flips_stops_at_the_highest_level() {
    assert_eq!(level_from_flips(&vec![true; 10], 3), 2);
    assert_eq!(level_from_flips(&vec![true, true, false], 3), 2);
    assert_eq!(level_from_flips(&vec![true, true, true, true], 4), 3);
    assert_eq!(level_from_flips(&vec![true; 10], 1), 0);
    assert_eq!(level_from_flips(&vec![true], 2), 1);
}

#[test]
fn draw_flips_ends_with_the_first_tails() {
    assert!(draw_flips(0).is_empty());
    for limit in 1..8 {
        for _ in 0..100 {
            let flips = draw_flips(limit);
            assert!(flips.len() <= limit);
            assert!(!flips.is_empty());
            let (last, heads) = flips.split_last().unwrap();
            assert!(heads.iter().all(|flip| *flip));
            assert!(!*last || flips.len() == limit);
        }
    }
}
