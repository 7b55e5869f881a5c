use beetree::{BeeMap, B};
use rand::seq::SliceRandom;

#[test]
fn insert_one() {
    let mut map = BeeMap::new();
    map.insert(2, 3);
}

#[test]
fn lib_get_from_empty() {
    let mut map: BeeMap<usize, usize> = BeeMap::new();
    assert_eq!(map.get(&5), None);
}

#[test]
fn lib_get_one() {
    let mut map = BeeMap::new();
    map.insert(2, 3);

    assert_eq!(map.get(&2), Some(&3));
}

#[test]
fn lib_insert_ordered() {
    let mut map = BeeMap::new();
    for i in 10..15 {
        map.insert(i, i * 2);
    }

    assert_eq!(map.get(&12), Some(&24));
    assert_eq!(map.get(&14), Some(&28));
    assert_eq!(map.get(&16), None);
    assert_eq!(map.get(&7), None);
}

#[test]
fn lib_insert_ordered_overflow() {
    let mut map = BeeMap::new();
    for i in 10..10 + B * 3 {
        map.insert(i, i * 2);
    }

    let index: Vec<_> = (10..10 + B * 3).collect();
    for i in index {
        assert_eq!(map.get(&i), Some(&(i * 2)));
    }

    assert_eq!(map.get(&7), None);
    assert_eq!(map.get(&(15 + B * 3)), None);
}

#[test]
fn lib_insert_ordered_overflow_get_random() {
    let mut map = BeeMap::new();
    for i in 10..10 + B * 3 {
        map.insert(i, i * 2);
    }

    let mut index: Vec<_> = (10..10 + B * 3).collect();
    index.shuffle(&mut rand::rng());
    for i in index {
        assert_eq!(map.get(&i), Some(&(i * 2)));
    }

    assert_eq!(map.get(&7), None);
    assert_eq!(map.get(&(15 + B * 3)), None);
}

#[test]
fn lib_get_head_of_branch() {
    let mut map = BeeMap::new();
    for i in 0..(B * 3) {
        map.insert(i, i * 2);
    }

    assert_eq!(map.get(&(B / 2)), Some(&B));
}

#[test]
fn lib_get_in_new_branch() {
    let mut map = BeeMap::new();
    for i in 0..(B * 3) {
        map.insert(i, i * 2);
    }

    assert_eq!(map.get(&(B / 2 * 3)), Some(&(B * 3)));
}

#[test]
fn insert_ordered_recursive_overflow() {
    let mut map = BeeMap::new();
    let max = 10 + B * B * 3;
    for i in 10..max {
        map.insert(i, i * 2);
    }

    let index: Vec<_> = (10..max).collect();
    for i in index {
        assert_eq!(map.get(&i), Some(&(i * 2)));
    }

    assert_eq!(map.get(&7), None);
    assert_eq!(map.get(&(15 + max)), None);
}

#[test]
fn insert_ordered_recursive_overflow_get_random() {
    let mut map = BeeMap::new();
    let max = 10 + B * B * 3;
    for i in 10..max {
        map.insert(i, i * 2);
    }

    let mut index: Vec<_> = (10..max).collect();
    index.shuffle(&mut rand::rng());
    for i in index {
        assert_eq!(map.get(&i), Some(&(i * 2)));
    }

    assert_eq!(map.get(&7), None);
    assert_eq!(map.get(&(15 + max)), None);
}

#[test]
fn alternate() {
    let mut map = BeeMap::new();

    for i in 0..B * B * 3 {
        map.insert(i, i);
        assert_eq!(map.get(&i), Some(&i));
    }
}
