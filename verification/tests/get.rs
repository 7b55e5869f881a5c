use beetree::{BeeMap, B};
use rand::seq::SliceRandom;

#[test]
fn get_get_from_empty() {
    let mut map: BeeMap<usize, usize> = BeeMap::new();
    assert_eq!(map.get(&5), None);
}

#[test]
fn get_get_one() {
    let mut map = BeeMap::new();
    map.insert(2, 3);

    assert_eq!(map.get(&2), Some(&3));
}

#[test]
fn get_insert_ordered() {
    let mut map = BeeMap::new();
    for i in 10..15 {
        map.insert(i, i * 2);
    }

    assert_eq!(map.get(&12), Some(&24));
    assert_eq!(map.get(&14), Some(&28));
    assert_eq!(map.get(&16), None);
    assert_eq!(map.get(&7), None);
}

#[test]
fn get_insert_ordered_overflow() {
    let mut map = BeeMap::new();
    for i in 10..10 + B * 3 {
        map.insert(i, i * 2);
    }

    let index: Vec<_> = (10..10 + B * 3).collect();
    for i in index {
        assert_eq!(map.get(&i), Some(&(i * 2)));
    }

    assert_eq!(map.get(&7), None);
    assert_eq!(map.get(&(15 + B * 3)), None);
}

#[test]
fn get_insert_ordered_overflow_get_random() {
    let mut map = BeeMap::new();
    for i in 10..10 + B * 3 {
        map.insert(i, i * 2);
    }

    let mut index: Vec<_> = (10..10 + B * 3).collect();
    index.shuffle(&mut rand::rng());
    for i in index {
        assert_eq!(map.get(&i), Some(&(i * 2)));
    }

    assert_eq!(map.get(&7), None);
    assert_eq!(map.get(&(15 + B * 3)), None);
}

#[test]
fn get_get_head_of_branch() {
    let mut map = BeeMap::new();
    for i in 0..(B * 3) {
        map.insert(i, i * 2);
    }

    assert_eq!(map.get(&(B / 2)), Some(&B));
}

#[test]
fn get_get_in_new_branch() {
    let mut map = BeeMap::new();
    for i in 0..(B * 3) {
        map.insert(i, i * 2);
    }

    assert_eq!(map.get(&(B / 2 * 3)), Some(&(B * 3)));
}

#[test]
fn get_mut() {
    let mut map = BeeMap::new();
    map.insert(1, 1);
    *map.get_mut(&1).unwrap() = 5;
    assert_eq!(map.get(&1), Some(&5));
}

#[test]
fn get_before() {
    let mut map = BeeMap::new();
    map.insert(1, 1);
    map.insert(3, 3);
    assert_eq!(map.get_before(&3), Some(&1));
    assert_eq!(map.get_before(&2), Some(&1));
    assert_eq!(map.get_before(&1), None);
}

#[test]
fn get_before_inc() {
    let mut map = BeeMap::new();
    map.insert(1, 1);
    map.insert(3, 3);
    assert_eq!(map.get_before_inc(&1), Some(&1));
    assert_eq!(map.get_before_inc(&3), Some(&3));
}

#[test]
fn get_key_value_before() {
    let mut map = BeeMap::new();
    map.insert(1, "asdf");
    map.insert(3, "zxcv");
    assert_eq!(map.get_key_value_before(&3), Some((&1, &"asdf")));
    assert_eq!(map.get_key_value_before(&2), Some((&1, &"asdf")));
    assert_eq!(map.get_key_value_before(&1), None);
}

#[test]
fn get_key_value_before_inc() {
    let mut map = BeeMap::new();
    map.insert(1, "asdf");
    map.insert(3, "zxcv");
    assert_eq!(map.get_key_value_before_inc(&1), Some((&1, &"asdf")));
    assert_eq!(map.get_key_value_before_inc(&3), Some((&3, &"zxcv")));
}

#[test]
fn get_key_value_mut() {
    let mut map = BeeMap::new();
    map.insert(1, 2);
    let (key, val) = map.get_key_value_mut(&1).unwrap();
    assert_eq!(*key, 1);
    assert_eq!(*val, 2);

    *val = 5;
    assert_eq!(map.get(&1).unwrap(), &5);
}
