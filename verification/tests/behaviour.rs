use beetree::{BeeMap, MaybeBox, SliceThief, VecSlicer, B};
use rand::seq::SliceRandom;
use std::collections::BTreeMap;
use std::rc::Rc;

fn shuffled(range: std::ops::Range<u64>) -> Vec<u64> {
    let mut keys: Vec<u64> = range.collect();
    keys.shuffle(&mut rand::rng());
    keys
}

#[test]
fn new_map_is_empty() {
    let mut map: BeeMap<u32, u32> = BeeMap::new();
    assert_eq!(map.len(), 0);
    assert!(map.is_empty());
    assert_eq!(map.get(&0), None);
    assert_eq!(map.get_before(&0), None);
    assert_eq!(map.get_before_inc(&0), None);
    let mut other: BeeMap<u32, u32> = BeeMap::default();
    assert!(other.is_empty());
    assert_eq!(other.get_key_value(&7), None);
}

#[test]
fn len_counts_every_insertion_until_a_read() {
    let mut map = BeeMap::new();
    for i in 0..10u32 {
        map.insert(i % 3, i);
    }
    assert_eq!(map.len(), 10);
    assert!(!map.is_empty());
    assert!(map.get(&0).is_some());
    assert_eq!(map.len(), 3);
    map.insert(1, 100);
    map.insert(7, 100);
    assert_eq!(map.len(), 5);
    assert_eq!(map.get(&1), Some(&100));
    assert_eq!(map.len(), 4);
}

#[test]
fn len_is_exact_once_every_key_was_read() {
    let mut map = BeeMap::new();
    let keys = shuffled(0..5000);
    for round in 0..3u64 {
        for &k in &keys {
            map.insert(k / 2, round);
        }
    }
    assert_eq!(map.len(), 15000);
    for k in 0..2500u64 {
        assert!(map.get(&k).is_some());
    }
    assert_eq!(map.len(), 2500);
    assert_eq!(map.get_before(&2500).copied(), Some(2));
    assert_eq!(map.get(&2499).copied(), Some(2));
    assert_eq!(map.len(), 2500);
}

#[test]
fn len_is_kept_by_changes_in_place() {
    let mut map = BeeMap::new();
    for i in 0..(B * 2) {
        map.insert(i, i);
    }
    *map.get_mut(&B).unwrap() = 0;
    assert_eq!(map.len(), B * 2);
    assert_eq!(map.get(&B), Some(&0));
}

#[test]
fn read_twice_gives_the_same() {
    let mut map = BeeMap::new();
    for k in shuffled(0..2000) {
        map.insert(k, k + 1);
    }
    let first = map.get(&1234).copied();
    let second = map.get(&1234).copied();
    assert_eq!(first, Some(1235));
    assert_eq!(first, second);
}

#[test]
fn read_leaves_other_reads_alone() {
    let mut touched = BeeMap::new();
    let mut fresh = BeeMap::new();
    let keys = shuffled(0..3000);
    for &k in &keys {
        touched.insert(k, k * 7);
        fresh.insert(k, k * 7);
    }
    assert_eq!(touched.get(&17), Some(&119));
    for k in [0u64, 1, 16, 17, 18, 1500, 2999, 3000] {
        assert_eq!(touched.get(&k).copied(), fresh.get(&k).copied());
    }
}

#[test]
fn write_over_a_read_key_wins() {
    let mut map = BeeMap::new();
    for i in 0..(B * 4) {
        map.insert(i, 0usize);
    }
    for k in [0, B / 2, B, B * 4 - 1] {
        assert_eq!(map.get(&k), Some(&0));
        map.insert(k, k + 1);
        assert_eq!(map.get(&k), Some(&(k + 1)));
    }
}

#[test]
fn first_write_is_read_back() {
    let mut map = BeeMap::new();
    map.insert(9, "nine");
    assert_eq!(map.get(&9), Some(&"nine"));
    map.insert(4, "four");
    assert_eq!(map.get(&4), Some(&"four"));
    assert_eq!(map.get(&9), Some(&"nine"));
}

#[test]
fn equal_keys_settle_on_one_value() {
    // A pair whose key is no greater than the front of an ordered buffer
    // goes in front, and of the pairs with one key the last in the buffer
    // stays: here the first that was inserted.
    let mut map = BeeMap::new();
    let last = B * B * 3;
    for value in 0..=last {
        map.insert(1, value);
    }
    assert_eq!(map.len(), last + 1);
    assert_eq!(map.get(&1), Some(&0));
    assert_eq!(map.len(), 1);
    assert_eq!(map.get(&0), None);
    assert_eq!(map.get(&2), None);
}

#[test]
fn equal_keys_behind_greater_ones_keep_the_latest() {
    let mut map = BeeMap::new();
    map.insert(1, 'a');
    map.insert(5, 'b');
    map.insert(5, 'c');
    assert_eq!(map.get(&5), Some(&'c'));
    assert_eq!(map.get(&1), Some(&'a'));
}

#[test]
fn unsorted_insertions_are_sorted_on_read() {
    let mut map = BeeMap::new();
    let keys = shuffled(0..(B as u64 * 5));
    for &k in &keys {
        map.insert(k, k * 3);
    }
    for &k in &keys {
        assert_eq!(map.get(&k), Some(&(k * 3)));
    }
    assert_eq!(map.get(&(B as u64 * 5)), None);
}

#[test]
fn reads_between_insertions() {
    let mut map = BeeMap::new();
    let keys = shuffled(0..4000);
    for (n, &k) in keys.iter().enumerate() {
        map.insert(k, n);
        if n % 7 == 0 {
            let earlier = keys[n / 2];
            assert_eq!(map.get(&earlier), Some(&(n / 2)));
        }
    }
    for (n, &k) in keys.iter().enumerate() {
        assert_eq!(map.get(&k), Some(&n));
    }
}

#[test]
fn agrees_with_an_ordered_map() {
    let mut map = BeeMap::new();
    let mut model = BTreeMap::new();
    let keys = shuffled(0..6000);
    for (n, &k) in keys.iter().enumerate() {
        if k % 3 != 0 {
            map.insert(k, n);
            model.insert(k, n);
        }
        if n % 5 == 0 {
            let probe = keys[(n * 31) % keys.len()];
            assert_eq!(map.get(&probe), model.get(&probe));
            assert_eq!(
                map.get_key_value_before(&probe),
                model.range(..probe).next_back()
            );
            assert_eq!(
                map.get_key_value_before_inc(&probe),
                model.range(..=probe).next_back()
            );
        }
    }
    for probe in 0..6001u64 {
        assert_eq!(map.get(&probe), model.get(&probe));
        assert_eq!(map.get_before(&probe), model.range(..probe).next_back().map(|p| p.1));
        assert_eq!(
            map.get_before_inc(&probe),
            model.range(..=probe).next_back().map(|p| p.1)
        );
    }
}

#[test]
fn equal_keys_at_random() {
    // Under a key that was inserted several times, a read returns one of
    // the values inserted under it, and from then on that one.
    let mut map = BeeMap::new();
    let mut inserted: BTreeMap<u64, Vec<u64>> = BTreeMap::new();
    let mut stamp = 0u64;
    for round in 0..6u64 {
        for k in shuffled(0..1500) {
            if (k + round) % 4 != 0 {
                stamp += 1;
                map.insert(k, stamp);
                inserted.entry(k).or_default().push(stamp);
            }
        }
        map.bulk_insert((0..300u64).map(|k| (k * 5, k + stamp)).collect(), true);
        for k in 0..300u64 {
            inserted.entry(k * 5).or_default().push(k + stamp);
        }
        stamp += 300;
        for probe in shuffled(0..1500).into_iter().take(200) {
            let got = map.get(&probe).copied();
            match inserted.get_mut(&probe) {
                Some(values) => {
                    let value = got.unwrap();
                    assert!(values.contains(&value));
                    *values = vec![value];
                    assert_eq!(map.get(&probe), Some(&value));
                }
                None => assert_eq!(got, None),
            }
        }
        assert!(map.len() >= inserted.len());
    }
    for k in 0..1500u64 {
        let got = map.get(&k).copied();
        match inserted.get(&k) {
            Some(values) => assert!(values.contains(&got.unwrap())),
            None => assert_eq!(got, None),
        }
        assert_eq!(
            map.get_key_value_before(&k).map(|p| *p.0),
            inserted.range(..k).next_back().map(|p| *p.0)
        );
    }
    assert_eq!(map.len(), inserted.len());
}

#[test]
fn pair_before_a_key() {
    let mut map = BeeMap::new();
    map.insert(1, "a");
    map.insert(3, "z");
    assert_eq!(map.get_before(&3), Some(&"a"));
    assert_eq!(map.get_before(&2), Some(&"a"));
    assert_eq!(map.get_before(&1), None);
    assert_eq!(map.get_before_inc(&3), Some(&"z"));
    assert_eq!(map.get_before_inc(&2), Some(&"a"));
    assert_eq!(map.get_before_inc(&0), None);
    assert_eq!(map.get_before(&100), Some(&"z"));
}

#[test]
fn pair_before_a_buffered_key() {
    let mut map = BeeMap::new();
    for i in 0..(B * 6) {
        map.insert(i * 2, i);
    }
    assert_eq!(map.get(&0), Some(&0));
    map.insert(B * 4 + 1, 77);
    assert_eq!(map.get_key_value_before(&(B * 4 + 2)), Some((&(B * 4 + 1), &77)));
    assert_eq!(map.get_key_value_before(&(B * 4 + 1)), Some((&(B * 4), &(B * 2))));
    assert_eq!(map.get_key_value_before_inc(&(B * 4 + 1)), Some((&(B * 4 + 1), &77)));
}

#[test]
fn pair_before_every_separator() {
    let mut map = BeeMap::new();
    let n = B * B + 7;
    for i in 0..n {
        map.insert(i * 2 + 1, i);
    }
    for i in 0..n {
        let key = i * 2 + 1;
        let before = if i == 0 { None } else { Some((key - 2, i - 1)) };
        assert_eq!(map.get_key_value_before(&key).map(|(k, v)| (*k, *v)), before);
        assert_eq!(map.get_key_value_before(&(key + 1)).map(|(k, v)| (*k, *v)), Some((key, i)));
        assert_eq!(map.get_key_value_before_inc(&key).map(|(k, v)| (*k, *v)), Some((key, i)));
    }
}

#[test]
fn value_changed_in_place() {
    let mut map = BeeMap::new();
    for i in 0..(B * 3) {
        map.insert(i, i);
    }
    for k in [0, B / 2, B + 3, B * 3 - 1] {
        *map.get_mut(&k).unwrap() += 1000;
    }
    assert_eq!(map.get_mut(&(B * 3)), None);
    assert_eq!(map.get_key_value_mut(&(B * 3)), None);
    for i in 0..(B * 3) {
        let changed = [0, B / 2, B + 3, B * 3 - 1].contains(&i);
        assert_eq!(map.get(&i), Some(&(if changed { i + 1000 } else { i })));
    }
    assert_eq!(map.get_key_value(&(B / 2)), Some((&(B / 2), &(B / 2 + 1000))));
}

#[test]
fn bulk_insert_sorted_runs() {
    let mut map = BeeMap::new();
    map.bulk_insert_sorted((100..200u32).map(|k| (k, k + 1)).collect());
    map.bulk_insert((0..100u32).map(|k| (k, k + 1)).collect(), true);
    map.bulk_insert_sorted((200..900u32).map(|k| (k, k + 1)).collect());
    map.bulk_insert_sorted(Vec::new());
    assert_eq!(map.len(), 900);
    for k in 0..900u32 {
        assert_eq!(map.get(&k), Some(&(k + 1)));
    }
    assert_eq!(map.get(&900), None);
}

#[test]
fn bulk_insert_unsorted_run() {
    let mut map = BeeMap::new();
    map.insert(500u64, 0u64);
    let keys = shuffled(0..500);
    map.bulk_insert(keys.iter().map(|&k| (k, k * 2)).collect(), false);
    map.bulk_insert((501..700u64).rev().map(|k| (k, k * 2)).collect(), false);
    assert_eq!(map.len(), 700);
    for k in 0..700u64 {
        assert_eq!(map.get(&k), Some(&(if k == 500 { 0 } else { k * 2 })));
    }
}

#[test]
fn values_are_released_with_the_map() {
    let payload = Rc::new(0u8);
    {
        let mut map = BeeMap::new();
        for i in 0..(B * B * 3) {
            map.insert(i, Rc::clone(&payload));
        }
        assert_eq!(Rc::strong_count(&payload), B * B * 3 + 1);
        assert!(map.get(&(B * B)).is_some());
        assert!(map.get(&0).is_some());
        assert_eq!(Rc::strong_count(&payload), B * B * 3 + 1);
    }
    assert_eq!(Rc::strong_count(&payload), 1);
}

#[test]
fn values_that_lost_are_released_on_read() {
    let payload = Rc::new(0u8);
    let mut map = BeeMap::new();
    let n = 500;
    for _ in 0..n {
        map.insert(7, Rc::clone(&payload));
    }
    assert_eq!(Rc::strong_count(&payload), n + 1);
    assert!(map.get(&7).is_some());
    assert_eq!(Rc::strong_count(&payload), 2);
    drop(map);
    assert_eq!(Rc::strong_count(&payload), 1);
}

#[test]
fn unread_values_are_released_with_the_map() {
    let payload = Rc::new(0u8);
    let mut map = BeeMap::new();
    for i in 0..1000u32 {
        map.insert(i % 10, Rc::clone(&payload));
    }
    assert_eq!(Rc::strong_count(&payload), 1001);
    drop(map);
    assert_eq!(Rc::strong_count(&payload), 1);
}

#[test]
fn slicer_hands_out_runs_and_items() {
    let mut source = vec![10, 20, 30, 40, 50, 60];
    let mut slicer = VecSlicer::new(&mut source);
    assert_eq!(slicer.remaining(), 6);
    assert_eq!(*slicer.current(), 10);
    slicer.advance(2);
    assert_eq!(slicer.remaining(), 4);
    assert_eq!(*slicer.current(), 30);
    let mut run: SliceThief<i32> = slicer.slice();
    assert_eq!(run.len(), 2);
    assert_eq!(*run.peek_first(), 10);
    assert_eq!(*run.peek_last(), 20);
    assert_eq!(run.next(), Some(10));
    assert_eq!(run.next(), Some(20));
    assert_eq!(run.next(), None);
    assert_eq!(slicer.take(), 30);
    assert_eq!(*slicer.current(), 40);
    let empty = slicer.slice();
    assert_eq!(empty.len(), 0);
    let mut rest = slicer.slice_to_end();
    assert_eq!(rest.len(), 3);
    assert_eq!(slicer.remaining(), 0);
    assert_eq!(rest.next_back(), Some(60));
    assert_eq!(rest.len(), 2);
    assert_eq!(*rest.peek_last(), 50);
    assert_eq!(rest.next(), Some(40));
    assert_eq!(rest.next_back(), Some(50));
    assert_eq!(rest.next_back(), None);
    assert_eq!(rest.next(), None);
    assert!(source.is_empty());
}

#[test]
fn slicer_of_nothing() {
    let mut source: Vec<String> = Vec::new();
    let mut slicer = VecSlicer::new(&mut source);
    assert_eq!(slicer.remaining(), 0);
    let mut run = slicer.slice_to_end();
    assert_eq!(run.len(), 0);
    assert_eq!(run.next(), None);
}

#[test]
fn value_moves_into_a_box() {
    let mut slot = MaybeBox::Inline(String::from("here"));
    assert_eq!(slot.get(), "here");
    slot.boxify();
    assert!(matches!(slot, MaybeBox::Boxed(_)));
    assert_eq!(slot.get(), "here");
    slot.get_mut().push_str(" still");
    slot.boxify();
    assert!(matches!(slot, MaybeBox::Boxed(_)));
    assert_eq!(slot.get(), "here still");
}

#[test]
fn split_sizes() {
    // Ordered insertion of B * 3 keys: the leaf keeps B / 2 pairs, and
    // every (B / 2 + 1)-th pair becomes a branch while more than B / 2
    // pairs are still to come.
    let mut map = BeeMap::new();
    for i in 0..(B * 3) {
        map.insert(i, i);
    }
    let stride = B / 2 + 1;
    for head in [stride - 1, 2 * stride - 1, 3 * stride - 1] {
        assert_eq!(map.get(&head), Some(&head));
        assert_eq!(map.get_before(&head), Some(&(head - 1)));
        assert_eq!(map.get_key_value_before_inc(&(head + 1)), Some((&(head + 1), &(head + 1))));
    }
}

#[test]
fn a_key_written_twice_in_a_row_keeps_the_first_value() {
    // The second pair is no greater than the front of the buffer, so it goes
    // in front of the first, and the one further back stays.
    let mut map = BeeMap::new();
    map.insert(1, 0);
    map.insert(1, 1);
    assert_eq!(map.len(), 2);
    assert_eq!(map.get(&1), Some(&0));
    assert_eq!(map.len(), 1);
}

#[test]
fn a_key_written_again_behind_a_smaller_one_takes_the_new_value() {
    // 3 goes in front of 5; the second 5 is greater than the front and goes
    // behind, where it is the last under its key.
    let mut map = BeeMap::new();
    map.insert(5, 1);
    map.insert(3, 2);
    map.insert(5, 4);
    assert_eq!(map.len(), 3);
    assert_eq!(map.get(&5), Some(&4));
    assert_eq!(map.get(&3), Some(&2));
    assert_eq!(map.len(), 2);
}

#[test]
fn a_run_in_order_goes_in_front_of_greater_keys() {
    let mut map = BeeMap::new();
    map.bulk_insert(vec![(7, 'a'), (9, 'b')], true);
    map.bulk_insert(vec![(1, 'c'), (7, 'd')], true);
    assert_eq!(map.len(), 4);
    // The second run went in front: the 7 of the first run is further back.
    assert_eq!(map.get(&7), Some(&'a'));
    assert_eq!(map.get(&1), Some(&'c'));
    assert_eq!(map.get(&9), Some(&'b'));
    assert_eq!(map.len(), 3);
}

#[test]
fn an_empty_run_changes_nothing() {
    let mut map = BeeMap::new();
    map.insert(2, 20);
    map.bulk_insert(Vec::new(), false);
    map.insert(1, 10);
    map.insert(1, 11);
    assert_eq!(map.len(), 3);
    // The buffer is still known to be in order, so both 1s went in front.
    assert_eq!(map.get(&1), Some(&10));
    assert_eq!(map.get(&2), Some(&20));
}

#[test]
fn a_read_leaves_the_root_out_of_order_as_it_was() {
    // 2 after 3 breaks the order of the buffer, and a read that splits
    // nothing leaves the root marked so: what comes later goes behind, and
    // of two pairs with one key the later one stays.
    let mut map = BeeMap::new();
    map.insert(1, 'a');
    map.insert(3, 'b');
    map.insert(2, 'c');
    assert_eq!(map.get(&2), Some(&'c'));
    map.insert(5, 'x');
    map.insert(4, 'y');
    map.insert(4, 'z');
    assert_eq!(map.get(&4), Some(&'z'));
    assert_eq!(map.get(&5), Some(&'x'));
    assert_eq!(map.len(), 5);
}

#[test]
fn a_read_leaves_the_root_in_order_as_it_was() {
    let mut map = BeeMap::new();
    map.insert(1, 'a');
    map.insert(2, 'b');
    map.insert(3, 'c');
    assert_eq!(map.get(&2), Some(&'b'));
    map.insert(5, 'x');
    map.insert(4, 'y');
    map.insert(4, 'z');
    // Both 4s went in front of the 5, the second in front of the first.
    assert_eq!(map.get(&4), Some(&'y'));
    assert_eq!(map.get(&5), Some(&'x'));
    assert_eq!(map.len(), 5);
}

#[test]
fn a_new_root_starts_in_order() {
    // The buffer of the first root is out of order. The read splits that
    // root, and the root that the tree grows is in order again: the two
    // pairs under the new key go in front, the second before the first, and
    // reach the leaf in that order.
    let mut map = BeeMap::new();
    let count = (B * 2) as u64;
    for key in (0..count).rev() {
        map.insert(key * 2, key);
    }
    map.insert(1, 0);
    map.insert(0, 0);
    assert_eq!(map.get(&(count - 2)), Some(&(count / 2 - 1)));
    map.insert(count * 4, 7);
    map.insert(count * 3, 8);
    map.insert(count * 3, 9);
    assert_eq!(map.get(&(count * 3)), Some(&8));
    assert_eq!(map.get(&(count * 4)), Some(&7));
}

#[test]
fn a_leaf_of_450_pairs_in_order_is_split_at_every_76th() {
    // Of 450 pairs the 76th, the 152nd, the 228th and the 304th are
    // promoted; every key is found whether it was promoted or filed.
    let mut map = BeeMap::new();
    for key in 0..(B as u64 * 3) {
        map.insert(key, key + 1000);
    }
    assert_eq!(map.get(&75), Some(&1075));
    assert_eq!(map.get(&225), Some(&1225));
    assert_eq!(map.get(&227), Some(&1227));
    assert_eq!(map.get(&303), Some(&1303));
    assert_eq!(map.get(&379), Some(&1379));
    assert_eq!(map.get(&0), Some(&1000));
    assert_eq!(map.get(&449), Some(&1449));
    assert_eq!(map.get(&450), None);
    assert_eq!(map.len(), B * 3);
}

#[test]
fn a_value_changed_in_place_leaves_the_other_keys() {
    let mut map = BeeMap::new();
    for key in 0..(B as u64 * 3) {
        map.insert(key, key);
    }
    if let Some(value) = map.get_mut(&75) {
        *value = 7;
    }
    if let Some(value) = map.get_mut(&300) {
        *value += 1;
    }
    assert_eq!(map.get_mut(&1000), None);
    assert_eq!(map.get(&75), Some(&7));
    assert_eq!(map.get(&300), Some(&301));
    assert_eq!(map.get(&74), Some(&74));
    assert_eq!(map.get(&76), Some(&76));
    assert_eq!(map.len(), B * 3);
}

#[test]
fn the_pair_before_may_be_a_separator() {
    // Of 450 pairs in order the 76th becomes a separator. The key after it
    // is the first of the leaf under it, so the pair before that key is the
    // separator itself.
    let mut map = BeeMap::new();
    for key in 0..(B as u64 * 3) {
        map.insert(key, key + 1000);
    }
    assert_eq!(map.get(&0), Some(&1000));
    assert_eq!(map.get_before(&76), Some(&1075));
    assert_eq!(map.get_key_value_before(&76), Some((&75, &1075)));
    assert_eq!(map.get_before_inc(&76), Some(&1076));
    assert_eq!(map.get_before(&75), Some(&1074));
    assert_eq!(map.get_before_inc(&75), Some(&1075));
    assert_eq!(map.get_key_value_before_inc(&75), Some((&75, &1075)));
    assert_eq!(map.get_before(&152), Some(&1151));
    assert_eq!(map.get_before(&0), None);
    assert_eq!(map.get_before_inc(&0), Some(&1000));
    assert_eq!(map.get_before(&1000), Some(&1449));
    // A second read finds the same.
    assert_eq!(map.get_before(&76), Some(&1075));
    assert_eq!(map.get(&75), Some(&1075));
    assert_eq!(map.len(), B * 3);
}
