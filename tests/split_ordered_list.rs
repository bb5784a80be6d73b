use homework::split_key::{regular_order_key, sentinel_order_key};
use homework::split_ordered_list::SplitOrderedList;

#[test]
fn order_keys_are_reversed() {
    assert_eq!(sentinel_order_key(0), 0);
    assert_eq!(sentinel_order_key(1), 0x8000_0000_0000_0000);
    assert_eq!(sentinel_order_key(6), 0x6000_0000_0000_0000);
    assert_eq!(regular_order_key(0), 1);
    assert_eq!(regular_order_key(2), 0x4000_0000_0000_0001);
    assert!(sentinel_order_key(3) < regular_order_key(3));
    assert!(sentinel_order_key(1) < sentinel_order_key(3));
}

#[test]
fn insert_then_lookup() {
    let mut m = SplitOrderedList::new();
    assert_eq!(m.insert(7, "seven"), Ok(()));
    assert_eq!(m.lookup(7), Some(&"seven"));
    assert_eq!(m.lookup(8), None);
}

#[test]
fn duplicate_insert_returns_value() {
    let mut m = SplitOrderedList::new();
    assert_eq!(m.insert(4, 1), Ok(()));
    assert_eq!(m.insert(4, 2), Err(2));
    assert_eq!(m.lookup(4), Some(&1));
    assert_eq!(m.count(), 1);
}

#[test]
fn delete_removes() {
    let mut m = SplitOrderedList::new();
    assert_eq!(m.insert(11, 110), Ok(()));
    assert_eq!(m.delete(11), Ok(110));
    assert_eq!(m.lookup(11), None);
    assert_eq!(m.delete(11), Err(()));
    assert_eq!(m.count(), 0);
}

#[test]
fn delete_missing_key() {
    let mut m: SplitOrderedList<u32> = SplitOrderedList::new();
    assert_eq!(m.delete(0), Err(()));
}

#[test]
fn largest_key() {
    let mut m = SplitOrderedList::new();
    let k = (1usize << 63) - 1;
    assert_eq!(m.insert(k, 1u8), Ok(()));
    assert_eq!(m.insert(0, 2u8), Ok(()));
    assert_eq!(m.lookup(k), Some(&1));
    assert_eq!(m.lookup(0), Some(&2));
    assert_eq!(m.delete(k), Ok(1));
    assert_eq!(m.lookup(k), None);
}

#[test]
fn size_grows_with_count() {
    let mut m = SplitOrderedList::new();
    assert_eq!(m.size(), 2);
    for k in 0..5usize {
        assert_eq!(m.insert(k, k), Ok(()));
    }
    // 5 entries exceed 2 buckets * 2
    assert_eq!(m.size(), 4);
    for k in 5..1000usize {
        assert_eq!(m.insert(k, k), Ok(()));
        assert!(m.size() * 2 >= m.count());
        assert!(m.size().is_power_of_two());
    }
    assert_eq!(m.size(), 512);
    for k in 0..1000usize {
        assert_eq!(m.lookup(k), Some(&k));
    }
}

#[test]
fn order_independence() {
    let orders: [[usize; 5]; 4] = [[5, 3, 9, 1, 7], [1, 3, 5, 7, 9], [9, 7, 5, 3, 1], [7, 1, 9, 3, 5]];
    for order in orders.iter() {
        let mut m = SplitOrderedList::new();
        for &k in order.iter() {
            assert_eq!(m.insert(k, k * 2), Ok(()));
        }
        for k in 0..12usize {
            let expected = if [5, 3, 9, 1, 7].contains(&k) { Some(k * 2) } else { None };
            assert_eq!(m.lookup(k).copied(), expected);
        }
        assert_eq!(m.count(), 5);
    }
}

#[test]
fn disjoint_ranges() {
    let mut m = SplitOrderedList::new();
    let n = 4usize;
    for i in 0..n {
        for k in i * 1000..i * 1000 + 1000 {
            assert_eq!(m.insert(k, i), Ok(()));
        }
    }
    assert_eq!(m.count(), n * 1000);
    for i in 0..n {
        for k in i * 1000..i * 1000 + 1000 {
            assert_eq!(m.lookup(k), Some(&i));
        }
    }
    assert_eq!(m.lookup(n * 1000), None);
}

#[test]
fn sparse_keys_across_buckets() {
    let mut m = SplitOrderedList::default();
    let keys: Vec<usize> = (0..300usize).map(|i| i * 7919 + (i << 40)).collect();
    for &k in keys.iter() {
        assert_eq!(m.insert(k, k + 1), Ok(()));
    }
    for &k in keys.iter().step_by(2) {
        assert_eq!(m.delete(k), Ok(k + 1));
    }
    for (i, &k) in keys.iter().enumerate() {
        let expected = if i % 2 == 0 { None } else { Some(k + 1) };
        assert_eq!(m.lookup(k).copied(), expected);
    }
    assert_eq!(m.count(), 150);
}

#[test]
fn reinsert_after_delete() {
    let mut m = SplitOrderedList::new();
    for round in 0..3usize {
        for k in 0..200usize {
            assert_eq!(m.insert(k, k + round), Ok(()));
        }
        for k in 0..200usize {
            assert_eq!(m.lookup(k), Some(&(k + round)));
        }
        for k in 0..200usize {
            assert_eq!(m.delete(k), Ok(k + round));
        }
        assert_eq!(m.count(), 0);
    }
    assert_eq!(m.lookup(5), None);
}
