use homework::list_set::OrderedListSet;

#[test]
fn list_set_insert_contains_remove() {
    let mut s = OrderedListSet::new();
    assert_eq!(s.insert(3), Ok(()));
    assert_eq!(s.insert(1), Ok(()));
    assert_eq!(s.insert(2), Ok(()));
    assert_eq!(s.insert(2), Err(2));
    assert!(s.contains(&1));
    assert!(!s.contains(&4));
    assert_eq!(s.remove(&1), Ok(1));
    assert_eq!(s.remove(&1), Err(()));
    assert!(!s.contains(&1));
}

#[test]
fn list_set_iterates_in_order() {
    let mut s = OrderedListSet::default();
    for k in [5, 3, 9, 1, 7].iter() {
        assert_eq!(s.insert(*k), Ok(()));
    }
    let mut it = s.iter();
    let mut seen = Vec::new();
    while let Some(k) = it.next() {
        seen.push(*k);
    }
    assert_eq!(seen, vec![1, 3, 5, 7, 9]);
}
