use homework::growable_array::GrowableArray;

#[test]
fn slot_of_largest_index_is_stable() {
    let mut a: GrowableArray<u32> = GrowableArray::new();
    let i = (1usize << 63) - 1;
    let r1 = a.get(i);
    let r2 = a.get(i);
    assert_eq!(r1, r2);
    assert_eq!(a.load(r1), None);
    a.store(r1, 5);
    let r3 = a.get(i);
    assert_eq!(a.load(r3), Some(5));
}

#[test]
fn slots_survive_growth() {
    let mut a: GrowableArray<usize> = GrowableArray::default();
    let small = a.get(1);
    a.store(small, 10);
    let big = a.get(0b111011 << 20);
    assert_ne!(small, big);
    a.store(big, 20);
    assert_eq!(a.get(1), small);
    let r = a.get(1);
    assert_eq!(a.load(r), Some(10));
    let r = a.get(0b111011 << 20);
    assert_eq!(a.load(r), Some(20));
    let r = a.get(2);
    assert_eq!(a.load(r), None);
}

#[test]
fn distinct_indices_distinct_slots() {
    let mut a: GrowableArray<usize> = GrowableArray::new();
    let idx = [0usize, 1, 1023, 1024, 1025, 1 << 20, (1 << 20) + 1, usize::MAX];
    for &i in idx.iter() {
        let r = a.get(i);
        a.store(r, i);
    }
    for &i in idx.iter() {
        let r = a.get(i);
        assert_eq!(a.load(r), Some(i));
    }
}
