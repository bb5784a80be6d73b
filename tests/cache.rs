use homework::cache::Cache;

#[test]
fn cache_no_duplicate_sequential() {
    let mut cache = Cache::default();
    cache.get_or_insert_with(1, |_| 1);
    cache.get_or_insert_with(2, |_| 2);
    cache.get_or_insert_with(3, |_| 3);
    assert_eq!(cache.get_or_insert_with(1, |_| panic!()), 1);
    assert_eq!(cache.get_or_insert_with(2, |_| panic!()), 2);
    assert_eq!(cache.get_or_insert_with(3, |_| panic!()), 3);
}

#[test]
fn cache_computes_each_key_once() {
    let mut cache: Cache<usize, usize> = Cache::default();
    let mut runs = 0usize;
    for round in 0..3 {
        for key in 0..16usize {
            let v = cache.get_or_insert_with(key, |k| {
                runs += 1;
                k * 10 + round
            });
            assert_eq!(v, key * 10);
        }
    }
    assert_eq!(runs, 16);
}

#[test]
fn cache_passes_key_to_computation() {
    let mut cache: Cache<String, usize> = Cache::default();
    assert_eq!(cache.get_or_insert_with("abc".to_string(), |k| k.len()), 3);
    assert_eq!(cache.get_or_insert_with("abc".to_string(), |_| 99), 3);
}
