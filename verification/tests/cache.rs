use split_ordered_list::Cache;

#[test]
fn cache_computes_each_key_once() {
    let mut cache = Cache::<u64>::new();
    let mut calls = 0usize;
    let v = cache.get_or_insert_with(7, |k| {
        calls += 1;
        k * 3
    });
    assert_eq!(v, 21);
    assert_eq!(calls, 1);
    // a remembered key never runs its closure again
    let v = cache.get_or_insert_with(7, |_| panic!("recomputed a cached key"));
    assert_eq!(v, 21);
    let v = cache.get_or_insert_with(8, |k| k + 1);
    assert_eq!(v, 9);
    let v = cache.get_or_insert_with(8, |_| panic!("recomputed a cached key"));
    assert_eq!(v, 9);
}

#[test]
fn cache_default_is_empty() {
    let mut cache = Cache::<u64>::default();
    let v = cache.get_or_insert_with(1, |k| k + 41);
    assert_eq!(v, 42);
}
