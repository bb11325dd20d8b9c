use split_ordered_list::OrderedListSet;

#[test]
fn set_insert_contains_remove() {
    let mut set = OrderedListSet::new();
    assert!(!set.contains(5));
    assert_eq!(set.insert(5), Ok(()));
    assert!(set.contains(5));
    // a duplicate insertion hands the key back
    assert_eq!(set.insert(5), Err(5));
    assert_eq!(set.insert(3), Ok(()));
    assert_eq!(set.insert(9), Ok(()));
    assert_eq!(set.remove(5), Ok(5));
    assert!(!set.contains(5));
    // removing an absent key fails without side effects
    assert_eq!(set.remove(5), Err(()));
    assert!(set.contains(3));
    assert!(set.contains(9));
}

#[test]
fn set_iter_ascending() {
    let mut set = OrderedListSet::new();
    for x in [9u64, 1, 7, 3, 5, 0] {
        assert_eq!(set.insert(x), Ok(()));
    }
    let mut it = set.iter();
    let mut seen = Vec::new();
    while let Some(x) = it.next() {
        seen.push(x);
    }
    assert_eq!(seen, vec![0, 1, 3, 5, 7, 9]);
}

#[test]
fn set_default_is_empty() {
    let set = OrderedListSet::default();
    let mut it = set.iter();
    assert_eq!(it.next(), None);
}
