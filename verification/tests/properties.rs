use split_ordered_list::SplitOrderedList;

const TOP: u64 = 0x8000_0000_0000_0000;

#[test]
fn so_key_formulas() {
    assert_eq!(SplitOrderedList::<usize>::get_so_bucket_key(0), 0);
    assert_eq!(SplitOrderedList::<usize>::get_so_bucket_key(1), TOP);
    assert_eq!(SplitOrderedList::<usize>::get_so_bucket_key(2), 0x4000_0000_0000_0000);
    assert_eq!(SplitOrderedList::<usize>::get_so_bucket_key(3), 0xC000_0000_0000_0000);
    assert_eq!(SplitOrderedList::<usize>::get_so_bucket_key(6), 0x6000_0000_0000_0000);
    assert_eq!(SplitOrderedList::<usize>::get_so_data_key(0), 1);
    assert_eq!(SplitOrderedList::<usize>::get_so_data_key(1), TOP + 1);
    assert_eq!(SplitOrderedList::<usize>::get_so_data_key(5), 0xA000_0000_0000_0001);
    assert_eq!(
        SplitOrderedList::<usize>::get_so_data_key(0x7FFF_FFFF_FFFF_FFFF),
        0xFFFF_FFFF_FFFF_FFFF
    );
}

#[test]
fn traversal_interleaves_sentinels_and_data() {
    let mut list = SplitOrderedList::<usize>::new();
    assert_eq!(list.split_order_keys(), vec![0, TOP]);

    assert_eq!(list.insert(0, 10), Ok(()));
    assert_eq!(list.split_order_keys(), vec![0, 1, TOP]);

    assert_eq!(list.insert(1, 11), Ok(()));
    assert_eq!(list.split_order_keys(), vec![0, 1, TOP, TOP + 1]);

    assert_eq!(list.insert(2, 12), Ok(()));
    assert_eq!(
        list.split_order_keys(),
        vec![0, 1, 0x4000_0000_0000_0001, TOP, TOP + 1]
    );

    assert_eq!(list.insert(3, 13), Ok(()));
    assert_eq!(
        list.split_order_keys(),
        vec![0, 1, 0x4000_0000_0000_0001, TOP, TOP + 1, 0xC000_0000_0000_0001]
    );
}

#[test]
fn size_doubles_once_per_threshold_crossing() {
    let mut list = SplitOrderedList::<usize>::new();
    let mut last_size = list.current_size();
    assert_eq!(last_size, 2);
    let mut expected_sizes = Vec::new();
    for c in 1..=40u64 {
        assert_eq!(list.insert(c - 1, c as usize), Ok(()));
        let size = list.current_size();
        // always a power of two, never shrinking
        assert!(size.is_power_of_two());
        assert!(size >= last_size);
        // doubled exactly when the new count crossed size * LOAD_FACTOR
        if c > last_size * 2 {
            assert_eq!(size, last_size * 2);
        } else {
            assert_eq!(size, last_size);
        }
        last_size = size;
        expected_sizes.push(size);
    }
    assert_eq!(expected_sizes[3], 2);
    assert_eq!(expected_sizes[4], 4);
    assert_eq!(expected_sizes[7], 4);
    assert_eq!(expected_sizes[8], 8);
    assert_eq!(expected_sizes[16], 16);
}

#[test]
fn bucket_materialization_is_idempotent() {
    let mut list = SplitOrderedList::<usize>::new();
    for k in 0..5u64 {
        assert_eq!(list.insert(k, k as usize), Ok(()));
    }
    assert_eq!(list.current_size(), 4);
    let before = list.split_order_keys();
    assert!(!before.contains(&0x4000_0000_0000_0000));

    // a miss in an unmaterialized bucket creates its sentinel...
    assert_eq!(list.lookup(6), None);
    let after_first = list.split_order_keys();
    assert_eq!(after_first.len(), before.len() + 1);
    assert!(after_first.contains(&0x4000_0000_0000_0000));

    // ...and touching the same bucket again changes nothing
    assert_eq!(list.lookup(6), None);
    assert_eq!(list.split_order_keys(), after_first);
    assert_eq!(list.lookup(2), Some(&2));
    assert_eq!(list.split_order_keys(), after_first);
}

#[test]
fn traversal_sorted_at_every_step() {
    // a sequence crossing several resize thresholds under LOAD_FACTOR = 2
    let mut list = SplitOrderedList::<usize>::new();
    for k in [0u64, 1, 2, 3, 4, 6, 8, 10, 14, 7] {
        assert_eq!(list.insert(k, k as usize), Ok(()));
        let keys = list.split_order_keys();
        for pair in keys.windows(2) {
            assert!(pair[0] < pair[1]);
        }
    }
    for k in [0u64, 1, 2, 3, 4, 6, 8, 10, 14, 7] {
        assert_eq!(list.lookup(k), Some(&(k as usize)));
    }
    assert_eq!(list.current_size(), 8);
}

#[test]
fn count_tracks_live_keys() {
    let mut list = SplitOrderedList::<usize>::new();
    assert_eq!(list.item_count(), 0);
    for k in 0..32u64 {
        assert_eq!(list.insert(k, k as usize), Ok(()));
    }
    assert_eq!(list.item_count(), 32);
    for k in 0..16u64 {
        assert_eq!(list.delete(2 * k), Ok((2 * k) as usize));
    }
    assert_eq!(list.item_count(), 16);
    for k in 0..16u64 {
        assert_eq!(list.insert(2 * k, 100 + k as usize), Ok(()));
    }
    assert_eq!(list.item_count(), 32);
}

#[test]
fn reinsert_after_delete() {
    let mut list = SplitOrderedList::<String>::new();
    assert_eq!(list.insert(3, String::from("a")), Ok(()));
    // a second insert of a bound key hands the rejected value back unchanged
    assert_eq!(list.insert(3, String::from("b")), Err(String::from("b")));
    assert_eq!(list.lookup(3), Some(&String::from("a")));
    assert_eq!(list.delete(3), Ok(String::from("a")));
    // after the removal the key is free again
    assert_eq!(list.insert(3, String::from("b")), Ok(()));
    assert_eq!(list.lookup(3), Some(&String::from("b")));
    // deleting an absent key reports failure and changes nothing
    assert_eq!(list.delete(4), Err(()));
    assert_eq!(list.lookup(3), Some(&String::from("b")));
    assert_eq!(list.item_count(), 1);
}

#[test]
fn largest_valid_key_roundtrip() {
    let mut list = SplitOrderedList::<usize>::new();
    let key = 0x7FFF_FFFF_FFFF_FFFF;
    assert_eq!(list.insert(key, 7), Ok(()));
    assert_eq!(list.lookup(key), Some(&7));
    assert_eq!(list.delete(key), Ok(7));
    assert_eq!(list.lookup(key), None);
}

#[test]
fn ancestor_chain_materializes() {
    // grow to eight buckets while touching only bucket 0, so buckets other
    // than 0 and 1 stay unmaterialized
    let mut list = SplitOrderedList::<usize>::new();
    for i in 0..9u64 {
        assert_eq!(list.insert(8 * i, i as usize), Ok(()));
    }
    assert_eq!(list.current_size(), 8);
    let before = list.split_order_keys();
    assert!(!before.contains(&0x4000_0000_0000_0000)); // sentinel of bucket 2
    assert!(!before.contains(&0x6000_0000_0000_0000)); // sentinel of bucket 6

    // one miss in bucket 6 materializes its whole ancestor chain 6 -> 2 -> 0
    assert_eq!(list.lookup(14), None);
    let after = list.split_order_keys();
    assert!(after.contains(&0x4000_0000_0000_0000));
    assert!(after.contains(&0x6000_0000_0000_0000));
    assert_eq!(after.len(), before.len() + 2);
}
