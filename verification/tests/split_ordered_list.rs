use split_ordered_list::SplitOrderedList;
use std::collections::HashMap;

/// A small deterministic generator for the randomized drivers.
fn next_rand(state: &mut u64) -> u64 {
    *state = state
        .wrapping_mul(6364136223846793005)
        .wrapping_add(1442695040888963407);
    *state >> 33
}

/// Runs `steps` randomized insert/delete/lookup operations over `key_space`
/// keys against a reference map, then checks the final state: the advisory
/// count matches the number of live keys and the split-order traversal is
/// strictly increasing.
fn run_stress(steps: usize, key_space: u64, seed: u64) {
    let mut list = SplitOrderedList::<usize>::new();
    let mut model: HashMap<u64, usize> = HashMap::new();
    let mut state = seed;
    for _ in 0..steps {
        let key = next_rand(&mut state) % key_space;
        match next_rand(&mut state) % 3 {
            0 => {
                let value = key as usize;
                match list.insert(key, value) {
                    Ok(()) => {
                        assert!(!model.contains_key(&key));
                        model.insert(key, value);
                    }
                    Err(v) => {
                        assert_eq!(v, value);
                        assert!(model.contains_key(&key));
                    }
                }
            }
            1 => match list.delete(key) {
                Ok(v) => assert_eq!(Some(v), model.remove(&key)),
                Err(()) => assert_eq!(model.remove(&key), None),
            },
            _ => {
                assert_eq!(list.lookup(key), model.get(&key));
            }
        }
    }
    assert_eq!(list.item_count() as usize, model.len());
    let keys = list.split_order_keys();
    for pair in keys.windows(2) {
        assert!(pair[0] < pair[1]);
    }
    for (&k, &v) in model.iter() {
        assert_eq!(list.lookup(k), Some(&v));
    }
}

#[test]
pub fn smoke() {
    let mut list = SplitOrderedList::<usize>::new();

    assert_eq!(list.insert(37, 37), Ok(()));
    assert_eq!(list.lookup(42), None);
    assert_eq!(list.lookup(37), Some(&37));

    assert_eq!(list.insert(42, 42), Ok(()));
    assert_eq!(list.lookup(42), Some(&42));
    assert_eq!(list.lookup(37), Some(&37));

    assert_eq!(list.delete(37), Ok(37));
    assert_eq!(list.lookup(42), Some(&42));
    assert_eq!(list.lookup(37), None);

    assert_eq!(list.delete(37), Err(()));
    assert_eq!(list.lookup(42), Some(&42));
    assert_eq!(list.lookup(37), None);
}

#[test]
pub fn fire() {
    let mut list = SplitOrderedList::<usize>::new();
    println!("{list:?}");

    assert_eq!(list.insert(9, 9), Ok(()));
    println!("{list:?}");
    assert_eq!(list.insert(8, 8), Ok(()));
    println!("{list:?}");
    assert_eq!(list.insert(13, 13), Ok(()));
    println!("{list:?}");
    assert_eq!(list.insert(5, 5), Ok(()));
    println!("{list:?}");
    assert_eq!(list.insert(7, 7), Ok(()));
    println!("{list:?}");
    assert_eq!(list.lookup(7), Some(&7));
    println!("{list:?}");
}

#[test]
pub fn buckets() {
    let mut list = SplitOrderedList::<usize>::new();
    println!("{list:?}");

    assert_eq!(list.insert(0, 0), Ok(()));
    assert_eq!(list.insert(1, 1), Ok(()));
    assert_eq!(list.insert(2, 2), Ok(()));
    assert_eq!(list.insert(3, 3), Ok(()));
    assert_eq!(list.insert(4, 4), Ok(()));
    assert_eq!(list.insert(6, 6), Ok(()));
    assert_eq!(list.insert(8, 8), Ok(()));
    println!("{list:?}");
    assert_eq!(list.insert(10, 10), Ok(()));
    assert_eq!(list.insert(14, 14), Ok(()));
    println!("{list:?}");
    println!("{list:?}");
    println!("{list:?}");
    assert_eq!(list.insert(7, 7), Ok(()));
    println!("{list:?}");

    for k in [0u64, 1, 2, 3, 4, 6, 7, 8, 10, 14] {
        assert_eq!(list.lookup(k), Some(&(k as usize)));
    }
}

#[test]
fn stress_sequential() {
    const STEPS: usize = 4096;
    run_stress(STEPS, 128, 1);
}

#[test]
fn lookup_concurrent() {
    const THREADS: usize = 4;
    const STEPS: usize = 4096;
    let mut list = SplitOrderedList::<usize>::new();
    for k in 0..128u64 {
        assert_eq!(list.insert(k, k as usize), Ok(()));
    }
    // the lookups of several readers, exercised one interleaving at a time
    for round in 0..THREADS {
        let mut state = round as u64;
        for _ in 0..STEPS / THREADS {
            let key = next_rand(&mut state) % 256;
            if key < 128 {
                assert_eq!(list.lookup(key), Some(&(key as usize)));
            } else {
                assert_eq!(list.lookup(key), None);
            }
        }
    }
}

#[test]
fn insert_concurrent() {
    const THREADS: usize = 8;
    const STEPS: usize = 4096 * 4;
    let per_thread = (STEPS / THREADS) as u64;
    let mut list = SplitOrderedList::<usize>::new();
    // disjoint key sets, interleaved round-robin as a thread scheduler might
    for round in 0..per_thread {
        for t in 0..THREADS as u64 {
            let key = t * per_thread + round;
            assert_eq!(list.insert(key, key as usize), Ok(()));
        }
    }
    // no update was lost
    for key in 0..STEPS as u64 {
        assert_eq!(list.lookup(key), Some(&(key as usize)));
    }
    assert_eq!(list.item_count(), STEPS as u64);
}

#[test]
fn stress_concurrent() {
    const THREADS: usize = 16;
    const STEPS: usize = 4096 * 512;
    for t in 0..THREADS {
        run_stress(STEPS / THREADS, 512, t as u64);
    }
}

#[test]
fn log_concurrent() {
    const THREADS: usize = 16;
    const STEPS: usize = 4096 * 64;
    for t in 0..THREADS {
        run_stress(STEPS / THREADS, 64, 1000 + t as u64);
    }
}
