use shuffle_iter::permute::ShuffleError;
use shuffle_iter::shuffle::ShuffleIterator;
use std::collections::HashSet;

#[test]
fn permute_rejects_zero_length() {
    assert_eq!(
        Err(ShuffleError::InvalidLength),
        ShuffleIterator::<i32>::permute(0, 0, 12345)
    );
    assert_eq!(
        Err(ShuffleError::InvalidLength),
        ShuffleIterator::<i32>::permute(7, 0, 0)
    );
}

#[test]
fn permute_singleton_is_stable() {
    for seed in [0u32, 1, 7, 42, 0xdead_beef, u32::MAX] {
        assert_eq!(Ok(0), ShuffleIterator::<i32>::permute(0, 1, seed));
    }
}

#[test]
fn permute_pinned_outputs_for_fixed_seeds() {
    let seed0: Vec<u32> = (0..10).map(|i| ShuffleIterator::<i32>::permute(i, 10, 0).unwrap()).collect();
    assert_eq!(vec![0, 9, 1, 7, 5, 3, 2, 8, 4, 6], seed0);
    let seed42: Vec<u32> = (0..10).map(|i| ShuffleIterator::<i32>::permute(i, 10, 42).unwrap()).collect();
    assert_eq!(vec![7, 9, 6, 8, 3, 5, 1, 4, 2, 0], seed42);
}

#[test]
fn permute_is_a_bijection_for_tested_pairs() {
    for (length, seed) in [
        (1u32, 5u32),
        (2, 0),
        (7, 13),
        (10, 0),
        (10, 42),
        (33, 7),
        (100, 0xdead_beef),
        (256, 1),
    ] {
        let outputs: HashSet<u32> = (0..length)
            .map(|i| ShuffleIterator::<i32>::permute(i, length, seed).unwrap())
            .collect();
        let expected: HashSet<u32> = (0..length).collect();
        assert_eq!(expected, outputs);
    }
}
