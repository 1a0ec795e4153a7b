use shuffle_iter::shuffle::shuffled;
use shuffle_iter::shuffle::ShuffleIterator;
use std::collections::HashSet;

fn collect_copied<T: Copy>(data: &[T]) -> Vec<T> {
    let mut it = shuffled(data);
    let mut out = Vec::new();
    while let Some(x) = it.next() {
        out.push(*x);
    }
    out
}

#[test]
fn shuffle_is_exhaustive() {
    let data = [1, 2, 3, 4, 5, 6, 7, 8, 9, 10];
    let expected = data.iter().copied().collect::<HashSet<_>>();
    let shuffled_elems = collect_copied(data.as_slice())
        .into_iter()
        .collect::<HashSet<_>>();
    assert_eq!(expected, shuffled_elems);
}

#[test]
fn shuffle_is_random() {
    let first_100_numbers = (0..100).collect::<Vec<_>>();
    // Shuffle twice, the shuffles must not be equal. Since there are 2^32
    // possible seed values, the chance for two shuffles to be equal is
    // 1/2^32. This is not a lot, but can happen, so we shuffle three times
    // and require that at least one shuffle is unique, the chance for that
    // is 1/2^64.
    let s1 = collect_copied(first_100_numbers.as_slice());
    let s2 = collect_copied(first_100_numbers.as_slice());
    let s3 = collect_copied(first_100_numbers.as_slice());

    let s1_unique = s1 != s2 || s1 != s3;
    let s2_unique = s2 != s1 || s2 != s3;
    assert!(s1_unique || s2_unique);
}

#[test]
fn shuffle_does_not_modify_slice() {
    let data = [1, 2, 3, 4, 5, 6, 7, 8, 9, 10];
    let mut it = shuffled(data.as_slice());
    while let Some(_) = it.next() {}
    // The assertion is technically irrelevant since data is declared as immutable
    assert_eq!(data, [1, 2, 3, 4, 5, 6, 7, 8, 9, 10]);
}

#[test]
fn shuffle_with_seed_is_deterministic() {
    let data = [10, 20, 30, 40, 50, 60, 70];
    let mut a = ShuffleIterator::with_seed(data.as_slice(), 42);
    let mut b = ShuffleIterator::with_seed(data.as_slice(), 42);
    loop {
        match (a.next(), b.next()) {
            (Some(x), Some(y)) => assert_eq!(x, y),
            (None, None) => break,
            _ => panic!("the two iterations ended at different lengths"),
        }
    }
}

#[test]
fn shuffle_with_seed_follows_permute() {
    let data = [5, 6, 7, 8, 9, 10, 11, 12, 13, 14];
    let mut it = ShuffleIterator::with_seed(data.as_slice(), 42);
    let mut got = Vec::new();
    while let Some(x) = it.next() {
        got.push(*x);
    }
    let mut expected = Vec::new();
    for i in 0..10u32 {
        let j = ShuffleIterator::<i32>::permute(i, 10, 42).unwrap();
        expected.push(data[j as usize]);
    }
    assert_eq!(expected, got);
}

#[test]
fn shuffle_of_empty_slice_yields_nothing() {
    let data: [i32; 0] = [];
    let mut it = shuffled(data.as_slice());
    assert_eq!(None, it.next());
    assert_eq!(None, it.next());
}
