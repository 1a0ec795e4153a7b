use shuffle_iter::cartesian::Cartesian;
use shuffle_iter::cartesian::CartesianIteratorExt;

fn collect_pairs<A: Copy, B: Copy>(mut c: Cartesian<A, B>) -> Vec<(A, B)> {
    let mut out = Vec::new();
    while let Some(pair) = c.next() {
        out.push(pair);
    }
    out
}

#[test]
fn cartesian_of_empty_ranges() {
    let actual = collect_pairs(
        (0..0).collect::<Vec<i32>>().cartesian((1..1).collect::<Vec<i32>>()),
    );
    assert_eq!(Vec::<(i32, i32)>::new(), actual);
}

#[test]
fn cartesian_with_one_empty_range() {
    // Test with both the inner range empty and the outer range empty
    assert_eq!(
        Vec::<(i32, i32)>::new(),
        collect_pairs((0..0).collect::<Vec<i32>>().cartesian((1..10).collect::<Vec<i32>>()))
    );
    assert_eq!(
        Vec::<(i32, i32)>::new(),
        collect_pairs((0..10).collect::<Vec<i32>>().cartesian((1..1).collect::<Vec<i32>>()))
    );
}

#[test]
fn cartesian_2d_of_integers() {
    let actual = collect_pairs(
        (0..3).collect::<Vec<i32>>().cartesian((4..7).collect::<Vec<i32>>()),
    );
    //Notice the order of the elements in the tuple! This defines which iterator is the outer one and which
    //the inner one!
    let expected = vec![
        (0, 4),
        (1, 4),
        (2, 4),
        (0, 5),
        (1, 5),
        (2, 5),
        (0, 6),
        (1, 6),
        (2, 6),
    ];
    assert_eq!(expected, actual);
}

#[test]
fn cartesian_3d_of_integers() {
    // You should also be able to chain cartesian products!
    // Here, the order of inner/outer sequences becomes even more important!
    let two_d = collect_pairs(
        (0..2).collect::<Vec<i32>>().cartesian((2..4).collect::<Vec<i32>>()),
    );
    let actual = collect_pairs(two_d.cartesian((4..6).collect::<Vec<i32>>()));
    let expected = vec![
        ((0, 2), 4),
        ((1, 2), 4),
        ((0, 3), 4),
        ((1, 3), 4),
        ((0, 2), 5),
        ((1, 2), 5),
        ((0, 3), 5),
        ((1, 3), 5),
    ];
    assert_eq!(expected, actual);
}

#[test]
fn cartesian_2d_of_string_slices() {
    let str1 = ["a", "b", "c"];
    let str2 = ["1", "2"];
    let actual = collect_pairs(str1.to_vec().cartesian(str2.to_vec()));
    let expected = vec![
        ("a", "1"),
        ("b", "1"),
        ("c", "1"),
        ("a", "2"),
        ("b", "2"),
        ("c", "2"),
    ];
    assert_eq!(expected, actual);
}

#[test]
fn cartesian_is_exhausted_after_the_last_pair() {
    let mut c = vec![1i32, 2].cartesian(vec![3i32]);
    assert_eq!(Some((1, 3)), c.next());
    assert_eq!(Some((2, 3)), c.next());
    assert_eq!(None, c.next());
    assert_eq!(None, c.next());
    assert_eq!(None, c.next());
}
