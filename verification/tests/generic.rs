use segsum::{SegSum, Summable};

#[test]
fn pairs_are_summable() {
    assert_eq!(<(i64, i64) as Summable>::zero_value(), (0, 0));
    assert_eq!((1i64, 2i64).sum_with(&(10, 20)), (11, 22));
    assert_eq!((1i64, -2i64).scaled(5), (5, -10));
    assert_eq!((i64::MAX, 1i64).sum_with(&(1, 1)), (i64::MIN, 2));
    assert_eq!((3i64, 4i64).duplicate(), (3, 4));
    assert_eq!(((1i64, 2i64), 3i64).scaled(2), ((2, 4), 6));
}

#[test]
fn tree_of_pairs() {
    let mut seg = SegSum::<(i64, i64)>::new(0, 10);
    assert_eq!(seg.query_range(0, 10), (0, 0));
    seg.update(0, 10, &(1, -1));
    seg.add(3, 7, &(10, 100));
    assert_eq!(seg.query_range(0, 10), (10 + 40, -10 + 400));
    assert_eq!(seg.query_range(2, 4), (1 + 11, -1 + 99));
    assert_eq!(seg.query_range(7, 7), (0, 0));
    seg.update(5, 6, &(0, 0));
    assert_eq!(seg.query_range(4, 7), (22, 198));
}

#[test]
fn sum_and_count_in_one_tree() {
    // The second component counts the positions that an assign has reached.
    let mut seg = SegSum::<(i64, i64)>::new(-8, 8);
    seg.update(-4, 4, &(5, 1));
    seg.update(0, 6, &(7, 1));
    let (sum, count) = seg.query_range(-8, 8);
    assert_eq!(count, 10);
    assert_eq!(sum, 4 * 5 + 6 * 7);
}
