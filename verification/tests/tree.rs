use segsum::{SegSum, Summable, N};

/// A small generator of repeatable pseudo-random numbers.
struct Lcg(u64);

impl Lcg {
    fn next(&mut self) -> u64 {
        self.0 = self.0.wrapping_mul(6364136223846793005).wrapping_add(1442695040888963407);
        self.0 >> 33
    }

    fn below(&mut self, n: u64) -> i64 {
        (self.next() % n) as i64
    }
}

fn expected_sum(reference: &[i64], lo: i64, i: i64, j: i64) -> i64 {
    let mut sum = 0i64;
    let mut k = i;
    while k < j {
        sum += reference[(k - lo) as usize];
        k += 1;
    }
    sum
}

fn check_all_ranges(seg: &mut SegSum<i64>, reference: &[i64], lo: i64, hi: i64) {
    for i in lo..hi + 1 {
        for j in i..hi + 1 {
            assert_eq!(seg.query_range(i, j), expected_sum(reference, lo, i, j), "[{},{})", i, j);
        }
    }
}

#[test]
fn concrete_scenario() {
    let mut seg = SegSum::<i64>::new(0, 8);
    assert_eq!(seg.query_range(0, 8), 0);
    seg.add(2, 5, &3);
    for i in 0..8 {
        let expect = if (2..5).contains(&i) { 3 } else { 0 };
        assert_eq!(seg.query_range(i, i + 1), expect);
    }
    assert_eq!(seg.query_range(0, 8), 9);
    seg.update(0, 8, &10);
    assert_eq!(seg.query_range(3, 6), 30);
    seg.add(0, 4, &-2);
    assert_eq!(seg.query_range(0, 4), 32);
    assert_eq!(seg.query_range(4, 8), 40);
}

#[test]
fn fresh_tree_is_all_zero() {
    let mut seg = SegSum::<i64>::new(-3, 9);
    check_all_ranges(&mut seg, &[0; 12], -3, 9);
}

#[test]
fn empty_range_query_is_zero() {
    let mut seg = SegSum::<i64>::new(0, 8);
    seg.update(0, 8, &7);
    seg.add(1, 6, &2);
    for i in 0..9 {
        assert_eq!(seg.query_range(i, i), 0);
    }
    assert_eq!(seg.query_range(5, 3), 0);
}

#[test]
fn empty_edit_changes_nothing() {
    let mut seg = SegSum::<i64>::new(0, 8);
    let mut reference = [0i64; 8];
    seg.update(1, 7, &4);
    for x in reference[1..7].iter_mut() {
        *x = 4;
    }
    seg.add(3, 3, &100);
    seg.add(6, 2, &100);
    seg.update(5, 5, &100);
    seg.update(7, 0, &100);
    seg.add(20, 10, &100);
    seg.update(-1, -5, &100);
    check_all_ranges(&mut seg, &reference, 0, 8);
}

#[test]
fn assign_then_add_keeps_both() {
    for l in 0..8 {
        for r in l..9 {
            let mut seg = SegSum::<i64>::new(0, 8);
            seg.add(0, 8, &1);
            seg.update(l, r, &5);
            seg.add(l, r, &-3);
            assert_eq!(seg.query_range(l, r), (5 - 3) * (r - l));
        }
    }
}

#[test]
fn full_overwrite_twice_is_as_once() {
    let mut once = SegSum::<i64>::new(0, 16);
    let mut twice = SegSum::<i64>::new(0, 16);
    once.add(3, 11, &9);
    twice.add(3, 11, &9);
    once.update(0, 16, &6);
    twice.update(0, 16, &6);
    twice.update(0, 16, &6);
    assert_eq!(once.query_range(0, 16), 6 * 16);
    assert_eq!(twice.query_range(0, 16), 6 * 16);
    for i in 0..16 {
        for j in i..17 {
            assert_eq!(once.query_range(i, j), twice.query_range(i, j));
        }
    }
}

#[test]
fn add_on_left_half_leaves_right_half() {
    let mut seg = SegSum::<i64>::new(0, 8);
    seg.update(2, 7, &11);
    let before = seg.query_range(4, 8);
    assert_eq!(before, 33);
    seg.add(0, 4, &5);
    assert_eq!(seg.query_range(4, 8), before);
    assert_eq!(seg.query_range(0, 4), 2 * 5 + 2 * 16);
}

#[test]
fn add_after_pending_assign_reaches_children() {
    let mut seg = SegSum::<i64>::new(0, 4);
    seg.update(0, 2, &7);
    seg.update(0, 4, &1);
    seg.add(0, 4, &2);
    seg.add(0, 4, &3);
    assert_eq!(seg.query_range(0, 1), 6);
    assert_eq!(seg.query_range(1, 3), 12);
    assert_eq!(seg.query_range(0, 4), 24);
}

#[test]
fn matches_brute_force_on_negative_range() {
    let lo = -37i64;
    let hi = 29i64;
    let width = (hi - lo) as u64;
    let mut seg = SegSum::<i64>::new(lo, hi);
    let mut reference = vec![0i64; width as usize];
    let mut g = Lcg(7);
    for step in 0..2000 {
        let a = lo + g.below(width);
        let b = lo + g.below(width + 1);
        let x = g.below(21) - 10;
        if g.below(2) == 0 {
            seg.add(a, b, &x);
            for k in a..b {
                reference[(k - lo) as usize] += x;
            }
        } else {
            seg.update(a, b, &x);
            for k in a..b {
                reference[(k - lo) as usize] = x;
            }
        }
        if step % 200 == 0 {
            check_all_ranges(&mut seg, &reference, lo, hi);
        }
    }
    check_all_ranges(&mut seg, &reference, lo, hi);
}

#[test]
fn single_position_tree() {
    let mut seg = SegSum::<i64>::new(-1, 0);
    assert_eq!(seg.query_range(-1, 0), 0);
    seg.add(-1, 0, &4);
    seg.add(-1, 0, &5);
    assert_eq!(seg.query_range(-1, 0), 9);
    seg.update(-1, 0, &2);
    seg.add(-1, 0, &1);
    assert_eq!(seg.query_range(-1, 0), 3);
    assert_eq!(seg.query_range(0, 0), 0);
}

#[test]
fn tree_without_positions() {
    let mut seg = SegSum::<i64>::new(5, 5);
    seg.add(5, 5, &1);
    seg.update(5, 5, &1);
    assert_eq!(seg.query_range(5, 5), 0);
    let mut backwards = SegSum::<i64>::new(5, 3);
    backwards.add(4, 4, &1);
    assert_eq!(backwards.query_range(5, 3), 0);
}

#[test]
fn widest_tree() {
    let lo = -(1i64 << 62);
    let hi = i64::MAX + lo;
    let mut seg = SegSum::<i64>::new(lo, hi);
    seg.add(lo, hi, &1);
    assert_eq!(seg.query_range(lo, hi), i64::MAX);
    seg.update(-5, 5, &3);
    assert_eq!(seg.query_range(-6, 6), 32);
    assert_eq!(seg.query_range(hi - 2, hi), 2);
    assert_eq!(seg.query_range(lo, lo + 3), 3);
    seg.add(lo, 0, &1);
    assert_eq!(seg.query_range(-7, 2), 2 * 2 + 5 * 4 + 2 * 3);
}

#[test]
fn sums_wrap_around() {
    let mut seg = SegSum::<i64>::new(0, 4);
    seg.update(0, 4, &i64::MAX);
    assert_eq!(seg.query_range(0, 1), i64::MAX);
    assert_eq!(seg.query_range(0, 2), i64::MAX.wrapping_mul(2));
    assert_eq!(seg.query_range(0, 4), i64::MAX.wrapping_mul(4));
    seg.add(1, 3, &1);
    assert_eq!(seg.query_range(1, 2), i64::MIN);
    assert_eq!(seg.query_range(0, 4), i64::MAX.wrapping_mul(4).wrapping_add(2));
}

#[test]
fn node_new_is_all_zero() {
    let mut n = N::<i64>::new(0, 8);
    assert_eq!(n.range_sum(), 0);
    assert_eq!(n.query_sum(0, 8), 0);
    assert_eq!(n.query_sum(3, 4), 0);
}

#[test]
fn node_range_sum_resolves_marks() {
    let mut n = N::<i64>::new(0, 8);
    n.update(0, 8, &5);
    assert_eq!(n.range_sum(), 40);
    n.add(0, 8, &2);
    assert_eq!(n.range_sum(), 56);
    n.add(0, 8, &-1);
    assert_eq!(n.range_sum(), 48);
    n.update(2, 4, &0);
    assert_eq!(n.range_sum(), 36);
}

#[test]
fn node_edits_reach_only_the_overlap() {
    let mut n = N::<i64>::new(4, 12);
    n.update(0, 6, &3);
    assert_eq!(n.range_sum(), 6);
    n.add(10, 100, &2);
    assert_eq!(n.range_sum(), 10);
    n.add(-50, 50, &1);
    assert_eq!(n.range_sum(), 18);
    assert_eq!(n.query_sum(4, 6), 8);
    assert_eq!(n.query_sum(6, 10), 4);
    assert_eq!(n.query_sum(10, 12), 6);
}

#[test]
fn node_query_is_clipped_to_the_node() {
    let mut n = N::<i64>::new(4, 12);
    n.update(4, 12, &1);
    n.add(6, 9, &10);
    assert_eq!(n.query_sum(-100, 100), 38);
    assert_eq!(n.query_sum(0, 7), 13);
    assert_eq!(n.query_sum(8, 20), 14);
    assert_eq!(n.query_sum(0, 4), 0);
    assert_eq!(n.query_sum(12, 20), 0);
    assert_eq!(n.query_sum(9, 6), 0);
    assert_eq!(n.query_sum(7, 7), 0);
}

#[test]
fn midpoint_is_the_floor() {
    // With the cut of [-3, 0) at -2, the left child is [-3, -2).
    let mut n = N::<i64>::new(-3, 0);
    n.update(-3, -2, &1);
    n.update(-2, -1, &10);
    n.update(-1, 0, &100);
    assert_eq!(n.query_sum(-3, -2), 1);
    assert_eq!(n.query_sum(-2, -1), 10);
    assert_eq!(n.query_sum(-1, 0), 100);
    assert_eq!(n.query_sum(-3, -1), 11);
    assert_eq!(n.range_sum(), 111);
}

#[test]
fn i64_is_summable() {
    assert_eq!(<i64 as Summable>::zero_value(), 0);
    assert_eq!(3i64.sum_with(&4), 7);
    assert_eq!((-3i64).sum_with(&-4), -7);
    assert_eq!(i64::MAX.sum_with(&1), i64::MIN);
    assert_eq!(i64::MIN.sum_with(&-1), i64::MAX);
    assert_eq!(5i64.scaled(0), 0);
    assert_eq!(5i64.scaled(1), 5);
    assert_eq!((-5i64).scaled(7), -35);
    assert_eq!(i64::MAX.scaled(2), -2);
    assert_eq!(i64::MIN.scaled(3), i64::MIN);
    assert_eq!(42i64.duplicate(), 42);
}

#[test]
fn scaling_is_repeated_addition() {
    for v in [0i64, 1, -1, 7, i64::MAX, i64::MIN, 1 << 62] {
        let mut sum = <i64 as Summable>::zero_value();
        for n in 0..20 {
            assert_eq!(v.scaled(n), sum);
            sum = sum.sum_with(&v);
        }
    }
}
