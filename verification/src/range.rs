//! The mathematical model of a tree: a map from positions to elements, the
//! sum of a range of it, and the two range edits.

use crate::value::Summable;
use vstd::prelude::*;

verus! {

/// The sum of the elements of `m` at the positions `lo <= i < hi`, taken from
/// left to right. The sum of an empty range is `zero`.
pub open spec fn sum_over<T: Summable>(m: Map<int, T>, lo: int, hi: int) -> T
    decreases hi - lo,
{
    if lo >= hi {
        T::zero()
    } else {
        sum_over(m, lo, hi - 1).plus(m[hi - 1])
    }
}

/// The map that holds `zero` at every position `lo <= i < hi` and nothing else.
pub open spec fn zeros<T: Summable>(lo: int, hi: int) -> Map<int, T> {
    Map::new(|i: int| lo <= i < hi, |i: int| T::zero())
}

/// `m` with `delta` added to every element at a position `lo <= i < hi`.
pub open spec fn add_on<T: Summable>(m: Map<int, T>, lo: int, hi: int, delta: T) -> Map<int, T> {
    Map::new(
        |i: int| m.dom().contains(i),
        |i: int|
            if lo <= i < hi {
                m[i].plus(delta)
            } else {
                m[i]
            },
    )
}

/// `m` with every element at a position `lo <= i < hi` replaced by `val`.
pub open spec fn assign_on<T: Summable>(m: Map<int, T>, lo: int, hi: int, val: T) -> Map<int, T> {
    Map::new(
        |i: int| m.dom().contains(i),
        |i: int|
            if lo <= i < hi {
                val
            } else {
                m[i]
            },
    )
}

/// Adding `zero` on the right changes nothing.
pub proof fn lemma_zero_neutral_right<T: Summable>(a: T)
    ensures
        a.plus(T::zero()) == a,
{
    T::lemma_plus_commutes(a, T::zero());
    T::lemma_zero_neutral(a);
}

/// The two middle operands of a sum of two sums can change places.
pub proof fn lemma_plus_interchange<T: Summable>(a: T, b: T, c: T, d: T)
    ensures
        a.plus(b).plus(c.plus(d)) == a.plus(c).plus(b.plus(d)),
{
    T::lemma_plus_associates(a, b, c.plus(d));
    T::lemma_plus_associates(b, c, d);
    T::lemma_plus_commutes(b, c);
    T::lemma_plus_associates(c, b, d);
    T::lemma_plus_associates(a, c, b.plus(d));
}

/// One copy of an element is the element.
pub proof fn lemma_times_one<T: Summable>(v: T)
    ensures
        v.times(1) == v,
{
    T::lemma_times_none(v);
    T::lemma_times_next(v, 0);
    T::lemma_zero_neutral(v);
}

/// Any number of copies of `zero` sum to `zero`.
pub proof fn lemma_times_zero<T: Summable>(n: nat)
    ensures
        T::zero().times(n) == T::zero(),
    decreases n,
{
    if n == 0 {
        T::lemma_times_none(T::zero());
    } else {
        lemma_times_zero::<T>((n - 1) as nat);
        T::lemma_times_next(T::zero(), (n - 1) as nat);
        T::lemma_zero_neutral(T::zero());
    }
}

/// Two maps that agree on a range have the same sum over it.
pub proof fn lemma_sum_agrees<T: Summable>(a: Map<int, T>, b: Map<int, T>, lo: int, hi: int)
    requires
        forall|i: int| lo <= i < hi ==> a[i] == b[i],
    ensures
        sum_over(a, lo, hi) == sum_over(b, lo, hi),
    decreases hi - lo,
{
    if lo < hi {
        lemma_sum_agrees(a, b, lo, hi - 1);
    }
}

/// The sum over a range is the sum over its part left of `mid` plus the sum
/// over its part from `mid` on.
pub proof fn lemma_sum_splits<T: Summable>(m: Map<int, T>, lo: int, mid: int, hi: int)
    requires
        lo <= mid <= hi,
    ensures
        sum_over(m, lo, hi) == sum_over(m, lo, mid).plus(sum_over(m, mid, hi)),
    decreases hi - mid,
{
    if mid == hi {
        lemma_zero_neutral_right(sum_over(m, lo, mid));
    } else {
        lemma_sum_splits(m, lo, mid, hi - 1);
        T::lemma_plus_associates(sum_over(m, lo, mid), sum_over(m, mid, hi - 1), m[hi - 1]);
    }
}

/// The sum over a range on which the map is constantly `v` is as many copies
/// of `v` as the range has positions.
pub proof fn lemma_sum_constant<T: Summable>(m: Map<int, T>, lo: int, hi: int, v: T)
    requires
        lo <= hi,
        forall|i: int| lo <= i < hi ==> m[i] == v,
    ensures
        sum_over(m, lo, hi) == v.times((hi - lo) as nat),
    decreases hi - lo,
{
    if lo == hi {
        T::lemma_times_none(v);
    } else {
        lemma_sum_constant(m, lo, hi - 1, v);
        T::lemma_times_next(v, (hi - 1 - lo) as nat);
    }
}

/// The sum over a range on which the map is constantly `zero` is `zero`.
pub proof fn lemma_sum_zero<T: Summable>(m: Map<int, T>, lo: int, hi: int)
    requires
        forall|i: int| lo <= i < hi ==> m[i] == T::zero(),
    ensures
        sum_over(m, lo, hi) == T::zero(),
{
    if lo < hi {
        lemma_sum_constant(m, lo, hi, T::zero());
        lemma_times_zero::<T>((hi - lo) as nat);
    }
}

/// If `b` is `a` with `delta` added at every position of a range, the sum of
/// `b` over the range is the sum of `a` plus one copy of `delta` for each
/// position.
pub proof fn lemma_sum_shifted<T: Summable>(
    a: Map<int, T>,
    b: Map<int, T>,
    lo: int,
    hi: int,
    delta: T,
)
    requires
        lo <= hi,
        forall|i: int| lo <= i < hi ==> b[i] == a[i].plus(delta),
    ensures
        sum_over(b, lo, hi) == sum_over(a, lo, hi).plus(delta.times((hi - lo) as nat)),
    decreases hi - lo,
{
    if lo == hi {
        T::lemma_times_none(delta);
        T::lemma_zero_neutral(T::zero());
    } else {
        let n = (hi - 1 - lo) as nat;
        lemma_sum_shifted(a, b, lo, hi - 1, delta);
        T::lemma_times_next(delta, n);
        lemma_plus_interchange(sum_over(a, lo, hi - 1), delta.times(n), a[hi - 1], delta);
    }
}

} // verus!
