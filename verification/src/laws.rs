//! What follows for a caller from the contracts of the tree's operations,
//! stated over the model that those contracts use.

use crate::range::{
    add_on, assign_on, lemma_plus_interchange, lemma_sum_agrees, lemma_sum_constant,
    lemma_zero_neutral_right, sum_over,
};
use crate::value::Summable;
use vstd::prelude::*;

verus! {

/// Copies add up: `a + b` copies are `a` copies plus `b` copies.
pub proof fn lemma_times_adds<T: Summable>(v: T, a: nat, b: nat)
    ensures
        v.times(a + b) == v.times(a).plus(v.times(b)),
    decreases b,
{
    if b == 0 {
        T::lemma_times_none(v);
        lemma_zero_neutral_right(v.times(a));
    } else {
        let b1 = (b - 1) as nat;
        lemma_times_adds(v, a, b1);
        T::lemma_times_next(v, a + b1);
        T::lemma_times_next(v, b1);
        T::lemma_plus_associates(v.times(a), v.times(b1), v);
    }
}

/// Scaling distributes over the sum of two elements.
pub proof fn lemma_times_distributes<T: Summable>(a: T, b: T, n: nat)
    ensures
        a.plus(b).times(n) == a.times(n).plus(b.times(n)),
    decreases n,
{
    if n == 0 {
        T::lemma_times_none(a);
        T::lemma_times_none(b);
        T::lemma_times_none(a.plus(b));
        T::lemma_zero_neutral(T::zero());
    } else {
        let n1 = (n - 1) as nat;
        lemma_times_distributes(a, b, n1);
        T::lemma_times_next(a, n1);
        T::lemma_times_next(b, n1);
        T::lemma_times_next(a.plus(b), n1);
        lemma_plus_interchange(a.times(n1), b.times(n1), a, b);
    }
}

/// The sum over an empty range is `zero`, wherever the range lies.
pub proof fn lemma_empty_range_sum<T: Summable>(m: Map<int, T>, lo: int, hi: int)
    requires
        lo >= hi,
    ensures
        sum_over(m, lo, hi) == T::zero(),
{
}

/// An add or an assign on an empty range leaves the map as it was.
pub proof fn lemma_empty_edit<T: Summable>(m: Map<int, T>, lo: int, hi: int, x: T)
    requires
        lo >= hi,
    ensures
        add_on(m, lo, hi, x) == m,
        assign_on(m, lo, hi, x) == m,
{
    assert(add_on(m, lo, hi, x) =~= m);
    assert(assign_on(m, lo, hi, x) =~= m);
}

/// An assign of `val` followed by an add of `delta` on the same range gives
/// a sum over that range of one `val` plus `delta` for each position:
/// nothing of the add is lost under the assign.
pub proof fn lemma_assign_then_add<T: Summable>(m: Map<int, T>, lo: int, hi: int, val: T, delta: T)
    requires
        lo <= hi,
        forall|i: int| lo <= i < hi ==> m.dom().contains(i),
    ensures
        sum_over(add_on(assign_on(m, lo, hi, val), lo, hi, delta), lo, hi) == val.plus(delta).times(
            (hi - lo) as nat,
        ),
{
    let after = add_on(assign_on(m, lo, hi, val), lo, hi, delta);
    assert forall|i: int| lo <= i < hi implies after[i] == val.plus(delta) by {
        assert(assign_on(m, lo, hi, val).dom().contains(i));
    }
    lemma_sum_constant(after, lo, hi, val.plus(delta));
}

/// A second assign of the same value on the same range changes nothing, and
/// the sum over the range is one `val` for each position, as after the first.
pub proof fn lemma_assign_twice<T: Summable>(m: Map<int, T>, lo: int, hi: int, val: T)
    requires
        lo <= hi,
        forall|i: int| lo <= i < hi ==> m.dom().contains(i),
    ensures
        assign_on(assign_on(m, lo, hi, val), lo, hi, val) == assign_on(m, lo, hi, val),
        sum_over(assign_on(m, lo, hi, val), lo, hi) == val.times((hi - lo) as nat),
{
    let once = assign_on(m, lo, hi, val);
    assert(assign_on(once, lo, hi, val) =~= once);
    lemma_sum_constant(once, lo, hi, val);
}

/// An add on one range leaves the sum over any range that shares no position
/// with it as it was.
pub proof fn lemma_add_elsewhere<T: Summable>(
    m: Map<int, T>,
    lo: int,
    hi: int,
    delta: T,
    from: int,
    to: int,
)
    requires
        hi <= from || to <= lo,
        forall|i: int| from <= i < to ==> m.dom().contains(i),
    ensures
        sum_over(add_on(m, lo, hi, delta), from, to) == sum_over(m, from, to),
{
    lemma_sum_agrees(add_on(m, lo, hi, delta), m, from, to);
}

/// An assign on one range leaves the sum over any range that shares no
/// position with it as it was.
pub proof fn lemma_assign_elsewhere<T: Summable>(
    m: Map<int, T>,
    lo: int,
    hi: int,
    val: T,
    from: int,
    to: int,
)
    requires
        hi <= from || to <= lo,
        forall|i: int| from <= i < to ==> m.dom().contains(i),
    ensures
        sum_over(assign_on(m, lo, hi, val), from, to) == sum_over(m, from, to),
{
    lemma_sum_agrees(assign_on(m, lo, hi, val), m, from, to);
}

} // verus!
