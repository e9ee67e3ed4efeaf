//! The tree: a node type that defers work with pending marks, and the facade
//! that holds the root and checks bounds.
//!
//! A node is described in three layers. Its view is the map from the
//! positions of its range to the elements there. Its model is the node that
//! each operation leaves, as a function of the node before. The executable
//! operations compute the model; lemmas show that the model keeps a node well
//! formed and changes the view as the operation's name says.

use crate::inspect::NodeInfo;
use crate::range::{
    add_on, assign_on, lemma_sum_agrees, lemma_sum_constant, lemma_sum_shifted, lemma_sum_splits,
    lemma_sum_zero, lemma_times_one, lemma_zero_neutral_right, sum_over, zeros,
};
use crate::value::Summable;
use vstd::arithmetic::power2::{lemma2_to64, lemma2_to64_rest, lemma_pow2_unfold, pow2};
use vstd::prelude::*;

verus! {

/// An edit that a node has taken for its whole range and not yet handed to its
/// children.
#[derive(Debug)]
pub enum Change<T> {
    /// Every element of the range is this value.
    Abs(T),
    /// Every element of the range has had this value added.
    Rel(T),
}

/// A node that covers the positions `l <= i < r`.
#[derive(Debug)]
pub struct N<T: Summable> {
    /// The first position of the range.
    l: i64,
    /// The position after the last of the range.
    r: i64,
    /// Under an `Abs` mark, the mark's value; else the sum of the range
    /// without what a `Rel` mark adds.
    s: T,
    /// The child for `[l, cut)`, once it was needed.
    left: Option<Box<N<T>>>,
    /// The child for `[cut, r)`, once it was needed.
    right: Option<Box<N<T>>>,
    /// The edit that the children have not been handed yet.
    mark: Option<Change<T>>,
}

/// The smaller of two positions.
fn lesser(a: i64, b: i64) -> (m: i64)
    ensures
        m == vstd::math::min(a as int, b as int),
{
    if a <= b {
        a
    } else {
        b
    }
}

/// The larger of two positions.
fn greater(a: i64, b: i64) -> (m: i64)
    ensures
        m == vstd::math::max(a as int, b as int),
{
    if a >= b {
        a
    } else {
        b
    }
}

impl<T: Summable> View for N<T> {
    type V = Map<int, T>;

    /// The elements of the node's range, by position.
    closed spec fn view(&self) -> Map<int, T> {
        Map::new(|i: int| self.l <= i < self.r, |i: int| self.at(i))
    }
}

/// What can be seen of a node.
impl<T: Summable> N<T> {
    /// The first position of the node's range.
    pub closed spec fn lo(&self) -> int {
        self.l as int
    }

    /// The position after the last of the node's range.
    pub closed spec fn hi(&self) -> int {
        self.r as int
    }

    /// The mark that is pending on the node.
    pub closed spec fn pending(&self) -> Option<Change<T>> {
        self.mark
    }

    /// The sum that the node has stored.
    pub closed spec fn stored(&self) -> T {
        self.s
    }

    /// The child for the left half of the range, if there is one.
    pub closed spec fn left_child(&self) -> Option<N<T>> {
        match self.left {
            Some(c) => Some(*c),
            None => None,
        }
    }

    /// The child for the right half of the range, if there is one.
    pub closed spec fn right_child(&self) -> Option<N<T>> {
        match self.right {
            Some(c) => Some(*c),
            None => None,
        }
    }

    /// Where the range is cut in two halves: the left child covers
    /// `[lo, cut)`, the right child `[cut, hi)`.
    pub open spec fn cut(&self) -> int {
        (self.lo() + self.hi()) / 2
    }

    /// `[ll, rr)` holds every position of the node's range.
    pub open spec fn covered_by(&self, ll: int, rr: int) -> bool {
        ll <= self.lo() && self.hi() <= rr
    }

    /// `[ll, rr)` and the node's range share a position.
    pub open spec fn overlaps(&self, ll: int, rr: int) -> bool {
        vstd::math::max(ll, self.lo()) < vstd::math::min(rr, self.hi())
    }

    /// The element at `i` without the node's own mark: what the child for
    /// that half holds, `zero` where there is no such child, or the stored
    /// sum where the range has less than two positions.
    pub open spec fn below(&self, i: int) -> T {
        if self.hi() - self.lo() < 2 {
            self.stored()
        } else if i < self.cut() {
            match self.left_child() {
                Some(c) => c@[i],
                None => T::zero(),
            }
        } else {
            match self.right_child() {
                Some(c) => c@[i],
                None => T::zero(),
            }
        }
    }

    /// The element at `i` as the node's mark and what lies below it give it.
    pub open spec fn through_mark(&self, i: int) -> T {
        match self.pending() {
            Some(Change::Abs(v)) => v,
            Some(Change::Rel(v)) => self.below(i).plus(v),
            None => self.below(i),
        }
    }

    /// The stored sum read through the pending mark: one copy of an `Abs`
    /// value for each position, the stored sum plus one copy of a `Rel` value
    /// for each position, or the stored sum as it is.
    pub open spec fn resolved(&self) -> T {
        match self.pending() {
            Some(Change::Abs(v)) => v.times((self.hi() - self.lo()) as nat),
            Some(Change::Rel(v)) => self.stored().plus(v.times((self.hi() - self.lo()) as nat)),
            None => self.stored(),
        }
    }

    /// The sum of all elements of a child; `zero` for a child that does not
    /// exist.
    pub open spec fn sum_of(child: Option<N<T>>) -> T {
        match child {
            Some(c) => c.resolved(),
            None => T::zero(),
        }
    }

    /// The node has no mark pending, no children, and `zero` as its stored
    /// sum.
    pub open spec fn is_fresh(&self) -> bool {
        &&& self.pending() is None
        &&& self.stored() == T::zero()
        &&& self.left_child() is None
        &&& self.right_child() is None
    }

    /// The node holds `v` as its pending `Abs` mark and as its stored sum.
    pub open spec fn holds_abs(&self, v: T) -> bool {
        self.pending() == Some(Change::Abs(v)) && self.stored() == v
    }

    /// `after` is the node with `val` taken as a pending `Abs` mark: the mark
    /// and the stored sum are `val`, and the children are as they were.
    pub open spec fn took_abs(&self, after: Self, val: T) -> bool {
        &&& after.holds_abs(val)
        &&& after.left_child() == self.left_child()
        &&& after.right_child() == self.right_child()
    }

    /// `after` is the node with its pending `Abs` mark, of value `v`, handed
    /// to the children: the stored sum is `v` for each position, and where
    /// the range has two positions or more both children exist and hold `v`
    /// as their own pending `Abs` mark.
    pub open spec fn gave_abs(&self, after: Self, v: T) -> bool {
        &&& after.stored() == v.times((self.hi() - self.lo()) as nat)
        &&& self.hi() - self.lo() >= 2 ==> {
            &&& after.left_child() matches Some(c) && c.holds_abs(v)
            &&& after.right_child() matches Some(c) && c.holds_abs(v)
        }
    }

    /// `after` is the node with `delta` taken as a pending `Rel` mark. A
    /// pending `Rel` mark grows by `delta`; a pending `Abs` mark is handed to
    /// the children first; stored sum and children are otherwise as they
    /// were.
    pub open spec fn took_rel(&self, after: Self, delta: T) -> bool {
        match self.pending() {
            Some(Change::Abs(v)) => {
                &&& after.pending() == Some(Change::Rel(delta))
                &&& self.gave_abs(after, v)
            },
            Some(Change::Rel(u)) => {
                &&& after.pending() == Some(Change::Rel(u.plus(delta)))
                &&& after.stored() == self.stored()
                &&& after.left_child() == self.left_child()
                &&& after.right_child() == self.right_child()
            },
            None => {
                &&& after.pending() == Some(Change::Rel(delta))
                &&& after.stored() == self.stored()
                &&& after.left_child() == self.left_child()
                &&& after.right_child() == self.right_child()
            },
        }
    }

    /// `after` is the node with its mark handed to the children and with
    /// the children that work on `[ll, rr)` has made: no mark is pending; a
    /// child exists where it existed, where a mark was handed down, and where
    /// the work makes it (`makes_left`, `makes_right`), and nowhere else; and
    /// where no mark was pending, a child that shares no position with
    /// `[ll, rr)` is as it was.
    pub open spec fn handed_on(
        &self,
        after: Self,
        makes_left: bool,
        makes_right: bool,
        ll: int,
        rr: int,
    ) -> bool {
        &&& after.pending() is None
        &&& after.left_child() is Some <==> makes_left || self.pending() is Some
            || self.left_child() is Some
        &&& after.right_child() is Some <==> makes_right || self.pending() is Some
            || self.right_child() is Some
        &&& self.pending() is None && self.cut() <= ll && self.left_child() is Some
            ==> after.left_child() == self.left_child()
        &&& self.pending() is None && rr <= self.cut() && self.right_child() is Some
            ==> after.right_child() == self.right_child()
    }

    /// `after` has the shape that assigning `val` on `[ll, rr)` gives the
    /// node: the node takes `val` as its mark where `[ll, rr)` holds its whole
    /// range; else it hands its mark on and gets a child for each half that
    /// `[ll, rr)` reaches.
    pub open spec fn assign_shape(&self, after: Self, ll: int, rr: int, val: T) -> bool {
        if self.covered_by(ll, rr) {
            self.took_abs(after, val)
        } else {
            self.handed_on(after, ll < self.cut(), self.cut() < rr, ll, rr)
        }
    }

    /// `after` has the shape that adding `delta` on `[ll, rr)` gives the
    /// node: the node takes `delta` as its mark where `[ll, rr)` holds its
    /// whole range; else it hands its mark on and gets both children.
    pub open spec fn add_shape(&self, after: Self, ll: int, rr: int, delta: T) -> bool {
        if self.covered_by(ll, rr) {
            self.took_rel(after, delta)
        } else {
            self.handed_on(after, true, true, ll, rr)
        }
    }

    /// `after` has the shape that a sum over `[ll, rr)` leaves the node
    /// with: the node is as it was where `[ll, rr)` holds its whole range or
    /// no position of it; else it hands its mark on, and gets no child
    /// otherwise.
    pub open spec fn query_shape(&self, after: Self, ll: int, rr: int) -> bool {
        if self.covered_by(ll, rr) || !self.overlaps(ll, rr) {
            after == *self
        } else {
            self.handed_on(after, false, false, ll, rr)
        }
    }
}

/// What makes a node well formed.
impl<T: Summable> N<T> {
    /// The element at `i` without the node's own mark: what the children
    /// hold, or `s` where the range is a single position. A child that does
    /// not exist holds `zero` everywhere.
    spec fn base_at(&self, i: int) -> T
        decreases self, 0nat,
    {
        if self.r - self.l < 2 {
            self.s
        } else if i < self.cut() {
            match self.left {
                Some(c) => c.at(i),
                None => T::zero(),
            }
        } else {
            match self.right {
                Some(c) => c.at(i),
                None => T::zero(),
            }
        }
    }

    /// The element at `i`.
    spec fn at(&self, i: int) -> T
        decreases self, 1nat,
    {
        match self.mark {
            Some(Change::Abs(v)) => v,
            Some(Change::Rel(v)) => self.base_at(i).plus(v),
            None => self.base_at(i),
        }
    }

    /// The elements of the node's range without the node's own mark.
    spec fn base(&self) -> Map<int, T> {
        Map::new(|i: int| self.l <= i < self.r, |i: int| self.base_at(i))
    }

    /// The shape of the subtree is sound: the width fits, a range of less
    /// than two positions has no children, an empty range has no mark, and
    /// each child covers its half and is well formed.
    spec fn shaped(&self) -> bool
        decreases self, 0nat,
    {
        &&& self.r - self.l <= i64::MAX
        &&& (self.r - self.l < 2 ==> self.left is None && self.right is None)
        &&& (self.l >= self.r ==> self.mark is None)
        &&& (self.left matches Some(c) ==> c.l == self.l && c.r == self.cut() && c.wf())
        &&& (self.right matches Some(c) ==> c.l == self.cut() && c.r == self.r && c.wf())
    }

    /// The node is well formed: its shape is sound, and unless an `Abs` mark
    /// is pending, `s` is the sum of what lies below the mark.
    pub closed spec fn wf(&self) -> bool
        decreases self, 1nat,
    {
        &&& self.shaped()
        &&& (!(self.mark matches Some(Change::Abs(_))) ==> self.s == sum_over(
            self.base(),
            self.l as int,
            self.r as int,
        ))
    }

    /// The sum of all elements of a child as its mark and its stored sum
    /// give it; `zero` for a child that does not exist.
    spec fn child_resolved(child: Option<Box<N<T>>>) -> T {
        match child {
            Some(c) => c.resolved(),
            None => T::zero(),
        }
    }

    /// The element at `i` is what the view holds there.
    proof fn lemma_at(&self, i: int)
        requires
            self.l <= i < self.r,
        ensures
            self@[i] == self.at(i),
            self@.dom().contains(i),
            self.base()[i] == self.base_at(i),
    {
    }

    /// The stored sum of a well-formed node, read through the pending mark,
    /// is the sum of the node's range.
    proof fn lemma_resolved(&self)
        requires
            self.wf(),
        ensures
            sum_over(self@, self.l as int, self.r as int) == self.resolved(),
    {
        match self.mark {
            Some(Change::Abs(v)) => {
                lemma_sum_constant(self@, self.l as int, self.r as int, v);
            },
            Some(Change::Rel(v)) => {
                lemma_sum_shifted(self.base(), self@, self.l as int, self.r as int, v);
            },
            None => {
                lemma_sum_agrees(self.base(), self@, self.l as int, self.r as int);
            },
        }
    }

    /// Below the mark, a node of two positions or more holds the sum of its
    /// two children.
    proof fn lemma_base_sum(&self)
        requires
            self.shaped(),
            self.r - self.l >= 2,
        ensures
            sum_over(self.base(), self.l as int, self.r as int) == Self::child_resolved(
                self.left,
            ).plus(Self::child_resolved(self.right)),
    {
        let m = self.cut();
        lemma_sum_splits(self.base(), self.l as int, m, self.r as int);
        match self.left {
            Some(c) => {
                assert forall|i: int| self.l <= i < m implies self.base()[i] == c@[i] by {
                    c.lemma_at(i);
                }
                lemma_sum_agrees(self.base(), c@, self.l as int, m);
                c.lemma_resolved();
            },
            None => {
                lemma_sum_zero(self.base(), self.l as int, m);
            },
        }
        match self.right {
            Some(c) => {
                assert forall|i: int| m <= i < self.r implies self.base()[i] == c@[i] by {
                    c.lemma_at(i);
                }
                lemma_sum_agrees(self.base(), c@, m, self.r as int);
                c.lemma_resolved();
            },
            None => {
                lemma_sum_zero(self.base(), m, self.r as int);
            },
        }
    }

    /// What holds of every well-formed node: the width of its range fits,
    /// it holds an element at each position of its range, which is what the
    /// mark and the children give, a range of less than two positions has
    /// no children, each child is well formed and covers its half, and the
    /// stored sum, read through the pending mark, is the sum of the range
    /// and, below the mark, the sum of the children.
    pub proof fn lemma_wf(&self)
        requires
            self.wf(),
        ensures
            self.hi() - self.lo() <= i64::MAX,
            forall|i: int| self@.dom().contains(i) <==> self.lo() <= i < self.hi(),
            forall|i: int| self.lo() <= i < self.hi() ==> self@[i] == self.through_mark(i),
            self.hi() - self.lo() < 2 ==> self.left_child() is None && self.right_child() is None,
            self.lo() >= self.hi() ==> self.pending() is None,
            self.left_child() matches Some(c) ==> c.wf() && c.lo() == self.lo()
                && c.hi() == self.cut(),
            self.right_child() matches Some(c) ==> c.wf() && c.hi() == self.hi()
                && c.lo() == self.cut(),
            sum_over(self@, self.lo(), self.hi()) == self.resolved(),
            self.hi() - self.lo() >= 2 && !(self.pending() matches Some(Change::Abs(_)))
                ==> self.stored() == Self::sum_of(self.left_child()).plus(
                    Self::sum_of(self.right_child()),
                ),
    {
        self.lemma_resolved();
        if self.r - self.l >= 2 {
            self.lemma_base_sum();
        }
        assert forall|i: int| self.lo() <= i < self.hi() implies self@[i] == self.through_mark(
            i,
        ) by {
            if self.r - self.l >= 2 {
                if i < self.cut() {
                    if let Some(c) = self.left {
                        c.lemma_at(i);
                    }
                } else {
                    if let Some(c) = self.right {
                        c.lemma_at(i);
                    }
                }
            }
        }
    }
}

/// The node that each operation leaves.
impl<T: Summable> N<T> {
    /// A node for `l <= i < r` with no mark, no children and `zero` as its
    /// sum.
    pub closed spec fn fresh(l: i64, r: i64) -> Self {
        N { l: l, r: r, s: T::zero(), left: None, right: None, mark: None }
    }

    /// The node with a fresh child for its left half, where the range has two
    /// positions or more and no such child exists.
    #[verifier::opaque]
    spec fn with_left(&self) -> Self {
        if self.r - self.l >= 2 && self.left is None {
            N { left: Some(Box::new(Self::fresh(self.l, self.cut() as i64))), ..*self }
        } else {
            *self
        }
    }

    /// The node with a fresh child for its right half, where the range has
    /// two positions or more and no such child exists.
    #[verifier::opaque]
    spec fn with_right(&self) -> Self {
        if self.r - self.l >= 2 && self.right is None {
            N { right: Some(Box::new(Self::fresh(self.cut() as i64, self.r))), ..*self }
        } else {
            *self
        }
    }

    /// The node with a fresh child wherever `with_left` or `with_right`
    /// makes one.
    #[verifier::opaque]
    spec fn with_children(&self) -> Self {
        self.with_left().with_right()
    }

    /// The node with `val` as its pending `Abs` mark and as its stored sum.
    spec fn marked_abs(&self, val: T) -> Self {
        N { mark: Some(Change::Abs(val)), s: val, ..*self }
    }

    /// The child with `val` as its pending `Abs` mark.
    spec fn child_marked_abs(child: Option<Box<N<T>>>, val: T) -> Option<Box<N<T>>> {
        match child {
            Some(c) => Some(Box::new(c.marked_abs(val))),
            None => None,
        }
    }

    /// The node with a pending `Abs` mark handed to its children, which are
    /// made where they are missing; the node itself where no such mark is
    /// pending.
    #[verifier::opaque]
    spec fn pushed_abs(&self) -> Self {
        match self.mark {
            Some(Change::Abs(v)) => {
                let grown = (N { mark: None, ..*self }).with_children();
                N {
                    s: v.times((self.r - self.l) as nat),
                    left: Self::child_marked_abs(grown.left, v),
                    right: Self::child_marked_abs(grown.right, v),
                    ..grown
                }
            },
            _ => *self,
        }
    }

    /// The node with `delta` as its pending `Rel` mark, after a pending
    /// `Abs` mark was handed to the children, or with a pending `Rel` mark
    /// grown by `delta`.
    #[verifier::opaque]
    spec fn marked_rel(&self, delta: T) -> Self {
        let flat = self.pushed_abs();
        match flat.mark {
            Some(Change::Rel(u)) => N { mark: Some(Change::Rel(u.plus(delta))), ..flat },
            _ => N { mark: Some(Change::Rel(delta)), ..flat },
        }
    }

    /// The child with `delta` taken as a pending `Rel` mark.
    spec fn child_marked_rel(child: Option<Box<N<T>>>, delta: T) -> Option<Box<N<T>>> {
        match child {
            Some(c) => Some(Box::new(c.marked_rel(delta))),
            None => None,
        }
    }

    /// The node with a pending `Rel` mark handed to its children, which are
    /// made where they are missing; the node itself where no such mark is
    /// pending.
    #[verifier::opaque]
    spec fn pushed_rel(&self) -> Self {
        match self.mark {
            Some(Change::Rel(v)) => {
                let grown = (N { mark: None, ..*self }).with_children();
                N {
                    s: self.s.plus(v.times((self.r - self.l) as nat)),
                    left: Self::child_marked_rel(grown.left, v),
                    right: Self::child_marked_rel(grown.right, v),
                    ..grown
                }
            },
            _ => *self,
        }
    }

    /// The node with its pending mark, of either kind, handed to its
    /// children; the node itself where no mark is pending.
    #[verifier::opaque]
    spec fn pushed(&self) -> Self {
        match self.mark {
            Some(Change::Abs(_)) => self.pushed_abs(),
            Some(Change::Rel(_)) => self.pushed_rel(),
            None => *self,
        }
    }

    /// The node after `val` is assigned on `[ll, rr)`, for a well-formed
    /// node whose range `[ll, rr)` overlaps: the node with `val` as its mark
    /// where `[ll, rr)` holds its whole range; else the node with its mark
    /// handed on, each half that `[ll, rr)` reaches assigned in its child,
    /// which is made where it is missing, and the sum of the children as its
    /// stored sum.
    #[verifier::opaque]
    pub closed spec fn assigned(&self, ll: int, rr: int, val: T) -> Self
        decreases self.hi() - self.lo(),
        when self.wf() && self.overlaps(ll, rr)
    {
        if self.covered_by(ll, rr) {
            self.marked_abs(val)
        } else {
            let flat = self.pushed();
            let m = self.cut();
            proof {
                self.lemma_pushed();
                flat.lemma_with_left();
                flat.lemma_with_right();
            }
            let left = if ll < m {
                match flat.with_left().left {
                    Some(c) => Some(Box::new(c.assigned(ll, vstd::math::min(m, rr), val))),
                    None => None,
                }
            } else {
                flat.left
            };
            let right = if m < rr {
                match flat.with_right().right {
                    Some(c) => Some(Box::new(c.assigned(vstd::math::max(m, ll), rr, val))),
                    None => None,
                }
            } else {
                flat.right
            };
            N {
                left: left,
                right: right,
                s: Self::child_resolved(left).plus(Self::child_resolved(right)),
                ..flat
            }
        }
    }

    /// The node after `delta` is added on `[ll, rr)`, for a well-formed node
    /// whose range `[ll, rr)` overlaps: the node with `delta` taken as its
    /// mark where `[ll, rr)` holds its whole range; else the node with its
    /// mark handed on, both children made where they are missing, each half
    /// that `[ll, rr)` reaches added to in its child, and the sum of the
    /// children as its stored sum.
    #[verifier::opaque]
    pub closed spec fn added(&self, ll: int, rr: int, delta: T) -> Self
        decreases self.hi() - self.lo(),
        when self.wf() && self.overlaps(ll, rr)
    {
        if self.covered_by(ll, rr) {
            self.marked_rel(delta)
        } else {
            let flat = self.pushed().with_children();
            let m = self.cut();
            proof {
                self.lemma_pushed();
                self.pushed().lemma_with_children();
            }
            let left = if ll < m {
                match flat.left {
                    Some(c) => Some(Box::new(c.added(ll, vstd::math::min(m, rr), delta))),
                    None => None,
                }
            } else {
                flat.left
            };
            let right = if m < rr {
                match flat.right {
                    Some(c) => Some(Box::new(c.added(vstd::math::max(m, ll), rr, delta))),
                    None => None,
                }
            } else {
                flat.right
            };
            N {
                left: left,
                right: right,
                s: Self::child_resolved(left).plus(Self::child_resolved(right)),
                ..flat
            }
        }
    }

    /// The node after the sum over `[ll, rr)` was taken, for a well-formed
    /// node: the node as it was where `[ll, rr)` holds its whole range or no
    /// position of it; else the node with its mark handed on, and each child
    /// that `[ll, rr)` reaches as the sum over its part leaves it.
    #[verifier::opaque]
    pub closed spec fn queried(&self, ll: int, rr: int) -> Self
        decreases self.hi() - self.lo(),
        when self.wf()
    {
        if self.covered_by(ll, rr) || !self.overlaps(ll, rr) {
            *self
        } else {
            let flat = self.pushed();
            let m = self.cut();
            proof {
                self.lemma_pushed();
            }
            let left = if ll < m {
                match flat.left {
                    Some(c) => Some(Box::new(c.queried(ll, vstd::math::min(m, rr)))),
                    None => None,
                }
            } else {
                flat.left
            };
            let right = if m < rr {
                match flat.right {
                    Some(c) => Some(Box::new(c.queried(vstd::math::max(m, ll), rr))),
                    None => None,
                }
            } else {
                flat.right
            };
            N { left: left, right: right, ..flat }
        }
    }

    /// The sum over `[ll, rr)` as a well-formed node computes it: `zero`
    /// where `[ll, rr)` holds no position of its range, the stored sum read
    /// through the mark where `[ll, rr)` holds the whole range, else what
    /// the children that `[ll, rr)` reaches compute, added up from `zero`.
    #[verifier::opaque]
    pub closed spec fn answer(&self, ll: int, rr: int) -> T
        decreases self.hi() - self.lo(),
        when self.wf()
    {
        if !self.overlaps(ll, rr) {
            T::zero()
        } else if self.covered_by(ll, rr) {
            self.resolved()
        } else {
            let flat = self.pushed();
            let m = self.cut();
            proof {
                self.lemma_pushed();
            }
            let first = if ll < m {
                match flat.left {
                    Some(c) => T::zero().plus(c.answer(ll, vstd::math::min(m, rr))),
                    None => T::zero(),
                }
            } else {
                T::zero()
            };
            if m < rr {
                match flat.right {
                    Some(c) => first.plus(c.answer(vstd::math::max(m, ll), rr)),
                    None => first,
                }
            } else {
                first
            }
        }
    }

    /// A fresh node is well formed and holds `zero` everywhere.
    pub proof fn lemma_fresh(l: i64, r: i64)
        requires
            r - l <= i64::MAX,
        ensures
            Self::fresh(l, r).wf(),
            Self::fresh(l, r).lo() == l,
            Self::fresh(l, r).hi() == r,
            Self::fresh(l, r)@ == zeros::<T>(l as int, r as int),
            Self::fresh(l, r).is_fresh(),
    {
        let n = Self::fresh(l, r);
        lemma_sum_zero(n.base(), l as int, r as int);
        assert(n@ =~= zeros::<T>(l as int, r as int));
    }

    /// Two nodes with the same range, the same mark and the same elements
    /// below the mark have the same view.
    proof fn lemma_same_below(&self, other: Self)
        requires
            self.l == other.l,
            self.r == other.r,
            forall|i: int| self.l <= i < self.r ==> self.base_at(i) == other.base_at(i),
        ensures
            self.base() == other.base(),
            self.mark == other.mark ==> self@ == other@,
    {
        assert(self.base() =~= other.base());
        if self.mark == other.mark {
            assert forall|i: int| self.l <= i < self.r implies self.at(i) == other.at(i) by {
                assert(self.base_at(i) == other.base_at(i));
            }
            assert(self@ =~= other@);
        }
    }

    /// A child made for the left half changes no element.
    proof fn lemma_with_left(&self)
        requires
            self.shaped(),
        ensures
            self.with_left().shaped(),
            self.with_left().base() == self.base(),
            self.with_left()@ == self@,
            self.wf() ==> self.with_left().wf(),
            self.r - self.l >= 2 ==> self.with_left().left is Some,
            self.with_left().l == self.l,
            self.with_left().r == self.r,
            self.with_left().s == self.s,
            self.with_left().mark == self.mark,
            self.with_left().right == self.right,
            self.left is Some || self.r - self.l < 2 ==> self.with_left() == *self,
    {
        reveal(N::with_left);
        let g = self.with_left();
        if self.r - self.l >= 2 && self.left is None {
            let child = Self::fresh(self.l, self.cut() as i64);
            Self::lemma_fresh(self.l, self.cut() as i64);
            assert forall|i: int| self.l <= i < self.r implies g.base_at(i) == self.base_at(
                i,
            ) by {
                if i < self.cut() {
                    child.lemma_at(i);
                }
            }
        }
        g.lemma_same_below(*self);
    }

    /// A child made for the right half changes no element.
    proof fn lemma_with_right(&self)
        requires
            self.shaped(),
        ensures
            self.with_right().shaped(),
            self.with_right().base() == self.base(),
            self.with_right()@ == self@,
            self.wf() ==> self.with_right().wf(),
            self.r - self.l >= 2 ==> self.with_right().right is Some,
            self.with_right().l == self.l,
            self.with_right().r == self.r,
            self.with_right().s == self.s,
            self.with_right().mark == self.mark,
            self.with_right().left == self.left,
            self.right is Some || self.r - self.l < 2 ==> self.with_right() == *self,
    {
        reveal(N::with_right);
        let g = self.with_right();
        if self.r - self.l >= 2 && self.right is None {
            let child = Self::fresh(self.cut() as i64, self.r);
            Self::lemma_fresh(self.cut() as i64, self.r);
            assert forall|i: int| self.l <= i < self.r implies g.base_at(i) == self.base_at(
                i,
            ) by {
                if i >= self.cut() {
                    child.lemma_at(i);
                }
            }
        }
        g.lemma_same_below(*self);
    }

    /// Children made for both halves change no element.
    proof fn lemma_with_children(&self)
        requires
            self.shaped(),
        ensures
            self.with_children().shaped(),
            self.with_children().base() == self.base(),
            self.with_children()@ == self@,
            self.wf() ==> self.with_children().wf(),
            self.r - self.l >= 2 ==> self.with_children().left is Some,
            self.r - self.l >= 2 ==> self.with_children().right is Some,
            self.with_children().l == self.l,
            self.with_children().r == self.r,
            self.with_children().s == self.s,
            self.with_children().mark == self.mark,
            self.left is Some ==> self.with_children().left == self.left,
            self.right is Some ==> self.with_children().right == self.right,
            (self.left is Some && self.right is Some) || self.r - self.l < 2
                ==> self.with_children() == *self,
    {
        reveal(N::with_children);
        self.lemma_with_left();
        self.with_left().lemma_with_right();
    }

    /// A node that takes an `Abs` mark holds the mark's value everywhere.
    proof fn lemma_marked_abs(&self, val: T)
        requires
            self.wf(),
            self.l < self.r,
        ensures
            self.marked_abs(val).wf(),
            self.marked_abs(val)@ == assign_on(self@, self.l as int, self.r as int, val),
            self.took_abs(self.marked_abs(val), val),
    {
        assert(self.marked_abs(val)@ =~= assign_on(self@, self.l as int, self.r as int, val));
    }

    /// Handing an `Abs` mark to the children changes no element.
    proof fn lemma_pushed_abs(&self)
        requires
            self.wf(),
        ensures
            self.pushed_abs().wf(),
            self.pushed_abs().l == self.l,
            self.pushed_abs().r == self.r,
            self.pushed_abs()@ == self@,
            self.mark matches Some(Change::Abs(v)) ==> self.pushed_abs().mark is None
                && self.gave_abs(self.pushed_abs(), v),
            self.mark matches Some(Change::Abs(_)) && self.r - self.l >= 2
                ==> self.pushed_abs().left is Some && self.pushed_abs().right is Some,
            !(self.mark matches Some(Change::Abs(_))) ==> self.pushed_abs() == *self,
    {
        reveal(N::pushed_abs);
        if let Some(Change::Abs(v)) = self.mark {
            let bare = N { mark: None, ..*self };
            bare.lemma_with_children();
            let grown = bare.with_children();
            let p = self.pushed_abs();
            if let Some(c) = grown.left {
                c.lemma_marked_abs(v);
            }
            if let Some(c) = grown.right {
                c.lemma_marked_abs(v);
            }
            assert forall|i: int| self.l <= i < self.r implies p.base_at(i) == v by {
                if self.r - self.l >= 2 {
                    if i < self.cut() {
                        p.left->0.lemma_at(i);
                    } else {
                        p.right->0.lemma_at(i);
                    }
                } else {
                    lemma_times_one(v);
                }
            }
            lemma_sum_constant(p.base(), self.l as int, self.r as int, v);
            assert forall|i: int| self.l <= i < self.r implies p.at(i) == self.at(i) by {
                assert(p.base_at(i) == v);
            }
            assert(p@ =~= self@);
        }
    }

    /// A node that takes a `Rel` mark holds every element grown by the
    /// mark's value.
    proof fn lemma_marked_rel(&self, delta: T)
        requires
            self.wf(),
            self.l < self.r,
        ensures
            self.marked_rel(delta).wf(),
            self.marked_rel(delta).l == self.l,
            self.marked_rel(delta).r == self.r,
            self.marked_rel(delta)@ == add_on(self@, self.l as int, self.r as int, delta),
            self.took_rel(self.marked_rel(delta), delta),
    {
        reveal(N::marked_rel);
        self.lemma_pushed_abs();
        let flat = self.pushed_abs();
        let a = self.marked_rel(delta);
        a.lemma_same_below(flat);
        assert forall|i: int| self.l <= i < self.r implies a.at(i) == flat.at(i).plus(delta) by {
            assert(a.base_at(i) == flat.base_at(i));
            if let Some(Change::Rel(u)) = flat.mark {
                T::lemma_plus_associates(flat.base_at(i), u, delta);
            }
        }
        assert(a@ =~= add_on(self@, self.l as int, self.r as int, delta)) by {
            assert forall|i: int| self.l <= i < self.r implies a@[i] == self@[i].plus(delta) by {
                a.lemma_at(i);
                flat.lemma_at(i);
            }
        }
    }

    /// Handing a `Rel` mark to the children changes no element.
    proof fn lemma_pushed_rel(&self)
        requires
            self.wf(),
        ensures
            self.pushed_rel().wf(),
            self.pushed_rel().l == self.l,
            self.pushed_rel().r == self.r,
            self.pushed_rel()@ == self@,
            self.mark matches Some(Change::Rel(_)) ==> self.pushed_rel().mark is None,
            self.mark matches Some(Change::Rel(_)) && self.r - self.l >= 2
                ==> self.pushed_rel().left is Some && self.pushed_rel().right is Some,
            !(self.mark matches Some(Change::Rel(_))) ==> self.pushed_rel() == *self,
    {
        reveal(N::pushed_rel);
        if let Some(Change::Rel(v)) = self.mark {
            let bare = N { mark: None, ..*self };
            bare.lemma_same_below(*self);
            bare.lemma_with_children();
            let grown = bare.with_children();
            let p = self.pushed_rel();
            if let Some(c) = grown.left {
                c.lemma_marked_rel(v);
            }
            if let Some(c) = grown.right {
                c.lemma_marked_rel(v);
            }
            assert forall|i: int| self.l <= i < self.r implies p.base_at(i) == self.base_at(
                i,
            ).plus(v) by {
                grown.lemma_at(i);
                bare.lemma_at(i);
                if self.r - self.l >= 2 {
                    if i < self.cut() {
                        p.left->0.lemma_at(i);
                        grown.left->0.lemma_at(i);
                    } else {
                        p.right->0.lemma_at(i);
                        grown.right->0.lemma_at(i);
                    }
                } else {
                    lemma_times_one(v);
                }
            }
            lemma_sum_shifted(self.base(), p.base(), self.l as int, self.r as int, v);
            assert forall|i: int| self.l <= i < self.r implies p.at(i) == self.at(i) by {
                assert(p.base_at(i) == self.base_at(i).plus(v));
            }
            assert(p@ =~= self@);
        }
    }

    /// Handing the mark to the children changes no element and leaves no
    /// mark.
    proof fn lemma_pushed(&self)
        requires
            self.wf(),
        ensures
            self.pushed().wf(),
            self.pushed().l == self.l,
            self.pushed().r == self.r,
            self.pushed()@ == self@,
            self.pushed().mark is None,
            self.mark is None ==> self.pushed() == *self,
            self.mark is Some && self.r - self.l >= 2 ==> self.pushed().left is Some
                && self.pushed().right is Some,
    {
        reveal(N::pushed);
        self.lemma_pushed_abs();
        self.lemma_pushed_rel();
    }

    /// A node without a mark, of two positions or more, whose halves hold
    /// what `goal` holds and whose stored sum is the sum of its children, is
    /// well formed and has `goal` as its view.
    proof fn lemma_rebuilt(&self, goal: Map<int, T>)
        requires
            self.shaped(),
            self.mark is None,
            self.r - self.l >= 2,
            self.s == Self::child_resolved(self.left).plus(Self::child_resolved(self.right)),
            forall|i: int| goal.dom().contains(i) <==> self.l <= i < self.r,
            forall|i: int| self.l <= i < self.r ==> self.base_at(i) == goal[i],
        ensures
            self.wf(),
            self@ == goal,
    {
        self.lemma_base_sum();
        assert(self@ =~= goal);
    }

    /// The left half of a node without a mark, after an edit of the child
    /// for it: where the child after the edit holds what `goal` holds, so
    /// does the node below its mark.
    proof fn lemma_left_half(&self, child: Self, goal: Map<int, T>)
        requires
            self.r - self.l >= 2,
            self.left == Some(Box::new(child)),
            child.l == self.l,
            child.r == self.cut(),
            forall|i: int| self.l <= i < self.cut() ==> child@[i] == goal[i],
        ensures
            forall|i: int| self.l <= i < self.cut() ==> self.base_at(i) == goal[i],
    {
        assert forall|i: int| self.l <= i < self.cut() implies self.base_at(i) == goal[i] by {
            child.lemma_at(i);
        }
    }

    /// The right half of a node without a mark, after an edit of the child
    /// for it.
    proof fn lemma_right_half(&self, child: Self, goal: Map<int, T>)
        requires
            self.r - self.l >= 2,
            self.right == Some(Box::new(child)),
            child.l == self.cut(),
            child.r == self.r,
            forall|i: int| self.cut() <= i < self.r ==> child@[i] == goal[i],
        ensures
            forall|i: int| self.cut() <= i < self.r ==> self.base_at(i) == goal[i],
    {
        assert forall|i: int| self.cut() <= i < self.r implies self.base_at(i) == goal[i] by {
            child.lemma_at(i);
        }
    }

    /// The elements of a well-formed node without a mark, in terms of the
    /// children: a child holds what the node holds on its half.
    proof fn lemma_halves(&self)
        requires
            self.wf(),
            self.mark is None,
            self.r - self.l >= 2,
        ensures
            forall|i: int| self.l <= i < self.r ==> self.base_at(i) == self@[i],
            self.left matches Some(c) ==> forall|i: int|
                self.l <= i < self.cut() ==> c@[i] == self@[i],
            self.right matches Some(c) ==> forall|i: int|
                self.cut() <= i < self.r ==> c@[i] == self@[i],
    {
        assert forall|i: int| self.l <= i < self.r implies self.base_at(i) == self@[i] by {
            self.lemma_at(i);
        }
        if let Some(c) = self.left {
            assert forall|i: int| self.l <= i < self.cut() implies c@[i] == self@[i] by {
                self.lemma_at(i);
                c.lemma_at(i);
            }
        }
        if let Some(c) = self.right {
            assert forall|i: int| self.cut() <= i < self.r implies c@[i] == self@[i] by {
                self.lemma_at(i);
                c.lemma_at(i);
            }
        }
    }

    /// Assigning on a range keeps the node well formed, assigns at every
    /// position of the node that the range holds, and changes no other.
    pub proof fn lemma_assigned(&self, ll: int, rr: int, val: T)
        requires
            self.wf(),
            self.overlaps(ll, rr),
        ensures
            self.assigned(ll, rr, val).wf(),
            self.assigned(ll, rr, val).lo() == self.lo(),
            self.assigned(ll, rr, val).hi() == self.hi(),
            self.assigned(ll, rr, val)@ == assign_on(self@, ll, rr, val),
            self.assign_shape(self.assigned(ll, rr, val), ll, rr, val),
        decreases self.hi() - self.lo(),
    {
        reveal(N::assigned);
        let after = self.assigned(ll, rr, val);
        let goal = assign_on(self@, ll, rr, val);
        if self.covered_by(ll, rr) {
            self.lemma_marked_abs(val);
            assert(after@ =~= goal);
        } else {
            self.lemma_pushed();
            let flat = self.pushed();
            let m = self.cut();
            flat.lemma_halves();
            flat.lemma_with_left();
            flat.with_left().lemma_halves();
            flat.lemma_with_right();
            flat.with_right().lemma_halves();
            if ll < m {
                let c = *flat.with_left().left->0;
                c.lemma_assigned(ll, vstd::math::min(m, rr), val);
                after.lemma_left_half(c.assigned(ll, vstd::math::min(m, rr), val), goal);
            }
            if m < rr {
                let c = *flat.with_right().right->0;
                c.lemma_assigned(vstd::math::max(m, ll), rr, val);
                after.lemma_right_half(c.assigned(vstd::math::max(m, ll), rr, val), goal);
            }
            after.lemma_rebuilt(goal);
        }
    }

    /// Adding on a range keeps the node well formed, adds at every position
    /// of the node that the range holds, and changes no other.
    pub proof fn lemma_added(&self, ll: int, rr: int, delta: T)
        requires
            self.wf(),
            self.overlaps(ll, rr),
        ensures
            self.added(ll, rr, delta).wf(),
            self.added(ll, rr, delta).lo() == self.lo(),
            self.added(ll, rr, delta).hi() == self.hi(),
            self.added(ll, rr, delta)@ == add_on(self@, ll, rr, delta),
            self.add_shape(self.added(ll, rr, delta), ll, rr, delta),
        decreases self.hi() - self.lo(),
    {
        reveal(N::added);
        let after = self.added(ll, rr, delta);
        let goal = add_on(self@, ll, rr, delta);
        if self.covered_by(ll, rr) {
            self.lemma_marked_rel(delta);
            assert(after@ =~= goal);
        } else {
            self.lemma_pushed();
            self.pushed().lemma_with_children();
            let flat = self.pushed().with_children();
            let m = self.cut();
            flat.lemma_halves();
            if ll < m {
                let c = *flat.left->0;
                c.lemma_added(ll, vstd::math::min(m, rr), delta);
                after.lemma_left_half(c.added(ll, vstd::math::min(m, rr), delta), goal);
            }
            if m < rr {
                let c = *flat.right->0;
                c.lemma_added(vstd::math::max(m, ll), rr, delta);
                after.lemma_right_half(c.added(vstd::math::max(m, ll), rr, delta), goal);
            }
            after.lemma_rebuilt(goal);
        }
    }

    /// Taking a sum keeps the node well formed and changes no element, and
    /// the sum taken is the sum of the elements at the positions of the node
    /// that the range holds.
    pub proof fn lemma_queried(&self, ll: int, rr: int)
        requires
            self.wf(),
        ensures
            self.queried(ll, rr).wf(),
            self.queried(ll, rr).lo() == self.lo(),
            self.queried(ll, rr).hi() == self.hi(),
            self.queried(ll, rr)@ == self@,
            self.query_shape(self.queried(ll, rr), ll, rr),
            self.answer(ll, rr) == sum_over(
                self@,
                vstd::math::max(ll, self.lo()),
                vstd::math::min(rr, self.hi()),
            ),
        decreases self.hi() - self.lo(),
    {
        reveal(N::queried);
        reveal(N::answer);
        let after = self.queried(ll, rr);
        if !self.overlaps(ll, rr) {
        } else if self.covered_by(ll, rr) {
            self.lemma_resolved();
        } else {
            self.lemma_pushed();
            let flat = self.pushed();
            let m = self.cut();
            let from = vstd::math::max(ll, self.lo());
            let to = vstd::math::min(rr, self.hi());
            let split = vstd::math::min(vstd::math::max(m, from), to);
            flat.lemma_halves();
            lemma_sum_splits(self@, from, split, to);
            T::lemma_zero_neutral(sum_over(self@, from, split));
            lemma_zero_neutral_right(sum_over(self@, from, split));
            if ll < m {
                match flat.left {
                    Some(c) => {
                        c.lemma_queried(ll, vstd::math::min(m, rr));
                        lemma_sum_agrees(c@, self@, from, split);
                        after.lemma_left_half(c.queried(ll, vstd::math::min(m, rr)), self@);
                    },
                    None => {
                        lemma_sum_zero(self@, from, split);
                    },
                }
            }
            if m < rr {
                match flat.right {
                    Some(c) => {
                        c.lemma_queried(vstd::math::max(m, ll), rr);
                        lemma_sum_agrees(c@, self@, split, to);
                        after.lemma_right_half(c.queried(vstd::math::max(m, ll), rr), self@);
                    },
                    None => {
                        lemma_sum_zero(self@, split, to);
                    },
                }
            }
            after.lemma_same_below(flat);
        }
    }
}

/// The operations.
impl<T: Summable> N<T> {
    /// A node for `l <= i < r` with every element `zero`.
    pub fn new(l: i64, r: i64) -> (n: Self)
        requires
            r - l <= i64::MAX,
        ensures
            n.wf(),
            n.lo() == l,
            n.hi() == r,
            n@ == zeros::<T>(l as int, r as int),
            n == Self::fresh(l, r),
            n.is_fresh(),
    {
        proof {
            Self::lemma_fresh(l, r);
        }
        Self { l: l, r: r, s: T::zero_value(), left: None, right: None, mark: None }
    }

    /// Takes `val` as the value of every element, as a pending mark. A mark
    /// that was pending is dropped.
    fn set_lazy_abs(&mut self, val: T)
        requires
            old(self).wf(),
            old(self).l < old(self).r,
        ensures
            *final(self) == old(self).marked_abs(val),
            final(self).wf(),
            final(self)@ == assign_on(old(self)@, old(self).l as int, old(self).r as int, val),
            old(self).took_abs(*final(self), val),
    {
        proof {
            self.lemma_marked_abs(val);
        }
        self.mark = Some(Change::Abs(val.duplicate()));
        self.s = val;
    }

    /// Takes `val` as added to every element, as a pending mark. A pending
    /// `Abs` mark is handed to the children first; a pending `Rel` mark grows
    /// by `val`.
    fn set_lazy_rel(&mut self, val: T)
        requires
            old(self).wf(),
            old(self).l < old(self).r,
        ensures
            *final(self) == old(self).marked_rel(val),
            final(self).wf(),
            final(self)@ == add_on(old(self)@, old(self).l as int, old(self).r as int, val),
            old(self).took_rel(*final(self), val),
    {
        proof {
            self.lemma_marked_rel(val);
            self.lemma_pushed_abs();
        }
        match &self.mark {
            Some(Change::Abs(_)) => {
                self.push_down_abs();
                assert(self.mark is None);
            },
            _ => {},
        }
        match &mut self.mark {
            Some(Change::Rel(v)) => {
                *v = v.sum_with(&val);
            },
            _ => {
                self.mark = Some(Change::Rel(val));
            },
        }
        assert(*self == old(self).marked_rel(val)) by {
            reveal(N::marked_rel);
        }
    }

    /// Makes both children exist where the range has two positions or more.
    fn extend(&mut self)
        requires
            old(self).shaped(),
        ensures
            *final(self) == old(self).with_children(),
            final(self).shaped(),
            final(self)@ == old(self)@,
    {
        proof {
            self.lemma_with_children();
            self.lemma_with_left();
        }
        if self.l >= self.r || self.r - self.l < 2 {
            return ;
        }
        self.extend_left();
        self.extend_right();
        assert(*self == old(self).with_children()) by {
            reveal(N::with_children);
        }
    }

    /// Makes the child for the left half exist where the range has two
    /// positions or more.
    fn extend_left(&mut self)
        requires
            old(self).shaped(),
        ensures
            *final(self) == old(self).with_left(),
            final(self).shaped(),
            final(self)@ == old(self)@,
    {
        proof {
            self.lemma_with_left();
        }
        if self.l < self.r && self.r - self.l >= 2 {
            let m: i64 = self.l + (self.r - self.l) / 2;
            match self.left {
                None => {
                    self.left = Some(Box::new(N::new(self.l, m)));
                },
                _ => {},
            }
        }
        assert(*self == old(self).with_left()) by {
            reveal(N::with_left);
        }
    }

    /// Makes the child for the right half exist where the range has two
    /// positions or more.
    fn extend_right(&mut self)
        requires
            old(self).shaped(),
        ensures
            *final(self) == old(self).with_right(),
            final(self).shaped(),
            final(self)@ == old(self)@,
    {
        proof {
            self.lemma_with_right();
        }
        if self.l < self.r && self.r - self.l >= 2 {
            let m: i64 = self.l + (self.r - self.l) / 2;
            match self.right {
                None => {
                    self.right = Some(Box::new(N::new(m, self.r)));
                },
                _ => {},
            }
        }
        assert(*self == old(self).with_right()) by {
            reveal(N::with_right);
        }
    }

    /// Hands a pending `Abs` mark to the children: each takes the value as
    /// its own mark, and `s` becomes the sum of the range. Without such a
    /// mark nothing changes.
    fn push_down_abs(&mut self)
        requires
            old(self).wf(),
        ensures
            *final(self) == old(self).pushed_abs(),
            final(self).wf(),
            final(self)@ == old(self)@,
            old(self).mark matches Some(Change::Abs(v)) ==> old(self).gave_abs(*final(self), v),
    {
        proof {
            self.lemma_pushed_abs();
        }
        match self.mark.take() {
            Some(Change::Abs(x)) => {
                proof {
                    self.lemma_with_children();
                }
                self.extend();
                if let Some(y) = &mut self.left {
                    y.set_lazy_abs(x.duplicate());
                }
                if let Some(y) = &mut self.right {
                    y.set_lazy_abs(x.duplicate());
                }
                self.s = x.scaled(self.r - self.l);
            },
            other => {
                self.mark = other;
            },
        }
        assert(*self == old(self).pushed_abs()) by {
            reveal(N::pushed_abs);
        }
    }

    /// Hands a pending `Rel` mark to the children: each takes the value as
    /// added to its own range, and `s` grows by the value for each position.
    /// Without such a mark nothing changes.
    fn push_down_rel(&mut self)
        requires
            old(self).wf(),
        ensures
            *final(self) == old(self).pushed_rel(),
            final(self).wf(),
            final(self)@ == old(self)@,
    {
        proof {
            self.lemma_pushed_rel();
        }
        match self.mark.take() {
            Some(Change::Rel(x)) => {
                proof {
                    self.lemma_with_children();
                }
                self.extend();
                if let Some(y) = &mut self.left {
                    y.set_lazy_rel(x.duplicate());
                }
                if let Some(y) = &mut self.right {
                    y.set_lazy_rel(x.duplicate());
                }
                self.s = self.s.sum_with(&x.scaled(self.r - self.l));
            },
            other => {
                self.mark = other;
            },
        }
        assert(*self == old(self).pushed_rel()) by {
            reveal(N::pushed_rel);
        }
    }

    /// Hands a pending mark, of either kind, to the children.
    fn push_down(&mut self)
        requires
            old(self).wf(),
        ensures
            *final(self) == old(self).pushed(),
            final(self).wf(),
            final(self)@ == old(self)@,
            final(self).mark is None,
    {
        proof {
            self.lemma_pushed();
        }
        if let Some(x) = &self.mark {
            match x {
                Change::Abs(_) => {
                    self.push_down_abs();
                },
                _ => {
                    self.push_down_rel();
                },
            }
        }
        assert(*self == old(self).pushed()) by {
            reveal(N::pushed);
        }
    }

    /// The sum of all elements of a child; `zero` for a child that does not
    /// exist.
    fn child_sum(child: &Option<Box<N<T>>>) -> (sum: T)
        requires
            child matches Some(c) ==> c.wf(),
        ensures
            sum == Self::child_resolved(*child),
    {
        match child {
            Some(c) => c.range_sum(),
            None => T::zero_value(),
        }
    }

    /// Assigns `val` to every element of the node's range at a position
    /// `ll <= i < rr`. The two ranges must overlap.
    pub fn update(&mut self, ll: i64, rr: i64, val: &T)
        requires
            old(self).wf(),
            old(self).overlaps(ll as int, rr as int),
        ensures
            final(self).wf(),
            final(self).lo() == old(self).lo(),
            final(self).hi() == old(self).hi(),
            final(self)@ == assign_on(old(self)@, ll as int, rr as int, *val),
            old(self).assign_shape(*final(self), ll as int, rr as int, *val),
            *final(self) == old(self).assigned(ll as int, rr as int, *val),
        decreases old(self).hi() - old(self).lo(),
    {
        proof {
            self.lemma_assigned(ll as int, rr as int, *val);
            self.lemma_pushed();
        }
        if ll <= self.l && self.r <= rr {
            self.set_lazy_abs(val.duplicate());
        } else {
            self.push_down();
            let m: i64 = self.l + (self.r - self.l) / 2;
            if ll < m {
                proof {
                    self.lemma_with_left();
                }
                self.extend_left();
                match &mut self.left {
                    Some(x) => {
                        x.update(ll, lesser(m, rr), val);
                    },
                    _ => {},
                }
            }
            if m < rr {
                proof {
                    self.lemma_with_right();
                }
                self.extend_right();
                match &mut self.right {
                    Some(x) => {
                        x.update(greater(m, ll), rr, val);
                    },
                    _ => {},
                }
            }
            self.s = Self::child_sum(&self.left).sum_with(&Self::child_sum(&self.right));
            assert(self.mark is None);
        }
        assert(*self == old(self).assigned(ll as int, rr as int, *val)) by {
            reveal(N::assigned);
            reveal(N::with_left);
            reveal(N::with_right);
        }
    }

    /// Adds `delta` to every element of the node's range at a position
    /// `ll <= i < rr`. The two ranges must overlap.
    pub fn add(&mut self, ll: i64, rr: i64, delta: &T)
        requires
            old(self).wf(),
            old(self).overlaps(ll as int, rr as int),
        ensures
            final(self).wf(),
            final(self).lo() == old(self).lo(),
            final(self).hi() == old(self).hi(),
            final(self)@ == add_on(old(self)@, ll as int, rr as int, *delta),
            old(self).add_shape(*final(self), ll as int, rr as int, *delta),
            *final(self) == old(self).added(ll as int, rr as int, *delta),
        decreases old(self).hi() - old(self).lo(),
    {
        proof {
            self.lemma_added(ll as int, rr as int, *delta);
            self.lemma_pushed();
            self.pushed().lemma_with_children();
        }
        if ll <= self.l && self.r <= rr {
            self.set_lazy_rel(delta.duplicate());
        } else {
            self.push_down();
            let m: i64 = self.l + (self.r - self.l) / 2;
            if ll < m {
                self.extend();
                if let Some(x) = &mut self.left {
                    x.add(ll, lesser(m, rr), delta);
                }
            }
            if m < rr {
                proof {
                    self.lemma_with_children();
                }
                self.extend();
                if let Some(x) = &mut self.right {
                    x.add(greater(m, ll), rr, delta);
                }
            }
            self.s = Self::child_sum(&self.left).sum_with(&Self::child_sum(&self.right));
            assert(self.mark is None);
        }
        assert(*self == old(self).added(ll as int, rr as int, *delta)) by {
            reveal(N::added);
        }
    }

    /// The sum of the elements of the node's range at the positions
    /// `ll <= i < rr`; `zero` where there is none. Pending marks may be
    /// handed down on the way, which changes no element.
    pub fn query_sum(&mut self, ll: i64, rr: i64) -> (sum: T)
        requires
            old(self).wf(),
        ensures
            final(self).wf(),
            final(self).lo() == old(self).lo(),
            final(self).hi() == old(self).hi(),
            final(self)@ == old(self)@,
            sum == sum_over(
                old(self)@,
                vstd::math::max(ll as int, old(self).lo()),
                vstd::math::min(rr as int, old(self).hi()),
            ),
            old(self).query_shape(*final(self), ll as int, rr as int),
            *final(self) == old(self).queried(ll as int, rr as int),
            sum == old(self).answer(ll as int, rr as int),
        decreases old(self).hi() - old(self).lo(),
    {
        proof {
            self.lemma_queried(ll as int, rr as int);
            self.lemma_pushed();
        }
        let sum = if ll >= rr || greater(ll, self.l) >= lesser(rr, self.r) {
            T::zero_value()
        } else if ll <= self.l && self.r <= rr {
            self.range_sum()
        } else {
            self.push_down();
            let mut ret: T = T::zero_value();
            let m: i64 = self.l + (self.r - self.l) / 2;
            if ll < m {
                if let Some(x) = &mut self.left {
                    ret = ret.sum_with(&x.query_sum(ll, lesser(m, rr)));
                }
            }
            if m < rr {
                if let Some(x) = &mut self.right {
                    ret = ret.sum_with(&x.query_sum(greater(m, ll), rr));
                }
            }
            ret
        };
        assert(*self == old(self).queried(ll as int, rr as int)) by {
            reveal(N::queried);
        }
        assert(sum == old(self).answer(ll as int, rr as int)) by {
            reveal(N::answer);
        }
        sum
    }

    /// The sum of all elements of the node's range.
    pub fn range_sum(&self) -> (sum: T)
        requires
            self.wf(),
        ensures
            sum == sum_over(self@, self.lo(), self.hi()),
            sum == self.resolved(),
    {
        proof {
            self.lemma_resolved();
        }
        match &self.mark {
            Some(Change::Abs(v)) => v.scaled(self.r - self.l),
            Some(Change::Rel(v)) => self.s.sum_with(&v.scaled(self.r - self.l)),
            _ => self.s.duplicate(),
        }
    }
}

/// A look at the nodes of a subtree.
impl<T: Summable> N<T> {
    /// The number of levels of the subtree.
    spec fn height(&self) -> nat
        decreases self,
    {
        let below_left = match self.left {
            Some(c) => c.height(),
            None => 0,
        };
        let below_right = match self.right {
            Some(c) => c.height(),
            None => 0,
        };
        if below_left >= below_right {
            below_left + 1
        } else {
            below_right + 1
        }
    }

    /// The records of the nodes of the subtree whose root lies at `depth`:
    /// those of the left child, then the node's own, then those of the right
    /// child.
    pub closed spec fn listing(&self, depth: nat) -> Seq<NodeInfo<T>>
        decreases self,
    {
        let before = match self.left {
            Some(c) => c.listing(depth + 1),
            None => Seq::empty(),
        };
        let after = match self.right {
            Some(c) => c.listing(depth + 1),
            None => Seq::empty(),
        };
        before.push(self.record(depth)) + after
    }

    /// The listing of a child whose root lies at `depth`; empty for a child
    /// that does not exist.
    pub open spec fn listing_of(child: Option<N<T>>, depth: nat) -> Seq<NodeInfo<T>> {
        match child {
            Some(c) => c.listing(depth),
            None => Seq::empty(),
        }
    }

    /// The node's own record, for a node that lies at `depth`.
    pub open spec fn record(&self, depth: nat) -> NodeInfo<T> {
        NodeInfo {
            depth: depth as usize,
            l: self.lo() as i64,
            r: self.hi() as i64,
            s: self.stored(),
            mark: self.pending(),
        }
    }

    /// A listing is the listing of the left child, one level deeper, then
    /// the node's own record, then the listing of the right child.
    pub proof fn lemma_listing(&self, depth: nat)
        ensures
            self.listing(depth) == Self::listing_of(self.left_child(), depth + 1).push(
                self.record(depth),
            ) + Self::listing_of(self.right_child(), depth + 1),
    {
    }

    /// A well-formed subtree over at most `2^k` positions has at most `k + 1`
    /// levels.
    proof fn lemma_height(&self, k: nat)
        requires
            self.wf(),
            self.r - self.l <= pow2(k),
        ensures
            self.height() <= k + 1,
        decreases self,
    {
        if self.left is Some || self.right is Some {
            if k == 0 {
                lemma2_to64();
            } else {
                lemma_pow2_unfold(k);
                if let Some(c) = self.left {
                    c.lemma_height((k - 1) as nat);
                }
                if let Some(c) = self.right {
                    c.lemma_height((k - 1) as nat);
                }
            }
        }
    }

    /// Every record of a listing lies at the depth of the root or deeper,
    /// within the levels of the subtree.
    proof fn lemma_listing_depths(&self, depth: nat)
        requires
            depth + self.height() <= usize::MAX,
        ensures
            self.listing(depth).len() >= 1,
            forall|i: int|
                0 <= i < self.listing(depth).len() ==> depth <= (#[trigger] self.listing(
                    depth,
                )[i]).depth < depth + self.height(),
        decreases self,
    {
        if let Some(c) = self.left {
            c.lemma_listing_depths(depth + 1);
        }
        if let Some(c) = self.right {
            c.lemma_listing_depths(depth + 1);
        }
    }

    /// Appends the records of the subtree, whose root lies at `depth`, to
    /// `out`.
    fn collect(&self, depth: usize, out: &mut Vec<NodeInfo<T>>)
        requires
            depth + self.height() <= usize::MAX,
        ensures
            final(out)@ == old(out)@ + self.listing(depth as nat),
        decreases self,
    {
        if let Some(x) = &self.left {
            x.collect(depth + 1, out);
        }
        out.push(
            NodeInfo {
                depth: depth,
                l: self.l,
                r: self.r,
                s: self.s.duplicate(),
                mark: match &self.mark {
                    Some(m) => Some(m.clone()),
                    None => None,
                },
            },
        );
        if let Some(x) = &self.right {
            x.collect(depth + 1, out);
        }
        proof {
            assert(out@ =~= old(out)@ + self.listing(depth as nat));
        }
    }

    /// The records of all nodes of the subtree, from left to right, with the
    /// node itself at depth 0. There are at most 64 levels.
    pub fn nodes(&self) -> (out: Vec<NodeInfo<T>>)
        requires
            self.wf(),
        ensures
            out@ == self.listing(0),
            out.len() >= 1,
            forall|i: int| 0 <= i < out.len() ==> out[i].depth < 64,
    {
        proof {
            lemma2_to64_rest();
            self.lemma_height(63);
            self.lemma_listing_depths(0);
        }
        let mut out: Vec<NodeInfo<T>> = Vec::new();
        self.collect(0, &mut out);
        out
    }
}

impl<T: Summable> Clone for Change<T> {
    /// A copy that equals `self`.
    fn clone(&self) -> (c: Self)
        ensures
            c == *self,
    {
        match self {
            Change::Abs(v) => Change::Abs(v.duplicate()),
            Change::Rel(v) => Change::Rel(v.duplicate()),
        }
    }
}

impl<T: Summable> Clone for N<T> {
    /// A copy of the whole subtree, equal to `self`.
    fn clone(&self) -> (c: Self)
        ensures
            c == *self,
        decreases self,
    {
        Self {
            l: self.l,
            r: self.r,
            s: self.s.duplicate(),
            left: match &self.left {
                Some(x) => Some(Box::new((&**x).clone())),
                None => None,
            },
            right: match &self.right {
                Some(x) => Some(Box::new((&**x).clone())),
                None => None,
            },
            mark: match &self.mark {
                Some(x) => Some(x.clone()),
                None => None,
            },
        }
    }
}

/// A sequence of elements at the positions of a fixed range, all `zero` at
/// first, with range add, range assign and range sum.
#[derive(Debug)]
pub struct SegSum<T: Summable> {
    /// The first position of the tree's range.
    lim_l: i64,
    /// The position after the last of the tree's range.
    lim_r: i64,
    /// The root, which covers the whole range.
    r: N<T>,
}

impl<T: Summable> View for SegSum<T> {
    type V = Map<int, T>;

    /// The elements, by position: those of the root.
    open spec fn view(&self) -> Map<int, T> {
        self.root()@
    }
}

impl<T: Summable> SegSum<T> {
    /// The first position of the tree's range.
    pub closed spec fn lo(&self) -> int {
        self.lim_l as int
    }

    /// The position after the last of the tree's range.
    pub closed spec fn hi(&self) -> int {
        self.lim_r as int
    }

    /// The node that covers the whole range.
    pub closed spec fn root(&self) -> N<T> {
        self.r
    }

    /// The tree is well formed: the root covers the tree's range and is well
    /// formed.
    pub open spec fn wf(&self) -> bool {
        &&& self.root().wf()
        &&& self.root().lo() == self.lo()
        &&& self.root().hi() == self.hi()
    }

    /// A well-formed tree holds an element at each position of its range and
    /// nowhere else.
    pub proof fn lemma_positions(&self)
        requires
            self.wf(),
        ensures
            forall|i: int| self@.dom().contains(i) <==> self.lo() <= i < self.hi(),
    {
        self.root().lemma_wf();
    }

    /// The records of the nodes of the tree, from left to right, with the
    /// root at depth 0.
    pub open spec fn listing(&self) -> Seq<NodeInfo<T>> {
        self.root().listing(0)
    }

    /// A tree for the positions `l <= i < r` with every element `zero`.
    pub fn new(l: i64, r: i64) -> (tree: Self)
        requires
            r - l <= i64::MAX,
        ensures
            tree.wf(),
            tree.lo() == l,
            tree.hi() == r,
            tree@ == zeros::<T>(l as int, r as int),
            tree.root().is_fresh(),
    {
        Self { lim_l: l, lim_r: r, r: N::new(l, r) }
    }

    /// Adds `delta` to every element at a position `l <= i < r`. An empty
    /// range changes nothing; any other must lie within the tree's range.
    pub fn add(&mut self, l: i64, r: i64, delta: &T)
        requires
            old(self).wf(),
            l < r ==> old(self).lo() <= l && r <= old(self).hi(),
        ensures
            final(self).wf(),
            final(self).lo() == old(self).lo(),
            final(self).hi() == old(self).hi(),
            final(self)@ == add_on(old(self)@, l as int, r as int, *delta),
            l >= r ==> *final(self) == *old(self),
            l < r ==> old(self).root().add_shape(final(self).root(), l as int, r as int, *delta),
            l < r ==> final(self).root() == old(self).root().added(l as int, r as int, *delta),
    {
        if l < r {
            self.r.add(l, r, delta);
        }
        proof {
            if l >= r {
                assert(add_on(old(self)@, l as int, r as int, *delta) =~= old(self)@);
            }
        }
    }

    /// The sum of the elements at the positions `l <= i < r`, which must lie
    /// within the tree's range; `zero` for an empty range. No element
    /// changes.
    pub fn query_range(&mut self, l: i64, r: i64) -> (sum: T)
        requires
            old(self).wf(),
            old(self).lo() <= l,
            r <= old(self).hi(),
        ensures
            final(self).wf(),
            final(self).lo() == old(self).lo(),
            final(self).hi() == old(self).hi(),
            final(self)@ == old(self)@,
            sum == sum_over(old(self)@, l as int, r as int),
            l >= r ==> sum == T::zero(),
            l >= r ==> *final(self) == *old(self),
            old(self).root().query_shape(final(self).root(), l as int, r as int),
            final(self).root() == old(self).root().queried(l as int, r as int),
    {
        self.r.query_sum(l, r)
    }

    /// The records of all nodes of the tree, from left to right, with the
    /// root at depth 0. There are at most 64 levels.
    pub fn nodes(&self) -> (out: Vec<NodeInfo<T>>)
        requires
            self.wf(),
        ensures
            out@ == self.listing(),
            out.len() >= 1,
            forall|i: int| 0 <= i < out.len() ==> out[i].depth < 64,
    {
        self.r.nodes()
    }

    /// Assigns `val` to every element at a position `l <= i < r`. An empty
    /// range changes nothing; any other must lie within the tree's range.
    pub fn update(&mut self, l: i64, r: i64, val: &T)
        requires
            old(self).wf(),
            l < r ==> old(self).lo() <= l && r <= old(self).hi(),
        ensures
            final(self).wf(),
            final(self).lo() == old(self).lo(),
            final(self).hi() == old(self).hi(),
            final(self)@ == assign_on(old(self)@, l as int, r as int, *val),
            l >= r ==> *final(self) == *old(self),
            l < r ==> old(self).root().assign_shape(final(self).root(), l as int, r as int, *val),
            l < r ==> final(self).root() == old(self).root().assigned(l as int, r as int, *val),
    {
        if l < r {
            self.r.update(l, r, val);
        }
        proof {
            if l >= r {
                assert(assign_on(old(self)@, l as int, r as int, *val) =~= old(self)@);
            }
        }
    }
}

impl<T: Summable> Clone for SegSum<T> {
    /// A copy of the whole tree, equal to `self`.
    fn clone(&self) -> (c: Self)
        ensures
            c == *self,
    {
        Self { lim_l: self.lim_l, lim_r: self.lim_r, r: self.r.clone() }
    }
}

} // verus!
