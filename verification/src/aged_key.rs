//! Keys ordered by a class, then by age, then by owner.

use crate::ordered::Ranked;
use vstd::prelude::*;

verus! {

/// A key type whose ranks lie below a bound.
pub trait Bounded: Ranked {
    /// More than any rank.
    spec fn span() -> int;

    /// Every rank lies within the bound.
    proof fn within_span(self)
        ensures
            0 <= self.rank() < Self::span(),
    ;
}

/// An owner with its priority class and its last touch.
#[derive(Debug, Clone, Copy, PartialEq, Eq, PartialOrd, Ord)]
pub struct AgedKey<O> {
    pub priority: u8,
    pub last_touch: u64,
    pub owner: O,
}

proof fn lemma_scaled(a: int, b: int, span: int, x: int, y: int)
    by (nonlinear_arith)
    requires
        0 <= x < span,
        0 <= y < span,
    ensures
        a < b ==> a * span + x < b * span + y,
        a * span + x == b * span + y ==> a == b && x == y,
{
}

impl<O: Bounded> AgedKey<O> {
    /// Priority and stamp as one number.
    pub open spec fn age(self) -> int {
        self.priority * (u64::MAX + 1) + self.last_touch
    }
}

impl<O: Bounded> Ranked for AgedKey<O> {
    open spec fn rank(self) -> int {
        self.age() * O::span() + self.owner.rank()
    }

    proof fn rank_injective(a: Self, b: Self) {
        a.owner.within_span();
        b.owner.within_span();
        lemma_scaled(a.age(), b.age(), O::span(), a.owner.rank(), b.owner.rank());
        O::rank_injective(a.owner, b.owner);
    }

    fn precedes(&self, other: &Self) -> (before: bool) {
        proof {
            self.owner.within_span();
            other.owner.within_span();
            lemma_scaled(
                self.age(),
                other.age(),
                O::span(),
                self.owner.rank(),
                other.owner.rank(),
            );
            lemma_scaled(
                other.age(),
                self.age(),
                O::span(),
                other.owner.rank(),
                self.owner.rank(),
            );
        }
        if self.priority != other.priority {
            self.priority < other.priority
        } else if self.last_touch != other.last_touch {
            self.last_touch < other.last_touch
        } else {
            self.owner.precedes(&other.owner)
        }
    }

    fn same(&self, other: &Self) -> (equal: bool) {
        self.priority == other.priority && self.last_touch == other.last_touch && self.owner.same(
            &other.owner,
        )
    }
}

/// The order is priority, then last touch, then owner order.
pub proof fn aged_order<O: Bounded>(a: AgedKey<O>, b: AgedKey<O>)
    ensures
        (a.rank() < b.rank()) == (a.priority < b.priority || (a.priority == b.priority && (
        a.last_touch < b.last_touch || (a.last_touch == b.last_touch && a.owner.rank()
            < b.owner.rank())))),
{
    a.owner.within_span();
    b.owner.within_span();
    lemma_scaled(a.age(), b.age(), O::span(), a.owner.rank(), b.owner.rank());
    lemma_scaled(b.age(), a.age(), O::span(), b.owner.rank(), a.owner.rank());
}

} // verus!
