//! Costs: the values by which the search orders its frontier.

use vstd::prelude::*;

verus! {

/// A totally ordered cost.
///
/// The order is given by `rank`: one cost comes before another where its
/// rank is lower, and costs of equal rank are interchangeable to the search.
/// The integer types are costs ranked by their value.
pub trait Cost: Sized {
    /// The place of this cost in the order.
    ///
    /// An implementation states it; the default leaves it open.
    open spec fn rank(self) -> int {
        arbitrary()
    }

    /// The cost of standing still; its rank is zero.
    fn zero() -> (zero: Self)
        ensures
            zero.rank() == 0,
    ;

    /// Whether this cost comes strictly before `other`.
    fn precedes(&self, other: &Self) -> (less: bool)
        ensures
            less == (self.rank() < other.rank()),
    ;
}

impl Cost for u8 {
    open spec fn rank(self) -> int {
        self as int
    }

    fn zero() -> (zero: Self) {
        0
    }

    fn precedes(&self, other: &Self) -> (less: bool) {
        *self < *other
    }
}

impl Cost for u16 {
    open spec fn rank(self) -> int {
        self as int
    }

    fn zero() -> (zero: Self) {
        0
    }

    fn precedes(&self, other: &Self) -> (less: bool) {
        *self < *other
    }
}

impl Cost for u32 {
    open spec fn rank(self) -> int {
        self as int
    }

    fn zero() -> (zero: Self) {
        0
    }

    fn precedes(&self, other: &Self) -> (less: bool) {
        *self < *other
    }
}

impl Cost for u64 {
    open spec fn rank(self) -> int {
        self as int
    }

    fn zero() -> (zero: Self) {
        0
    }

    fn precedes(&self, other: &Self) -> (less: bool) {
        *self < *other
    }
}

impl Cost for u128 {
    open spec fn rank(self) -> int {
        self as int
    }

    fn zero() -> (zero: Self) {
        0
    }

    fn precedes(&self, other: &Self) -> (less: bool) {
        *self < *other
    }
}

impl Cost for usize {
    open spec fn rank(self) -> int {
        self as int
    }

    fn zero() -> (zero: Self) {
        0
    }

    fn precedes(&self, other: &Self) -> (less: bool) {
        *self < *other
    }
}

impl Cost for i8 {
    open spec fn rank(self) -> int {
        self as int
    }

    fn zero() -> (zero: Self) {
        0
    }

    fn precedes(&self, other: &Self) -> (less: bool) {
        *self < *other
    }
}

impl Cost for i16 {
    open spec fn rank(self) -> int {
        self as int
    }

    fn zero() -> (zero: Self) {
        0
    }

    fn precedes(&self, other: &Self) -> (less: bool) {
        *self < *other
    }
}

impl Cost for i32 {
    open spec fn rank(self) -> int {
        self as int
    }

    fn zero() -> (zero: Self) {
        0
    }

    fn precedes(&self, other: &Self) -> (less: bool) {
        *self < *other
    }
}

impl Cost for i64 {
    open spec fn rank(self) -> int {
        self as int
    }

    fn zero() -> (zero: Self) {
        0
    }

    fn precedes(&self, other: &Self) -> (less: bool) {
        *self < *other
    }
}

impl Cost for i128 {
    open spec fn rank(self) -> int {
        self as int
    }

    fn zero() -> (zero: Self) {
        0
    }

    fn precedes(&self, other: &Self) -> (less: bool) {
        *self < *other
    }
}

impl Cost for isize {
    open spec fn rank(self) -> int {
        self as int
    }

    fn zero() -> (zero: Self) {
        0
    }

    fn precedes(&self, other: &Self) -> (less: bool) {
        *self < *other
    }
}

} // verus!
