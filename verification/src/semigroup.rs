//! Values that can be combined two at a time.

use vstd::prelude::*;

verus! {

/// An associative combination.  `ready` guards the combinations the
/// machine can carry out (numeric addition must not overflow);
/// `spec_combine` says exactly what comes out.
pub trait Semigroup: Sized {
    /// Whether these two values may be combined.
    spec fn ready(self, rhs: Self) -> bool;

    /// The combined value.
    spec fn spec_combine(self, rhs: Self) -> Self;

    fn combine(self, rhs: Self) -> (r: Self)
        requires
            self.ready(rhs),
        ensures
            r == self.spec_combine(rhs),
    ;
}

impl Semigroup for u32 {
    open spec fn ready(self, rhs: u32) -> bool {
        self + rhs <= u32::MAX
    }

    open spec fn spec_combine(self, rhs: u32) -> u32 {
        (self + rhs) as u32
    }

    fn combine(self, rhs: u32) -> u32 {
        self + rhs
    }
}

impl Semigroup for u64 {
    open spec fn ready(self, rhs: u64) -> bool {
        self + rhs <= u64::MAX
    }

    open spec fn spec_combine(self, rhs: u64) -> u64 {
        (self + rhs) as u64
    }

    fn combine(self, rhs: u64) -> u64 {
        self + rhs
    }
}

impl Semigroup for usize {
    open spec fn ready(self, rhs: usize) -> bool {
        self + rhs <= usize::MAX
    }

    open spec fn spec_combine(self, rhs: usize) -> usize {
        (self + rhs) as usize
    }

    fn combine(self, rhs: usize) -> usize {
        self + rhs
    }
}

impl Semigroup for i32 {
    open spec fn ready(self, rhs: i32) -> bool {
        i32::MIN <= self + rhs <= i32::MAX
    }

    open spec fn spec_combine(self, rhs: i32) -> i32 {
        (self + rhs) as i32
    }

    fn combine(self, rhs: i32) -> i32 {
        self + rhs
    }
}

impl Semigroup for i64 {
    open spec fn ready(self, rhs: i64) -> bool {
        i64::MIN <= self + rhs <= i64::MAX
    }

    open spec fn spec_combine(self, rhs: i64) -> i64 {
        (self + rhs) as i64
    }

    fn combine(self, rhs: i64) -> i64 {
        self + rhs
    }
}

impl Semigroup for bool {
    open spec fn ready(self, rhs: bool) -> bool {
        true
    }

    open spec fn spec_combine(self, rhs: bool) -> bool {
        self || rhs
    }

    fn combine(self, rhs: bool) -> bool {
        self || rhs
    }
}

impl<T: Semigroup> Semigroup for Option<T> {
    open spec fn ready(self, rhs: Option<T>) -> bool {
        match (self, rhs) {
            (Some(left), Some(right)) => left.ready(right),
            _ => true,
        }
    }

    open spec fn spec_combine(self, rhs: Option<T>) -> Option<T> {
        match (self, rhs) {
            (Some(left), Some(right)) => Some(left.spec_combine(right)),
            (None, right) => right,
            (left, None) => left,
        }
    }

    fn combine(self, rhs: Option<T>) -> Option<T> {
        match (self, rhs) {
            (Some(left), Some(right)) => Some(left.combine(right)),
            (None, right) => right,
            (left, None) => left,
        }
    }
}

} // verus!
