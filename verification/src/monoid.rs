//! Semigroups with a neutral element, and the combining wrappers the
//! configuration layer folds over.

use vstd::prelude::*;

use crate::semigroup::Semigroup;

verus! {

/// A semigroup with a neutral element.
pub trait Monoid: Semigroup {
    /// The neutral element.
    spec fn spec_empty() -> Self;

    fn empty() -> (r: Self)
        ensures
            r == Self::spec_empty(),
    ;
}

impl<T: Semigroup> Monoid for Option<T> {
    open spec fn spec_empty() -> Option<T> {
        None
    }

    fn empty() -> Option<T> {
        None
    }
}

impl Monoid for u32 {
    open spec fn spec_empty() -> u32 {
        0
    }

    fn empty() -> u32 {
        0
    }
}

impl Monoid for u64 {
    open spec fn spec_empty() -> u64 {
        0
    }

    fn empty() -> u64 {
        0
    }
}

impl Monoid for usize {
    open spec fn spec_empty() -> usize {
        0
    }

    fn empty() -> usize {
        0
    }
}

impl Monoid for i32 {
    open spec fn spec_empty() -> i32 {
        0
    }

    fn empty() -> i32 {
        0
    }
}

impl Monoid for i64 {
    open spec fn spec_empty() -> i64 {
        0
    }

    fn empty() -> i64 {
        0
    }
}

impl Monoid for bool {
    open spec fn spec_empty() -> bool {
        false
    }

    fn empty() -> bool {
        false
    }
}

/// Keeps the last value written: combining prefers the right-hand
/// value when it is present.
#[derive(Debug)]
pub struct Last<T>(pub Option<T>);

impl<T> Semigroup for Last<T> {
    open spec fn ready(self, rhs: Last<T>) -> bool {
        true
    }

    open spec fn spec_combine(self, rhs: Last<T>) -> Last<T> {
        match rhs.0 {
            Some(_) => rhs,
            None => self,
        }
    }

    fn combine(self, rhs: Last<T>) -> Last<T> {
        match rhs.0 {
            Some(v) => Last(Some(v)),
            None => self,
        }
    }
}

impl<T> Monoid for Last<T> {
    open spec fn spec_empty() -> Last<T> {
        Last(None)
    }

    fn empty() -> Last<T> {
        Last(None)
    }
}

impl<T> Last<T> {
    /// Wraps a present value.
    pub fn from_value(value: T) -> (r: Last<T>)
        ensures
            r == Last(Some(value)),
    {
        Last(Some(value))
    }

    /// The kept value, if any.
    pub fn into_option(self) -> (r: Option<T>)
        ensures
            r == self.0,
    {
        self.0
    }
}

/// Combining last-write-wins values is associative: merging
/// configuration sources may be grouped either way.
pub proof fn lemma_last_associative<T>(a: Last<T>, b: Last<T>, c: Last<T>)
    ensures
        a.spec_combine(b).spec_combine(c) == a.spec_combine(b.spec_combine(c)),
{
}

/// The empty value is an identity for last-write-wins merging.
pub proof fn lemma_last_identity<T>(a: Last<T>)
    ensures
        Last::spec_empty().spec_combine(a) == a,
        a.spec_combine(Last::spec_empty()) == a,
{
}

/// Combines by the inner semigroup; for numbers, addition.
#[derive(Debug)]
pub struct Sum<T>(pub T);

impl<T: Semigroup> Semigroup for Sum<T> {
    open spec fn ready(self, rhs: Sum<T>) -> bool {
        self.0.ready(rhs.0)
    }

    open spec fn spec_combine(self, rhs: Sum<T>) -> Sum<T> {
        Sum(self.0.spec_combine(rhs.0))
    }

    fn combine(self, rhs: Sum<T>) -> Sum<T> {
        Sum(self.0.combine(rhs.0))
    }
}

impl<T: Monoid> Monoid for Sum<T> {
    open spec fn spec_empty() -> Sum<T> {
        Sum(T::spec_empty())
    }

    fn empty() -> Sum<T> {
        Sum(T::empty())
    }
}

impl<T: Semigroup> Sum<T> {
    /// Wraps a value for summation.
    pub fn from_value(value: T) -> (r: Sum<T>)
        ensures
            r == Sum(value),
    {
        Sum(value)
    }
}

/// Combines by the inner semigroup; its neutral element is one.
#[derive(Debug)]
pub struct Product<T>(pub T);

impl<T: Semigroup> Semigroup for Product<T> {
    open spec fn ready(self, rhs: Product<T>) -> bool {
        self.0.ready(rhs.0)
    }

    open spec fn spec_combine(self, rhs: Product<T>) -> Product<T> {
        Product(self.0.spec_combine(rhs.0))
    }

    fn combine(self, rhs: Product<T>) -> Product<T> {
        Product(self.0.combine(rhs.0))
    }
}

impl Monoid for Product<u32> {
    open spec fn spec_empty() -> Product<u32> {
        Product(1)
    }

    fn empty() -> Product<u32> {
        Product(1)
    }
}

impl Monoid for Product<i32> {
    open spec fn spec_empty() -> Product<i32> {
        Product(1)
    }

    fn empty() -> Product<i32> {
        Product(1)
    }
}

impl Monoid for Product<u64> {
    open spec fn spec_empty() -> Product<u64> {
        Product(1)
    }

    fn empty() -> Product<u64> {
        Product(1)
    }
}

} // verus!
