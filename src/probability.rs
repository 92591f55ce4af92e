//! A symbol's share of the cumulative frequency axis.
use std::ops::Range;
use vstd::prelude::*;

verus! {

/// The interval `[low, high)` of a symbol over a denominator.
pub struct Probability<T> {
    bounds: Range<T>,
    denominator: T,
}

impl<T> Probability<T> {
    /// The bounds of the interval.
    pub closed spec fn spec_bounds(&self) -> Range<T> {
        self.bounds
    }

    /// The denominator that the bounds are stated over.
    pub closed spec fn spec_denominator(&self) -> T {
        self.denominator
    }

    /// A probability with the given bounds and denominator.
    pub fn new(bounds: Range<T>, denominator: T) -> (r: Self)
        ensures
            r.spec_bounds() == bounds,
            r.spec_denominator() == denominator,
    {
        Self { bounds, denominator }
    }

    /// The inclusive lower bound.
    pub fn low(&self) -> (r: &T)
        ensures
            *r == self.spec_bounds().start,
    {
        &self.bounds.start
    }

    /// The exclusive upper bound.
    pub fn high(&self) -> (r: &T)
        ensures
            *r == self.spec_bounds().end,
    {
        &self.bounds.end
    }

    /// The denominator.
    pub fn denominator(&self) -> (r: &T)
        ensures
            *r == self.spec_denominator(),
    {
        &self.denominator
    }
}

} // verus!
