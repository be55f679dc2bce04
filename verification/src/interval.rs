//! Ranges of scalars, used to bound where along a ray a hit counts and to
//! clamp colour channels.
use crate::scalar::fx_sub;
use crate::scalar::in_range;
use crate::scalar::limit;
use crate::scalar::Scalar;
use vstd::prelude::*;

verus! {

/// The scalars from `min` to `max`.
#[derive(Clone, Copy, Debug, PartialEq, Eq, Structural)]
pub struct Interval {
    pub min: Scalar,
    pub max: Scalar,
}

impl Interval {
    /// `x` lies in the interval, ends included.
    pub open spec fn holds(self, x: int) -> bool {
        self.min@ <= x <= self.max@
    }

    /// `x` lies strictly inside the interval.
    pub open spec fn holds_inside(self, x: int) -> bool {
        self.min@ < x < self.max@
    }

    /// The member of the interval nearest to `x`, for `min <= max`.
    pub open spec fn nearest(self, x: int) -> int {
        if x < self.min@ {
            self.min@
        } else if x > self.max@ {
            self.max@
        } else {
            x
        }
    }

    /// The interval from `min` to `max`.
    pub fn new(min: Scalar, max: Scalar) -> (r: Interval)
        ensures
            r.min == min,
            r.max == max,
    {
        Interval { min, max }
    }

    /// The interval that holds nothing: from plus to minus infinity.
    pub fn empty() -> (r: Interval)
        ensures
            r.min@ == limit(),
            r.max@ == -limit(),
            forall|x: int| !r.holds(x),
    {
        Interval { min: Scalar::infinity(), max: Scalar::neg_infinity() }
    }

    /// The interval that holds every scalar.
    pub fn universe() -> (r: Interval)
        ensures
            r.min@ == -limit(),
            r.max@ == limit(),
            forall|x: int| in_range(x) ==> r.holds(x),
    {
        Interval { min: Scalar::neg_infinity(), max: Scalar::infinity() }
    }

    /// `max - min`.
    pub fn size(&self) -> (r: Scalar)
        ensures
            r@ == fx_sub(self.max@, self.min@),
    {
        self.max - self.min
    }

    /// Whether `value` lies in the interval, ends included.
    pub fn contains(&self, value: Scalar) -> (r: bool)
        ensures
            r == self.holds(value@),
    {
        self.min.le(&value) && value.le(&self.max)
    }

    /// Whether `x` lies strictly inside the interval.
    pub fn surrounds(&self, x: Scalar) -> (r: bool)
        ensures
            r == self.holds_inside(x@),
    {
        self.min.lt(&x) && x.lt(&self.max)
    }

    /// `x` moved to the nearest member of the interval.
    pub fn clamp(&self, x: Scalar) -> (r: Scalar)
        ensures
            r@ == self.nearest(x@),
            self.min@ <= self.max@ ==> self.holds(r@),
    {
        if x.lt(&self.min) {
            self.min
        } else if x.gt(&self.max) {
            self.max
        } else {
            x
        }
    }
}

impl Default for Interval {
    /// The interval that holds every scalar.
    fn default() -> (r: Interval)
        ensures
            r.min@ == -limit(),
            r.max@ == limit(),
    {
        Interval::universe()
    }
}

} // verus!
