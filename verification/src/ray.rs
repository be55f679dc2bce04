//! Rays: a point and a direction.
use crate::scalar::Scalar;
use crate::vec3::v3_add;
use crate::vec3::v3_scale_left;
use crate::vec3::Point3;
use crate::vec3::Vector3;
use crate::vec3::V3;
use vstd::prelude::*;

verus! {

/// The mathematical content of a ray.
pub struct Line {
    pub origin: V3,
    pub direction: V3,
}

/// The point of the line at the parameter `t`: `origin + t direction`.
pub open spec fn line_at(l: Line, t: int) -> V3 {
    v3_add(l.origin, v3_scale_left(t, l.direction))
}

/// The half line from `origin` along `direction`.
#[derive(Clone, Copy, Debug, PartialEq, Eq, Structural)]
pub struct Ray {
    origin: Point3,
    direction: Vector3,
}

impl View for Ray {
    type V = Line;

    closed spec fn view(&self) -> Line {
        Line { origin: self.origin@, direction: self.direction@ }
    }
}

impl Ray {
    /// The ray from `origin` along `direction`.
    pub fn new(origin: Point3, direction: Vector3) -> (r: Ray)
        ensures
            r@ == (Line { origin: origin@, direction: direction@ }),
    {
        Ray { origin, direction }
    }

    /// Where the ray starts.
    pub fn origin(&self) -> (r: &Point3)
        ensures
            r@ == self@.origin,
    {
        &self.origin
    }

    /// Where the ray goes.
    pub fn direction(&self) -> (r: &Vector3)
        ensures
            r@ == self@.direction,
    {
        &self.direction
    }

    /// The point at the parameter `t`.
    pub fn at(&self, t: Scalar) -> (r: Point3)
        ensures
            r@ == line_at(self@, t@),
    {
        self.origin + t * self.direction
    }
}

} // verus!
