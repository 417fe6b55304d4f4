//! Parametric rays: `origin + t * direction`.
use vstd::prelude::*;
use crate::fixed::Fixed;
use crate::vec3::{Vec3, Triple, v_add, v_scale};

verus! {

/// The point at parameter `t` of the ray with the given origin and direction.
pub open spec fn point_at(origin: Triple, direction: Triple, t: int) -> Triple {
    v_add(origin, v_scale(direction, t))
}

/// At parameter zero a ray is at its origin, whatever the origin.
pub proof fn lemma_at_zero(r: Ray)
    ensures
        point_at(r.origin@, r.direction@, 0) == r.origin@,
{
    let d = r.direction@;
    assert(d.0 * 0 == 0 && d.1 * 0 == 0 && d.2 * 0 == 0);
    assert(crate::fixed::quot(0, crate::fixed::SCALE as int) == 0);
}

#[derive(Clone, Copy, Debug, PartialEq, Eq, Structural)]
pub struct Ray {
    pub origin: Vec3,
    pub direction: Vec3,
}

impl View for Ray {
    type V = (Triple, Triple);

    /// Origin and direction.
    open spec fn view(&self) -> (Triple, Triple) {
        (self.origin@, self.direction@)
    }
}

impl Ray {
    pub fn new(origin: Vec3, direction: Vec3) -> (r: Ray)
        ensures
            r.origin == origin,
            r.direction == direction,
    {
        Ray { origin, direction }
    }

    pub fn origin(&self) -> (r: Vec3)
        ensures
            r == self.origin,
    {
        self.origin
    }

    pub fn direction(&self) -> (r: Vec3)
        ensures
            r == self.direction,
    {
        self.direction
    }

    pub fn at(self, t: Fixed) -> (r: Vec3)
        ensures
            r@ == point_at(self.origin@, self.direction@, t@),
    {
        self.origin.add(self.direction.scale(t))
    }
}

} // verus!
