//! Hit records and the capability of being hit by a ray.
use vstd::prelude::*;
use crate::fixed::Fixed;
use crate::material::Material;
use crate::ray::Ray;
use crate::vec3::{Vec3, Triple};

verus! {

/// A hit seen mathematically: point, normal and ray parameter.
pub type HitView = (Triple, Triple, int);

/// Where a ray met a surface.
#[derive(Clone, Copy, Debug, PartialEq, Eq, Structural)]
pub struct HitRecord {
    pub p: Vec3,
    pub normal: Vec3,
    pub t: Fixed,
}

impl View for HitRecord {
    type V = HitView;

    open spec fn view(&self) -> HitView {
        (self.p@, self.normal@, self.t@)
    }
}

impl HitRecord {
    pub fn new(p: Vec3, normal: Vec3, t: Fixed) -> (r: HitRecord)
        ensures
            r.p == p,
            r.normal == normal,
            r.t == t,
    {
        HitRecord { p, normal, t }
    }
}

/// The mathematical view of an optional hit.
pub open spec fn hit_view(r: Option<(HitRecord, Material)>) -> Option<(HitView, Material)> {
    match r {
        Some((h, m)) => Some((h@, m)),
        None => None,
    }
}

/// `t` lies in the half-open search window `(t_min, t_max]`.
pub open spec fn in_window(t: int, t_min: int, t_max: int) -> bool {
    t_min < t && t <= t_max
}

pub trait Hitable {
    /// The hit, if any, of the ray `(origin, direction)` within `(t_min, t_max]`.
    spec fn hit_spec(&self, ray: (Triple, Triple), t_min: int, t_max: int) -> Option<(HitView, Material)>;

    fn hit(&self, ray: &Ray, t_min: Fixed, t_max: Fixed) -> (r: Option<(HitRecord, Material)>)
        ensures
            hit_view(r) == self.hit_spec(ray@, t_min@, t_max@),
    ;
}

} // verus!
