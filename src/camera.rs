//! A thin-lens camera mapping image-plane coordinates to rays.
use vstd::prelude::*;
use crate::fixed::{Fixed, SCALE, fx_mul, fx_div};
use crate::random::{in_unit_disk, random_in_unit_disk};
use crate::ray::Ray;
use crate::vec3::{Vec3, Triple, v_add, v_sub, v_scale, v_unit, v_cross};

verus! {

#[derive(Clone, Copy, Debug, PartialEq, Eq, Structural)]
pub struct Camera {
    pub origin: Vec3,
    pub lower_left_corner: Vec3,
    pub horizontal: Vec3,
    pub vertical: Vec3,
    pub u: Vec3,
    pub v: Vec3,
    pub lens_radius: Fixed,
}

/// The camera set up at `look_from`, facing `look_at`, with `view_up` giving
/// the vertical, `half_fov_tan` the tangent of half the vertical field of
/// view, and the focus plane at distance `focus_dist`.
pub open spec fn camera_spec(
    look_from: Triple,
    look_at: Triple,
    view_up: Triple,
    half_fov_tan: int,
    aspect: int,
    aperture: int,
    focus_dist: int,
) -> Camera {
    let half_height = fx_mul(focus_dist, half_fov_tan);
    let half_width = fx_mul(aspect, half_height);
    let w = v_unit(v_sub(look_from, look_at));
    let u = v_unit(v_cross(view_up, w));
    let v = v_cross(w, u);
    Camera {
        origin: triple_vec(look_from),
        lower_left_corner: triple_vec(
            v_sub(v_sub(v_sub(look_from, v_scale(u, half_width)), v_scale(v, half_height)), v_scale(w, focus_dist)),
        ),
        horizontal: triple_vec(v_scale(v_scale(u, 2 * SCALE), half_width)),
        vertical: triple_vec(v_scale(v_scale(v, half_height), 2 * SCALE)),
        u: triple_vec(u),
        v: triple_vec(v),
        lens_radius: Fixed { raw: fx_div(aperture, 2 * SCALE) as i64 },
    }
}

/// The vector whose view is `t`, for `t` in the raw range.
pub open spec fn triple_vec(t: Triple) -> Vec3 {
    Vec3 { x: Fixed { raw: t.0 as i64 }, y: Fixed { raw: t.1 as i64 }, z: Fixed { raw: t.2 as i64 } }
}

/// The ray through image-plane point `(s, t)` from lens point `disk` (a point
/// of the unit disk, scaled by the lens radius).
pub open spec fn ray_through(cam: Camera, s: int, t: int, disk: Triple) -> (Triple, Triple) {
    let rd = v_scale(disk, cam.lens_radius@);
    let offset = v_add(v_scale(cam.u@, rd.0), v_scale(cam.v@, rd.1));
    (
        v_add(cam.origin@, offset),
        v_sub(
            v_sub(
                v_add(v_add(cam.lower_left_corner@, v_scale(cam.horizontal@, s)), v_scale(cam.vertical@, t)),
                cam.origin@,
            ),
            offset,
        ),
    )
}

/// A pinhole camera (lens radius zero, as aperture zero gives) casts the
/// same ray whatever the lens sample: from its origin toward the point
/// `lower_left_corner + s * horizontal + t * vertical` of the focus plane.
pub proof fn lemma_pinhole_ray(cam: Camera, s: int, t: int, disk: Triple)
    requires
        cam.lens_radius@ == 0,
    ensures
        ray_through(cam, s, t, disk) == (
            cam.origin@,
            v_sub(
                v_add(v_add(cam.lower_left_corner@, v_scale(cam.horizontal@, s)), v_scale(cam.vertical@, t)),
                cam.origin@,
            ),
        ),
        fx_div(0, 2 * SCALE) == 0,
{
    assert(disk.0 * 0 == 0 && disk.1 * 0 == 0 && disk.2 * 0 == 0);
    assert(crate::fixed::quot(0, SCALE as int) == 0);
    assert(crate::fixed::quot(0, 2 * SCALE as int) == 0);
    assert(0 * SCALE == 0);
    let rd = v_scale(disk, cam.lens_radius@);
    assert(rd == (0int, 0int, 0int));
    assert(cam.u@.0 * 0 == 0 && cam.u@.1 * 0 == 0 && cam.u@.2 * 0 == 0);
    assert(cam.v@.0 * 0 == 0 && cam.v@.1 * 0 == 0 && cam.v@.2 * 0 == 0);
    let offset = v_add(v_scale(cam.u@, rd.0), v_scale(cam.v@, rd.1));
    assert(offset == (0int, 0int, 0int));
}

impl Camera {
    pub fn new(
        look_from: Vec3,
        look_at: Vec3,
        view_up: Vec3,
        half_fov_tan: Fixed,
        aspect: Fixed,
        aperture: Fixed,
        focus_dist: Fixed,
    ) -> (r: Camera)
        ensures
            r == camera_spec(look_from@, look_at@, view_up@, half_fov_tan@, aspect@, aperture@, focus_dist@),
    {
        let two = Fixed::from_raw(2 * SCALE);
        let half_height = focus_dist.mul(half_fov_tan);
        let half_width = aspect.mul(half_height);
        let w = look_from.sub(look_at).unit();
        let u = view_up.cross(w).unit();
        let v = w.cross(u);
        let r = Camera {
            origin: look_from,
            lower_left_corner: look_from.sub(u.scale(half_width)).sub(v.scale(half_height)).sub(w.scale(focus_dist)),
            horizontal: u.scale(two).scale(half_width),
            vertical: v.scale(half_height).scale(two),
            u,
            v,
            lens_radius: aperture.div(two),
        };
        proof {
            let c = camera_spec(look_from@, look_at@, view_up@, half_fov_tan@, aspect@, aperture@, focus_dist@);
            assert(r.origin == c.origin);
            assert(r.lower_left_corner == c.lower_left_corner);
            assert(r.horizontal == c.horizontal);
            assert(r.vertical == c.vertical);
            assert(r.u == c.u);
            assert(r.v == c.v);
        }
        r
    }

    /// The ray through image-plane point `(s, t)` from the given lens sample.
    pub fn get_ray_with(&self, s: Fixed, t: Fixed, disk: Vec3) -> (r: Ray)
        ensures
            r@ == ray_through(*self, s@, t@, disk@),
    {
        let rd = disk.scale(self.lens_radius);
        let offset = self.u.scale(rd.x).add(self.v.scale(rd.y));
        Ray::new(
            self.origin.add(offset),
            self.lower_left_corner.add(self.horizontal.scale(s)).add(self.vertical.scale(t)).sub(self.origin).sub(
                offset,
            ),
        )
    }

    /// The ray through image-plane point `(s, t)` from a random point of the lens.
    pub fn get_ray(&self, s: Fixed, t: Fixed) -> (r: Ray)
        ensures
            exists|disk: Triple| in_unit_disk(disk) && r@ == #[trigger] ray_through(*self, s@, t@, disk),
    {
        let disk = random_in_unit_disk();
        let r = self.get_ray_with(s, t, disk);
        assert(in_unit_disk(disk@) && r@ == ray_through(*self, s@, t@, disk@));
        r
    }
}

} // verus!
