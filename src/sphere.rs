//! Spheres: the implicit surface `|P - center|^2 = radius^2`.
use vstd::prelude::*;
use crate::fixed::{
    Fixed, SCALE, LIMIT, abs, sat, quot, fx_mul, fx_div, is_isqrt, lemma_sat_monotone, lemma_fx_div_monotone, lemma_quot_monotone,
};
use crate::hitable::{HitRecord, HitView, Hitable, in_window};
use crate::material::Material;
use crate::ray::{Ray, point_at};
use crate::vec3::{Vec3, Triple, v_sub, v_dot, v_div_scalar, v_squared_length, fx_sqrt, dot, sqrt};

verus! {

/// The two roots `(smaller, larger)` of the ray–sphere quadratic in its
/// half-angle form, or `None` when the discriminant is negative.
pub open spec fn sphere_roots(center: Triple, radius: int, origin: Triple, direction: Triple) -> Option<(int, int)> {
    let oc = v_sub(origin, center);
    let a = v_squared_length(direction);
    let half_b = v_dot(oc, direction);
    let c = sat(v_squared_length(oc) - fx_mul(radius, radius));
    let disc = sat(fx_mul(half_b, half_b) - fx_mul(a, c));
    if disc < 0 {
        None
    } else {
        let sq = fx_sqrt(disc);
        let nb = sat(-half_b);
        Some((fx_div(sat(nb - sq), a), fx_div(sat(nb + sq), a)))
    }
}

/// The smaller root if it lies in the window, else the larger one if it does.
pub open spec fn pick_root(roots: Option<(int, int)>, t_min: int, t_max: int) -> Option<int> {
    match roots {
        None => None,
        Some((r1, r2)) => if in_window(r1, t_min, t_max) {
            Some(r1)
        } else if in_window(r2, t_min, t_max) {
            Some(r2)
        } else {
            None
        },
    }
}

#[derive(Clone, Copy, Debug, PartialEq, Eq, Structural)]
pub struct Sphere {
    pub center: Vec3,
    /// Signed: a negative radius turns the normal inward.
    pub radius: Fixed,
    pub material: Material,
}

impl Sphere {
    pub fn new(center: Vec3, radius: Fixed, material: Material) -> (r: Sphere)
        ensures
            r.center == center,
            r.radius == radius,
            r.material == material,
    {
        Sphere { center, radius, material }
    }

    pub fn center(&self) -> (r: &Vec3)
        ensures
            *r == self.center,
    {
        &self.center
    }

    pub fn radius(&self) -> (r: Fixed)
        ensures
            r == self.radius,
    {
        self.radius
    }

    pub fn material(&self) -> (r: &Material)
        ensures
            *r == self.material,
    {
        &self.material
    }

    /// The ray parameter of the hit within `(t_min, t_max]`, if any.
    pub open spec fn hit_t(self, ray: (Triple, Triple), t_min: int, t_max: int) -> Option<int> {
        pick_root(sphere_roots(self.center@, self.radius@, ray.0, ray.1), t_min, t_max)
    }

    /// The record of a hit at `t`: the normal is `(p - center) / radius`, so
    /// its sign follows the sign of the radius.
    pub open spec fn record_at(self, ray: (Triple, Triple), t: int) -> HitView {
        let p = point_at(ray.0, ray.1, t);
        (p, v_div_scalar(v_sub(p, self.center@), self.radius@), t)
    }
}

impl Hitable for Sphere {
    open spec fn hit_spec(&self, ray: (Triple, Triple), t_min: int, t_max: int) -> Option<(HitView, Material)> {
        match self.hit_t(ray, t_min, t_max) {
            Some(t) => Some((self.record_at(ray, t), self.material)),
            None => None,
        }
    }

    fn hit(&self, ray: &Ray, t_min: Fixed, t_max: Fixed) -> (r: Option<(HitRecord, Material)>) {
        let oc = ray.origin.sub(self.center);
        let a = ray.direction.squared_length();
        let half_b = dot(&oc, &ray.direction);
        let c = oc.squared_length().sub(self.radius.mul(self.radius));
        let disc = half_b.mul(half_b).sub(a.mul(c));
        if disc.raw < 0 {
            return None;
        }
        let sq = sqrt(disc);
        let nb = half_b.neg();
        let mut root = nb.sub(sq).div(a);
        if root.raw <= t_min.raw || t_max.raw < root.raw {
            root = nb.add(sq).div(a);
            if root.raw <= t_min.raw || t_max.raw < root.raw {
                return None;
            }
        }
        let p = ray.at(root);
        let normal = p.sub(self.center).div_scalar(self.radius);
        Some((HitRecord::new(p, normal, root), self.material))
    }
}

/// Every non-negative integer has an integer square root.
pub proof fn lemma_isqrt_exists(n: int)
    requires
        n >= 0,
    ensures
        exists|r: int| #[trigger] is_isqrt(n, r),
    decreases n,
{
    if n == 0 {
        assert(is_isqrt(0, 0));
    } else {
        lemma_isqrt_exists(n - 1);
        let r = choose|r: int| #[trigger] is_isqrt(n - 1, r);
        if (r + 1) * (r + 1) <= n {
            assert(n < (r + 2) * (r + 2)) by (nonlinear_arith)
                requires
                    n - 1 < (r + 1) * (r + 1),
                    r >= 0,
            ;
            assert(is_isqrt(n, r + 1));
        } else {
            assert(is_isqrt(n, r));
        }
    }
}

/// The fixed-point square root is never negative.
pub proof fn lemma_fx_sqrt_nonneg(a: int)
    ensures
        fx_sqrt(a) >= 0,
{
    if a > 0 {
        assert(a * SCALE >= 0) by (nonlinear_arith)
            requires
                a > 0,
        ;
        lemma_isqrt_exists(a * SCALE);
    }
}

/// A squared length is never negative.
pub proof fn lemma_squared_length_nonneg(v: Triple)
    ensures
        v_squared_length(v) >= 0,
{
    assert(v.0 * v.0 >= 0 && v.1 * v.1 >= 0 && v.2 * v.2 >= 0) by (nonlinear_arith);
}

/// The two roots come in order.
pub proof fn lemma_roots_ordered(center: Triple, radius: int, origin: Triple, direction: Triple)
    ensures
        sphere_roots(center, radius, origin, direction) matches Some((r1, r2)) ==> r1 <= r2,
{
    let oc = v_sub(origin, center);
    let a = v_squared_length(direction);
    let half_b = v_dot(oc, direction);
    let c = sat(v_squared_length(oc) - fx_mul(radius, radius));
    let disc = sat(fx_mul(half_b, half_b) - fx_mul(a, c));
    let sq = fx_sqrt(disc);
    let nb = sat(-half_b);
    lemma_fx_sqrt_nonneg(disc);
    lemma_squared_length_nonneg(direction);
    lemma_sat_monotone(nb - sq, nb + sq);
    lemma_fx_div_monotone(sat(nb - sq), sat(nb + sq), a);
}

/// A hit lies in its window.
pub proof fn lemma_hit_in_window(s: Sphere, ray: (Triple, Triple), t_min: int, t_max: int)
    ensures
        s.hit_spec(ray, t_min, t_max) matches Some((h, m)) ==> in_window(h.2, t_min, t_max) && m == s.material,
{
}

/// A ray aimed at the center of a sphere hits it, within any window that
/// starts below one unit and reaches to the largest value: the far root
/// lies at one unit or beyond. The aim is exact: the direction is
/// `center - origin`, representable without saturation, and not zero in
/// fixed point.
pub proof fn lemma_aimed_at_center_hits(s: Sphere, origin: Triple, t_min: int)
    requires
        abs(s.center@.0 - origin.0) <= LIMIT,
        abs(s.center@.1 - origin.1) <= LIMIT,
        abs(s.center@.2 - origin.2) <= LIMIT,
        v_squared_length(v_sub(s.center@, origin)) > 0,
        t_min < SCALE,
    ensures
        s.hit_spec((origin, v_sub(s.center@, origin)), t_min, LIMIT as int) is Some,
{
    let sc = SCALE as int;
    let c0 = s.center@;
    let d = v_sub(c0, origin);
    let oc = v_sub(origin, c0);
    assert(oc == (-d.0, -d.1, -d.2));
    assert((-d.0) * d.0 == -(d.0 * d.0) && (-d.1) * d.1 == -(d.1 * d.1) && (-d.2) * d.2 == -(d.2 * d.2))
        by (nonlinear_arith);
    assert((-d.0) * (-d.0) == d.0 * d.0 && (-d.1) * (-d.1) == d.1 * d.1 && (-d.2) * (-d.2) == d.2 * d.2)
        by (nonlinear_arith);
    assert(d.0 * d.0 >= 0 && d.1 * d.1 >= 0 && d.2 * d.2 >= 0) by (nonlinear_arith);
    let x = quot(d.0 * d.0, sc) + quot(d.1 * d.1, sc) + quot(d.2 * d.2, sc);
    assert(x >= 0);
    let a = v_squared_length(d);
    assert(a == sat(x));
    assert(v_squared_length(oc) == a);
    assert(quot(-(d.0 * d.0), sc) == -quot(d.0 * d.0, sc));
    assert(quot(-(d.1 * d.1), sc) == -quot(d.1 * d.1, sc));
    assert(quot(-(d.2 * d.2), sc) == -quot(d.2 * d.2, sc));
    let half_b = v_dot(oc, d);
    assert(half_b == sat(-x));
    assert(half_b <= 0 && -half_b >= a);
    let rr = fx_mul(s.radius@, s.radius@);
    assert(s.radius@ * s.radius@ >= 0) by (nonlinear_arith);
    assert(rr >= 0);
    let c = sat(a - rr);
    assert(c <= a);
    // the discriminant is not negative
    assert(a * c <= half_b * half_b) by (nonlinear_arith)
        requires
            c <= a,
            a > 0,
            -half_b >= a,
    ;
    lemma_quot_monotone(a * c, half_b * half_b, sc);
    lemma_sat_monotone(quot(a * c, sc), quot(half_b * half_b, sc));
    let disc = sat(fx_mul(half_b, half_b) - fx_mul(a, c));
    assert(disc >= 0);
    // the far root is at least one unit
    let sq = fx_sqrt(disc);
    lemma_fx_sqrt_nonneg(disc);
    let nb = sat(-half_b);
    assert(nb == a);
    lemma_sat_monotone(nb, nb + sq);
    assert(sat(nb + sq) >= a);
    assert(sat(nb + sq) * sc >= a * sc) by (nonlinear_arith)
        requires
            sat(nb + sq) >= a,
            sc > 0,
    ;
    lemma_quot_monotone(a * sc, sat(nb + sq) * sc, a);
    crate::fixed::lemma_quot_exact(a);
    vstd::arithmetic::div_mod::lemma_div_by_multiple(sc, a);
    assert(a * sc >= 0 && a * sc == sc * a) by (nonlinear_arith)
        requires
            a > 0,
            sc > 0,
    ;
    assert(quot(a * sc, a) == sc);
    let r2 = fx_div(sat(nb + sq), a);
    assert(r2 >= sc);
    lemma_roots_ordered(c0, s.radius@, origin, d);
}
/// Coordinate bound, in raw steps, under which the miss law is stated
/// (a hundred units).
pub const NEAR_BOUND: i64 = 100_000_000_000;

/// `quot(x, SCALE)` scaled back differs from `x` by `e` with `|e| < SCALE`,
/// and it is no larger in size than `x / SCALE`.
proof fn lemma_quot_err(x: int)
    ensures
        abs(SCALE * quot(x, SCALE as int) - x) < SCALE,
        x >= 0 ==> 0 <= x - SCALE * quot(x, SCALE as int),
        x >= 0 ==> quot(x, SCALE as int) >= 0,
        abs(SCALE * quot(x, SCALE as int)) <= abs(x),
{
    crate::fixed::lemma_quot_scale(x);
}

/// A ray that passes the center farther than the radius misses. With `oc`
/// from the center to the origin, `d` the direction and `r` the radius,
/// "farther" is `|oc x d|^2 - r^2 |d|^2 > 0` (the squared distance of the
/// line exceeds `r^2`), here by a margin that covers rounding:
/// `6 SCALE (|oc|^2 + |d|^2 + r^2) + 3 SCALE^3`, all in raw steps. The origin
/// lies within `NEAR_BOUND` of the center on each axis, and `d` and `r` are
/// within `NEAR_BOUND` too.
pub proof fn lemma_passing_ray_misses(s: Sphere, origin: Triple, d: Triple, t_min: int, t_max: int)
    requires
        ({
            let oc = v_sub(origin, s.center@);
            let r = s.radius@;
            let oo = oc.0 * oc.0 + oc.1 * oc.1 + oc.2 * oc.2;
            let dd = d.0 * d.0 + d.1 * d.1 + d.2 * d.2;
            let od = oc.0 * d.0 + oc.1 * d.1 + oc.2 * d.2;
            &&& abs(oc.0) <= NEAR_BOUND && abs(oc.1) <= NEAR_BOUND && abs(
                oc.2,
            ) <= NEAR_BOUND
            &&& abs(d.0) <= NEAR_BOUND && abs(d.1) <= NEAR_BOUND && abs(d.2)
                <= NEAR_BOUND
            &&& abs(r) <= NEAR_BOUND
            &&& oo * dd - od * od - r * r * dd > 6 * SCALE * (oo + dd + r * r) + 3 * (SCALE * SCALE * SCALE)
        }),
    ensures
        s.hit_spec((origin, d), t_min, t_max) is None,
{
    let sc = SCALE as int;
    let bb = NEAR_BOUND as int;
    let oc = v_sub(origin, s.center@);
    let r = s.radius@;
    let oo = oc.0 * oc.0 + oc.1 * oc.1 + oc.2 * oc.2;
    let dd = d.0 * d.0 + d.1 * d.1 + d.2 * d.2;
    let od = oc.0 * d.0 + oc.1 * d.1 + oc.2 * d.2;
    let rr = r * r;
    let g = oo * dd - od * od - rr * dd;
    // size bounds
    assert(0 <= oo <= 3 * (bb * bb) && 0 <= dd <= 3 * (bb * bb) && 0 <= rr <= bb * bb) by (nonlinear_arith)
        requires
            oo == oc.0 * oc.0 + oc.1 * oc.1 + oc.2 * oc.2,
            dd == d.0 * d.0 + d.1 * d.1 + d.2 * d.2,
            rr == r * r,
            -bb <= oc.0 <= bb,
            -bb <= oc.1 <= bb,
            -bb <= oc.2 <= bb,
            -bb <= d.0 <= bb,
            -bb <= d.1 <= bb,
            -bb <= d.2 <= bb,
            -bb <= r <= bb,
    ;
    assert(2 * abs(od) <= oo + dd) by (nonlinear_arith)
        requires
            oo == oc.0 * oc.0 + oc.1 * oc.1 + oc.2 * oc.2,
            dd == d.0 * d.0 + d.1 * d.1 + d.2 * d.2,
            od == oc.0 * d.0 + oc.1 * d.1 + oc.2 * d.2,
    ;
    // the rounded quantities of the quadratic
    lemma_quot_err(oc.0 * d.0);
    lemma_quot_err(oc.1 * d.1);
    lemma_quot_err(oc.2 * d.2);
    let hb = quot(oc.0 * d.0, sc) + quot(oc.1 * d.1, sc) + quot(oc.2 * d.2, sc);
    let eh = sc * hb - od;
    assert(abs(eh) < 3 * sc);
    assert(abs(sc * hb) <= abs(od) + abs(eh));
    assert(abs(hb) <= 40_000_000_000_000) by (nonlinear_arith)
        requires
            abs(sc * hb) <= abs(od) + abs(eh),
            2 * abs(od) <= oo + dd,
            oo <= 3 * (bb * bb),
            dd <= 3 * (bb * bb),
            abs(eh) < 3 * sc,
            bb == 100_000_000_000,
            sc == 1_000_000_000,
    ;
    assert(v_dot(oc, d) == hb);
    lemma_quot_err(d.0 * d.0);
    lemma_quot_err(d.1 * d.1);
    lemma_quot_err(d.2 * d.2);
    assert(d.0 * d.0 >= 0 && d.1 * d.1 >= 0 && d.2 * d.2 >= 0) by (nonlinear_arith);
    let a = quot(d.0 * d.0, sc) + quot(d.1 * d.1, sc) + quot(d.2 * d.2, sc);
    let ea = dd - sc * a;
    assert(0 <= ea < 3 * sc);
    assert(0 <= a <= 30_000_000_000_000) by (nonlinear_arith)
        requires
            sc * a <= dd <= 3 * (bb * bb),
            sc * a >= 0,
            sc == 1_000_000_000,
            bb == 100_000_000_000,
    ;
    assert(v_squared_length(d) == a);
    lemma_quot_err(oc.0 * oc.0);
    lemma_quot_err(oc.1 * oc.1);
    lemma_quot_err(oc.2 * oc.2);
    assert(oc.0 * oc.0 >= 0 && oc.1 * oc.1 >= 0 && oc.2 * oc.2 >= 0) by (nonlinear_arith);
    let l = quot(oc.0 * oc.0, sc) + quot(oc.1 * oc.1, sc) + quot(oc.2 * oc.2, sc);
    let el = oo - sc * l;
    assert(0 <= el < 3 * sc);
    assert(0 <= l <= 30_000_000_000_000) by (nonlinear_arith)
        requires
            sc * l <= oo <= 3 * (bb * bb),
            sc * l >= 0,
            sc == 1_000_000_000,
            bb == 100_000_000_000,
    ;
    assert(v_squared_length(oc) == l);
    lemma_quot_err(rr);
    let r2 = quot(rr, sc);
    let er = rr - sc * r2;
    assert(0 <= er < sc);
    assert(0 <= r2 <= 10_000_000_000_000) by (nonlinear_arith)
        requires
            sc * r2 <= rr <= bb * bb,
            sc * r2 >= 0,
            sc == 1_000_000_000,
            bb == 100_000_000_000,
    ;
    assert(fx_mul(r, r) == r2);
    let c = l - r2;
    assert(sat(l - r2) == c);
    // the discriminant, scaled back
    lemma_quot_err(hb * hb);
    assert(hb * hb >= 0) by (nonlinear_arith);
    let x1 = quot(hb * hb, sc);
    let e1 = hb * hb - sc * x1;
    assert(0 <= e1 < sc);
    assert(0 <= x1 <= hb * hb);
    lemma_quot_err(a * c);
    let x2 = quot(a * c, sc);
    let e2 = a * c - sc * x2;
    assert(abs(e2) < sc);
    assert(abs(x2) <= abs(a * c));
    assert(hb * hb <= 1_600_000_000_000_000_000_000_000_000) by (nonlinear_arith)
        requires
            abs(hb) <= 40_000_000_000_000,
    ;
    assert(abs(a * c) <= 900_000_000_000_000_000_000_000_000) by (nonlinear_arith)
        requires
            0 <= a <= 30_000_000_000_000,
            abs(c) <= 30_000_000_000_000,
    ;
    assert(x1 <= LIMIT / 2 && abs(x2) <= LIMIT / 2) by (nonlinear_arith)
        requires
            sc * x1 <= hb * hb,
            hb * hb <= 1_600_000_000_000_000_000_000_000_000,
            sc * abs(x2) <= abs(a * c),
            abs(a * c) <= 900_000_000_000_000_000_000_000_000,
            x1 >= 0,
            sc == 1_000_000_000,
    ;
    assert(fx_mul(hb, hb) == x1);
    assert(fx_mul(a, c) == x2);
    let disc = x1 - x2;
    // the exact identity behind it
    let ec = el - er;
    assert(sc * c == oo - rr - ec);
    assert(sc * disc == (hb * hb - e1) - (a * c - e2));
    assert((sc * hb) * (sc * hb) == od * od + 2 * od * eh + eh * eh) by (nonlinear_arith)
        requires
            sc * hb == od + eh,
    ;
    assert((sc * a) * (sc * c) == dd * (oo - rr) - dd * ec - ea * (oo - rr) + ea * ec) by (nonlinear_arith)
        requires
            sc * a == dd - ea,
            sc * c == oo - rr - ec,
    ;
    assert(sc * sc * (hb * hb) == (sc * hb) * (sc * hb) && sc * sc * (a * c) == (sc * a) * (sc * c))
        by (nonlinear_arith);
    assert(sc * sc * (sc * disc) == sc * sc * (hb * hb) - sc * sc * e1 - sc * sc * (a * c) + sc * sc * e2)
        by (nonlinear_arith)
        requires
            sc * disc == (hb * hb - e1) - (a * c - e2),
    ;
    assert(g == oo * dd - od * od - rr * dd);
    assert(dd * (oo - rr) == oo * dd - rr * dd) by (nonlinear_arith);
    assert(sc * sc * (sc * disc) == -g + 2 * od * eh + eh * eh + dd * ec + ea * (oo - rr) - ea * ec - sc * sc * e1
        + sc * sc * e2);
    crate::fixed::lemma_abs_mul_bound(2 * od, eh, oo + dd, 3 * sc);
    crate::fixed::lemma_abs_mul_bound(eh, eh, 3 * sc, 3 * sc);
    crate::fixed::lemma_abs_mul_bound(dd, ec, dd, 3 * sc);
    crate::fixed::lemma_abs_mul_bound(ea, oo - rr, 3 * sc, oo + rr);
    crate::fixed::lemma_abs_mul_bound(ea, ec, 3 * sc, 3 * sc);
    assert(sc * sc * (sc * disc) < 0) by (nonlinear_arith)
        requires
            sc * sc * (sc * disc) == -g + 2 * od * eh + eh * eh + dd * ec + ea * (oo - rr) - ea * ec - sc * sc * e1
                + sc * sc * e2,
            abs(2 * od * eh) <= (oo + dd) * (3 * sc),
            abs(eh * eh) <= (3 * sc) * (3 * sc),
            abs(dd * ec) <= dd * (3 * sc),
            abs(ea * (oo - rr)) <= (3 * sc) * (oo + rr),
            abs(ea * ec) <= (3 * sc) * (3 * sc),
            0 <= e1 < sc,
            abs(e2) < sc,
            g > 6 * sc * (oo + dd + rr) + 3 * (sc * sc * sc),
            oo >= 0,
            dd >= 0,
            rr >= 0,
            sc == 1_000_000_000,
    ;
    assert(disc < 0) by (nonlinear_arith)
        requires
            sc * sc * (sc * disc) < 0,
            sc > 0,
    ;
    assert(sat(x1 - x2) == disc);
}

/// Narrowing the window's upper end to `t2` keeps a hit at or below `t2`
/// and drops any other.
pub proof fn lemma_narrow(s: Sphere, ray: (Triple, Triple), t_min: int, t2: int, t_max: int)
    requires
        t2 <= t_max,
    ensures
        s.hit_spec(ray, t_min, t2) == (match s.hit_spec(ray, t_min, t_max) {
            Some(h) => if h.0.2 <= t2 {
                Some(h)
            } else {
                None
            },
            None => None,
        }),
{
    lemma_roots_ordered(s.center@, s.radius@, ray.0, ray.1);
}

} // verus!
