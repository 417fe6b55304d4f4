//! Materials and their scattering rules.
use vstd::prelude::*;
use crate::fixed::{
    Fixed, SCALE, sat, abs, quot, fx_mul, fx_div, is_isqrt, lemma_quot_scale, lemma_quot_exact, lemma_abs_mul_bound,
};
use crate::random::{in_unit_ball, random_double, random_in_unit_sphere};
use crate::ray::Ray;
use crate::vec3::{
    Vec3, Triple, v_add, v_sub, v_neg, v_scale, v_dot, v_unit, v_length, fx_sqrt, sqrt,
};

verus! {

/// `v` mirrored about the plane with normal `n`: `v - 2 (v . n) n`.
pub open spec fn reflect_spec(v: Triple, n: Triple) -> Triple {
    v_sub(v, v_scale(n, fx_mul(2 * SCALE, v_dot(v, n))))
}

/// Snell's law in vector form for the unit direction of `v`, surface normal
/// `n` and index ratio `ratio`; `None` on total internal reflection, that is
/// when the discriminant is negative.
pub open spec fn refract_spec(v: Triple, n: Triple, ratio: int) -> Option<Triple> {
    let uv = v_unit(v);
    let dt = v_dot(uv, n);
    let disc = sat(SCALE - fx_mul(fx_mul(ratio, ratio), sat(SCALE - fx_mul(dt, dt))));
    if disc >= 0 {
        Some(v_sub(v_scale(v_sub(uv, v_scale(n, dt)), ratio), v_scale(n, fx_sqrt(disc))))
    } else {
        None
    }
}

/// Schlick's approximation of the reflectance at the given cosine of the
/// angle of incidence and refraction index.
pub open spec fn schlick_spec(cosine: int, idx: int) -> int {
    let q = fx_div(sat(SCALE - idx), sat(SCALE + idx));
    let r0 = fx_mul(q, q);
    let x = sat(SCALE - cosine);
    let x5 = fx_mul(fx_mul(fx_mul(fx_mul(x, x), x), x), x);
    sat(r0 + fx_mul(sat(SCALE - r0), x5))
}

/// The random values one scattering event consumes: a point in the unit ball
/// and a uniform number in `[0, 1)`.
#[derive(Clone, Copy, Debug, PartialEq, Eq, Structural)]
pub struct Bounce {
    pub sample: Vec3,
    pub choice: Fixed,
}

pub open spec fn valid_bounce(b: Bounce) -> bool {
    in_unit_ball(b.sample@) && 0 <= b.choice@ < SCALE
}

/// Draws the random values of one scattering event.
pub fn draw_bounce() -> (b: Bounce)
    ensures
        valid_bounce(b),
{
    let sample = random_in_unit_sphere();
    let choice = random_double();
    Bounce { sample, choice }
}

#[derive(Clone, Copy, Debug, PartialEq, Eq, Structural)]
pub enum Material {
    /// Diffuse: scatters around the normal.
    Lambertian { attenuation: Vec3 },
    /// Reflective, blurred by `fuzziness`.
    Metal { attenuation: Vec3, fuzziness: Fixed },
    /// Refractive, with the given index relative to the ambient medium.
    Dielectric { refraction_idx: Fixed },
}

/// The outcome of scattering: the outgoing ray (origin, direction), the
/// attenuation color and whether the ray survives.
pub type ScatterView = ((Triple, Triple), Triple, bool);

/// What `m` does to the incoming ray `r_in` at point `p` with normal `n`,
/// given the ball sample and the uniform choice of one scattering event.
pub open spec fn scatter_spec(
    m: Material,
    r_in: (Triple, Triple),
    n: Triple,
    p: Triple,
    sample: Triple,
    choice: int,
) -> ScatterView {
    match m {
        Material::Lambertian { attenuation } => ((p, v_add(n, sample)), attenuation@, true),
        Material::Metal { attenuation, fuzziness } => {
            let d = v_add(reflect_spec(v_unit(r_in.1), n), v_scale(sample, fuzziness@));
            ((p, d), attenuation@, v_dot(d, n) > 0)
        },
        Material::Dielectric { refraction_idx } => {
            let d = r_in.1;
            let idx = refraction_idx@;
            let reflected = reflect_spec(d, n);
            let dn = v_dot(d, n);
            let len = v_length(d);
            let exiting = dn > 0;
            let outward = if exiting {
                v_neg(n)
            } else {
                n
            };
            let ratio = if exiting {
                idx
            } else {
                fx_div(SCALE as int, idx)
            };
            let cosine = if exiting {
                fx_div(fx_mul(idx, dn), len)
            } else {
                fx_div(sat(-dn), len)
            };
            let dir = match refract_spec(d, outward, ratio) {
                Some(refracted) => if choice < schlick_spec(cosine, idx) {
                    reflected
                } else {
                    refracted
                },
                None => reflected,
            };
            ((p, dir), (SCALE as int, SCALE as int, SCALE as int), true)
        },
    }
}

/// Reflects `v` about the plane with normal `n`.
pub fn reflect(v: Vec3, n: Vec3) -> (r: Vec3)
    ensures
        r@ == reflect_spec(v@, n@),
{
    let k = Fixed::from_raw(2 * SCALE).mul(v.dot(n));
    v.sub(n.scale(k))
}

/// Refracts the unit direction of `v` through the surface with normal `n`;
/// `None` on total internal reflection.
pub fn refract(v: Vec3, n: Vec3, etai_over_etat: Fixed) -> (r: Option<Vec3>)
    ensures
        r.is_some() == refract_spec(v@, n@, etai_over_etat@).is_some(),
        r.is_some() ==> r.unwrap()@ == refract_spec(v@, n@, etai_over_etat@).unwrap(),
{
    let one = Fixed::one();
    let uv = v.unit();
    let dt = uv.dot(n);
    let disc = one.sub(etai_over_etat.mul(etai_over_etat).mul(one.sub(dt.mul(dt))));
    if disc.raw >= 0 {
        Some(uv.sub(n.scale(dt)).scale(etai_over_etat).sub(n.scale(sqrt(disc))))
    } else {
        None
    }
}

/// Schlick's reflectance approximation.
pub fn schlick(cosine: Fixed, refraction: Fixed) -> (r: Fixed)
    ensures
        r@ == schlick_spec(cosine@, refraction@),
{
    let one = Fixed::one();
    let q = one.sub(refraction).div(one.add(refraction));
    let r0 = q.mul(q);
    let x = one.sub(cosine);
    let x5 = x.mul(x).mul(x).mul(x).mul(x);
    r0.add(one.sub(r0).mul(x5))
}

/// Largest coordinate magnitude, in raw steps, for which rounding bounds
/// are stated (a million units).
pub const COORD_BOUND: i64 = 1_000_000_000_000_000;

/// `quot(a * c, SCALE)` for `|c| <= 1` unit stays within `|a|`'s bound and
/// is off from the exact quotient by less than a step.
proof fn lemma_scaled_product(a: int, c: int, b: int)
    requires
        abs(a) <= b,
        abs(c) <= SCALE,
    ensures
        abs(quot(a * c, SCALE as int)) <= b,
        abs(SCALE * quot(a * c, SCALE as int) - a * c) < SCALE,
{
    let s = SCALE as int;
    let x = a * c;
    let q = quot(x, s);
    lemma_quot_scale(x);
    lemma_abs_mul_bound(a, c, b, s);
    if x >= 0 {
        assert(q >= 0);
    } else {
        assert(q <= 0);
    }
    assert(s * abs(q) <= abs(x));
    assert(abs(q) <= b) by (nonlinear_arith)
        requires
            s * abs(q) <= b * s,
            s > 0,
    ;
}

/// Reflection about a unit normal negates the normal component, up to
/// rounding: `dot(reflect(v, n), n)` lies within `9 + 6 |dot(v, n)| / SCALE`
/// steps of `-dot(v, n)`. Here `n` is a unit vector in fixed point (its
/// squared length is exactly one, no component above one) and `v`'s
/// components stay within `COORD_BOUND`.
pub proof fn lemma_reflect_negates_normal_component(v: Triple, n: Triple)
    requires
        v_dot(n, n) == SCALE,
        abs(n.0) <= SCALE,
        abs(n.1) <= SCALE,
        abs(n.2) <= SCALE,
        abs(v.0) <= COORD_BOUND,
        abs(v.1) <= COORD_BOUND,
        abs(v.2) <= COORD_BOUND,
    ensures
        SCALE * abs(v_dot(reflect_spec(v, n), n) + v_dot(v, n)) <= 9 * SCALE + 6 * abs(v_dot(v, n)),
{
    let s = SCALE as int;
    let b = COORD_BOUND as int;
    // the dot product of v and n, and its rounding
    lemma_scaled_product(v.0, n.0, b);
    lemma_scaled_product(v.1, n.1, b);
    lemma_scaled_product(v.2, n.2, b);
    let d = quot(v.0 * n.0, s) + quot(v.1 * n.1, s) + quot(v.2 * n.2, s);
    assert(v_dot(v, n) == d);
    let big_d = v.0 * n.0 + v.1 * n.1 + v.2 * n.2;
    let e1 = s * d - big_d;
    assert(abs(e1) < 3 * s);
    // the factor 2 (v . n)
    let k = 2 * d;
    if d >= 0 {
        assert(2 * s * d >= 0 && 2 * s * d == (2 * d) * s) by (nonlinear_arith)
            requires
                d >= 0,
                s > 0,
        ;
    } else {
        assert(2 * s * d < 0 && -(2 * s * d) == (2 * -d) * s) by (nonlinear_arith)
            requires
                d < 0,
                s > 0,
        ;
    }
    assert(abs(2 * s * d) == (2 * abs(d)) * s);
    vstd::arithmetic::div_mod::lemma_div_by_multiple(2 * abs(d), s);
    assert(quot(2 * s * d, s) == k);
    assert(fx_mul(2 * s, d) == k);
    // the reflected vector
    lemma_scaled_product(k, n.0, 6 * b);
    lemma_scaled_product(k, n.1, 6 * b);
    lemma_scaled_product(k, n.2, 6 * b);
    assert(n.0 * k == k * n.0 && n.1 * k == k * n.1 && n.2 * k == k * n.2) by (nonlinear_arith);
    let m0 = quot(k * n.0, s);
    let m1 = quot(k * n.1, s);
    let m2 = quot(k * n.2, s);
    let r = (v.0 - m0, v.1 - m1, v.2 - m2);
    assert(v_scale(n, k) == (m0, m1, m2));
    assert(reflect_spec(v, n) == r);
    let f0 = s * m0 - k * n.0;
    let f1 = s * m1 - k * n.1;
    let f2 = s * m2 - k * n.2;
    // the dot product of the reflection with n
    lemma_scaled_product(r.0, n.0, 7 * b);
    lemma_scaled_product(r.1, n.1, 7 * b);
    lemma_scaled_product(r.2, n.2, 7 * b);
    let dot = quot(r.0 * n.0, s) + quot(r.1 * n.1, s) + quot(r.2 * n.2, s);
    assert(v_dot(r, n) == dot);
    let g = s * dot - (r.0 * n.0 + r.1 * n.1 + r.2 * n.2);
    assert(abs(g) < 3 * s);
    // how far the squared length of n is from one
    lemma_quot_scale(n.0 * n.0);
    lemma_quot_scale(n.1 * n.1);
    lemma_quot_scale(n.2 * n.2);
    assert(n.0 * n.0 >= 0 && n.1 * n.1 >= 0 && n.2 * n.2 >= 0) by (nonlinear_arith);
    let nn = n.0 * n.0 + n.1 * n.1 + n.2 * n.2;
    assert(quot(n.0 * n.0, s) + quot(n.1 * n.1, s) + quot(n.2 * n.2, s) == s);
    assert(s * (quot(n.0 * n.0, s) + quot(n.1 * n.1, s) + quot(n.2 * n.2, s)) == s * quot(n.0 * n.0, s) + s * quot(
        n.1 * n.1,
        s,
    ) + s * quot(n.2 * n.2, s)) by (nonlinear_arith);
    let delta = nn - s * s;
    assert(0 <= delta < 3 * s);
    // the error terms
    lemma_abs_mul_bound(f0, n.0, s, s);
    lemma_abs_mul_bound(f1, n.1, s, s);
    lemma_abs_mul_bound(f2, n.2, s, s);
    let big_f = f0 * n.0 + f1 * n.1 + f2 * n.2;
    assert(abs(big_f) <= 3 * (s * s));
    let mn = m0 * n.0 + m1 * n.1 + m2 * n.2;
    let rn = r.0 * n.0 + r.1 * n.1 + r.2 * n.2;
    assert(rn == big_d - mn) by (nonlinear_arith)
        requires
            rn == r.0 * n.0 + r.1 * n.1 + r.2 * n.2,
            mn == m0 * n.0 + m1 * n.1 + m2 * n.2,
            big_d == v.0 * n.0 + v.1 * n.1 + v.2 * n.2,
            r == (v.0 - m0, v.1 - m1, v.2 - m2),
    ;
    assert(s * (m0 * n.0) == k * (n.0 * n.0) + f0 * n.0) by (nonlinear_arith)
        requires
            f0 == s * m0 - k * n.0,
    ;
    assert(s * (m1 * n.1) == k * (n.1 * n.1) + f1 * n.1) by (nonlinear_arith)
        requires
            f1 == s * m1 - k * n.1,
    ;
    assert(s * (m2 * n.2) == k * (n.2 * n.2) + f2 * n.2) by (nonlinear_arith)
        requires
            f2 == s * m2 - k * n.2,
    ;
    assert(s * mn == s * (m0 * n.0) + s * (m1 * n.1) + s * (m2 * n.2)) by (nonlinear_arith)
        requires
            mn == m0 * n.0 + m1 * n.1 + m2 * n.2,
    ;
    assert(k * nn == k * (n.0 * n.0) + k * (n.1 * n.1) + k * (n.2 * n.2)) by (nonlinear_arith)
        requires
            nn == n.0 * n.0 + n.1 * n.1 + n.2 * n.2,
    ;
    assert(s * mn == k * nn + big_f);
    assert(s * (s * dot) == s * rn + s * g) by (nonlinear_arith)
        requires
            s * dot == rn + g,
    ;
    assert(s * rn == s * big_d - s * mn) by (nonlinear_arith)
        requires
            rn == big_d - mn,
    ;
    assert(s * big_d == s * (s * d) - s * e1) by (nonlinear_arith)
        requires
            e1 == s * d - big_d,
    ;
    assert(k * nn == 2 * d * (s * s) + 2 * d * delta) by (nonlinear_arith)
        requires
            k == 2 * d,
            nn == s * s + delta,
    ;
    assert(s * (s * dot) == s * s * dot && s * (s * d) == s * s * d) by (nonlinear_arith);
    assert(s * s * (dot + d) == s * s * dot + s * s * d) by (nonlinear_arith);
    assert(2 * d * (s * s) == 2 * (s * s * d)) by (nonlinear_arith);
    assert(s * s * (dot + d) == -(s * e1) - 2 * d * delta - big_f + s * g);
    lemma_abs_mul_bound(s, e1, s, 3 * s);
    lemma_abs_mul_bound(s, g, s, 3 * s);
    lemma_abs_mul_bound(2 * d, delta, 2 * abs(d), 3 * s);
    assert(s * s * abs(dot + d) <= 9 * (s * s) + 6 * abs(d) * s) by (nonlinear_arith)
        requires
            s * s * (dot + d) == -(s * e1) - 2 * d * delta - big_f + s * g,
            abs(s * e1) <= s * (3 * s),
            abs(s * g) <= s * (3 * s),
            abs(2 * d * delta) <= 2 * abs(d) * (3 * s),
            abs(big_f) <= 3 * (s * s),
            s > 0,
    ;
    assert(s * abs(dot + d) <= 9 * s + 6 * abs(d)) by (nonlinear_arith)
        requires
            s * (s * abs(dot + d)) <= s * (9 * s + 6 * abs(d)),
            s > 0,
    ;
}

/// With matched indices (ratio one) refraction does not bend light: it never
/// fails, and each component of the refracted direction lies within
/// `3 + SCALE / |dt|` steps of the incoming unit direction `uv` (and never
/// more than 31626 steps), where `dt = uv . n` is the cosine of incidence.
/// Here `n` has no component above one unit, `uv` neither, and the ray meets
/// the surface against its normal or along it (`dt <= 0`).
pub proof fn lemma_unit_ratio_keeps_direction(v: Triple, n: Triple)
    requires
        abs(n.0) <= SCALE,
        abs(n.1) <= SCALE,
        abs(n.2) <= SCALE,
        abs(v_unit(v).0) <= SCALE,
        abs(v_unit(v).1) <= SCALE,
        abs(v_unit(v).2) <= SCALE,
        v_dot(v_unit(v), n) <= 0,
    ensures
        refract_spec(v, n, SCALE as int) matches Some(r) && ({
            let uv = v_unit(v);
            let dt = abs(v_dot(uv, n));
            &&& dt * abs(r.0 - uv.0) <= 3 * dt + SCALE
            &&& dt * abs(r.1 - uv.1) <= 3 * dt + SCALE
            &&& dt * abs(r.2 - uv.2) <= 3 * dt + SCALE
            &&& abs(r.0 - uv.0) <= 31_626 && abs(r.1 - uv.1) <= 31_626 && abs(r.2 - uv.2) <= 31_626
        }),
{
    let s = SCALE as int;
    let uv = v_unit(v);
    lemma_scaled_product(uv.0, n.0, s);
    lemma_scaled_product(uv.1, n.1, s);
    lemma_scaled_product(uv.2, n.2, s);
    let dt = v_dot(uv, n);
    assert(dt == quot(uv.0 * n.0, s) + quot(uv.1 * n.1, s) + quot(uv.2 * n.2, s));
    let adt = -dt;
    assert(0 <= adt <= 3 * s);
    // the discriminant is the rounded square of dt
    lemma_quot_exact(s);
    assert(s * s == s * s);
    assert(fx_mul(s, s) == s);
    let sq_dt = dt * dt;
    assert(0 <= sq_dt <= 9 * (s * s)) by (nonlinear_arith)
        requires
            sq_dt == dt * dt,
            -3 * s <= dt <= 0,
    ;
    lemma_quot_scale(sq_dt);
    let m = quot(sq_dt, s);
    assert(s * m <= sq_dt && sq_dt - s < s * m);
    assert(0 <= m <= 9 * s) by (nonlinear_arith)
        requires
            s * m <= sq_dt <= 9 * (s * s),
            sq_dt - s < s * m,
            sq_dt >= 0,
            s > 0,
    ;
    assert(fx_mul(dt, dt) == m);
    lemma_quot_exact(s - m);
    assert(s * (s - m) == (s - m) * s) by (nonlinear_arith);
    assert(fx_mul(s, s - m) == s - m);
    let disc = sat(s - fx_mul(fx_mul(s, s), sat(s - fx_mul(dt, dt))));
    assert(disc == m);
    // its square root is a little below |dt|
    let rt = fx_sqrt(m);
    if m > 0 {
        assert(m * s >= 0) by (nonlinear_arith)
            requires
                m > 0,
                s > 0,
        ;
        crate::sphere::lemma_isqrt_exists(m * s);
        assert(is_isqrt(m * s, rt));
    } else {
        assert(m == 0);
        assert(m * s == 0);
        assert(rt == 0);
        assert(is_isqrt(0, 0));
    }
    assert(is_isqrt(m * s, rt));
    assert(m * s == s * m) by (nonlinear_arith);
    assert(sq_dt == adt * adt) by (nonlinear_arith)
        requires
            sq_dt == dt * dt,
            adt == -dt,
    ;
    assert(rt <= adt) by (nonlinear_arith)
        requires
            rt * rt <= sq_dt,
            sq_dt == adt * adt,
            rt >= 0,
            adt >= 0,
    ;
    assert((adt - rt - 1) * adt < s) by (nonlinear_arith)
        requires
            sq_dt - s < (rt + 1) * (rt + 1),
            sq_dt == adt * adt,
            0 <= rt <= adt,
            s > 0,
    ;
    // the refracted direction
    let r = refract_spec(v, n, s).unwrap();
    lemma_scaled_product(dt, n.0, 3 * s);
    lemma_scaled_product(dt, n.1, 3 * s);
    lemma_scaled_product(dt, n.2, 3 * s);
    lemma_scaled_product(rt, n.0, 3 * s);
    lemma_scaled_product(rt, n.1, 3 * s);
    lemma_scaled_product(rt, n.2, 3 * s);
    assert(n.0 * dt == dt * n.0 && n.1 * dt == dt * n.1 && n.2 * dt == dt * n.2) by (nonlinear_arith);
    assert(n.0 * rt == rt * n.0 && n.1 * rt == rt * n.1 && n.2 * rt == rt * n.2) by (nonlinear_arith);
    lemma_component_error(uv.0, n.0, dt, rt, r.0);
    lemma_component_error(uv.1, n.1, dt, rt, r.1);
    lemma_component_error(uv.2, n.2, dt, rt, r.2);
    assert(adt - rt <= 31_624) by (nonlinear_arith)
        requires
            (adt - rt - 1) * adt < s,
            0 <= rt <= adt,
            s == 1_000_000_000,
    ;
}

/// Glass of index one (matching the ambient medium) either reflects, as
/// Schlick's choice may pick, or passes the ray on unbent: the scattered
/// direction is the reflection of the incoming direction `d`, or lies within
/// 31626 steps of its unit direction on each axis; refraction never fails.
/// Here `n` and the unit direction have no component above one unit, and
/// the rounded products `d . n` and `unit(d) . n` agree in sign (the second
/// may be zero).
pub proof fn lemma_matched_glass_does_not_bend(
    r_in: (Triple, Triple),
    n: Triple,
    p: Triple,
    sample: Triple,
    choice: int,
)
    requires
        abs(n.0) <= SCALE,
        abs(n.1) <= SCALE,
        abs(n.2) <= SCALE,
        abs(v_unit(r_in.1).0) <= SCALE,
        abs(v_unit(r_in.1).1) <= SCALE,
        abs(v_unit(r_in.1).2) <= SCALE,
        v_dot(r_in.1, n) > 0 ==> v_dot(v_unit(r_in.1), n) >= 0,
        v_dot(r_in.1, n) <= 0 ==> v_dot(v_unit(r_in.1), n) <= 0,
    ensures
        ({
            let out = scatter_spec(
                Material::Dielectric { refraction_idx: Fixed { raw: SCALE } },
                r_in,
                n,
                p,
                sample,
                choice,
            );
            let uv = v_unit(r_in.1);
            &&& out.0.0 == p
            &&& out.2
            &&& out.0.1 == reflect_spec(r_in.1, n) || (abs(out.0.1.0 - uv.0) <= 31_626 && abs(out.0.1.1 - uv.1)
                <= 31_626 && abs(out.0.1.2 - uv.2) <= 31_626)
        }),
{
    let s = SCALE as int;
    let d = r_in.1;
    let uv = v_unit(d);
    lemma_quot_exact(s);
    assert(fx_div(s, s) == s);
    if v_dot(d, n) > 0 {
        let m = v_neg(n);
        assert(m == (-n.0, -n.1, -n.2));
        assert(uv.0 * -n.0 == -(uv.0 * n.0) && uv.1 * -n.1 == -(uv.1 * n.1) && uv.2 * -n.2 == -(uv.2 * n.2))
            by (nonlinear_arith);
        lemma_scaled_product(uv.0, n.0, s);
        lemma_scaled_product(uv.1, n.1, s);
        lemma_scaled_product(uv.2, n.2, s);
        assert(v_dot(uv, m) == -v_dot(uv, n));
        lemma_unit_ratio_keeps_direction(d, m);
    } else {
        lemma_unit_ratio_keeps_direction(d, n);
    }
}

/// One component of the refraction with ratio one.
proof fn lemma_component_error(u: int, c: int, dt: int, rt: int, r: int)
    requires
        abs(u) <= SCALE,
        abs(c) <= SCALE,
        -3 * SCALE <= dt <= 0,
        0 <= rt <= -dt,
        (-dt - rt - 1) * -dt < SCALE,
        r == sat(fx_mul(sat(u - fx_mul(c, dt)), SCALE as int) - fx_mul(c, rt)),
    ensures
        -dt * abs(r - u) <= 3 * -dt + SCALE,
        abs(r - u) <= -dt - rt + 2,
{
    let s = SCALE as int;
    let adt = -dt;
    lemma_scaled_product(dt, c, 3 * s);
    lemma_scaled_product(rt, c, 3 * s);
    assert(c * dt == dt * c && c * rt == rt * c) by (nonlinear_arith);
    let a = quot(dt * c, s);
    let b = quot(rt * c, s);
    assert(fx_mul(c, dt) == a);
    assert(fx_mul(c, rt) == b);
    lemma_quot_exact(u - a);
    assert(r == u - a - b);
    let ea = s * a - dt * c;
    let eb = s * b - rt * c;
    assert(s * (a + b) == c * (dt + rt) + ea + eb) by (nonlinear_arith)
        requires
            ea == s * a - dt * c,
            eb == s * b - rt * c,
    ;
    lemma_abs_mul_bound(c, dt + rt, s, adt - rt);
    assert(s * abs(a + b) <= s * (adt - rt) + 2 * s);
    assert(abs(a + b) <= adt - rt + 2) by (nonlinear_arith)
        requires
            s * abs(a + b) <= s * (adt - rt) + 2 * s,
            s > 0,
    ;
    assert(abs(r - u) == abs(a + b));
    assert(adt * abs(r - u) <= 3 * adt + s) by (nonlinear_arith)
        requires
            abs(r - u) <= adt - rt + 2,
            (adt - rt - 1) * adt < s,
            adt >= 0,
    ;
}

/// A metal without fuzz is a perfect mirror: the scattered direction is the
/// reflection of the incoming unit direction about the normal, whatever the
/// random values of the event.
pub proof fn lemma_sharp_metal_mirrors(
    attenuation: Vec3,
    r_in: (Triple, Triple),
    n: Triple,
    p: Triple,
    sample: Triple,
    choice: int,
)
    ensures
        scatter_spec(
            Material::Metal { attenuation, fuzziness: Fixed { raw: 0 } },
            r_in,
            n,
            p,
            sample,
            choice,
        ).0 == (p, reflect_spec(v_unit(r_in.1), n)),
        scatter_spec(
            Material::Metal { attenuation, fuzziness: Fixed { raw: 0 } },
            r_in,
            n,
            p,
            sample,
            choice,
        ).1 == attenuation@,
        scatter_spec(
            Material::Metal { attenuation, fuzziness: Fixed { raw: 0 } },
            r_in,
            n,
            p,
            sample,
            choice,
        ).2 == (v_dot(reflect_spec(v_unit(r_in.1), n), n) > 0),
{
    assert(crate::fixed::quot(0, SCALE as int) == 0);
    assert(sample.0 * 0 == 0 && sample.1 * 0 == 0 && sample.2 * 0 == 0);
}

/// A metal without fuzz keeps a ray that comes against the normal and
/// absorbs one that comes along it: with `dt = uv . n` for the incoming unit
/// direction `uv` and a unit normal `n` (as for the reflection law), the
/// scattered ray is valid when `dt <= -10` steps and invalid when
/// `dt >= 10` steps; in between rounding decides.
pub proof fn lemma_sharp_metal_validity(
    attenuation: Vec3,
    r_in: (Triple, Triple),
    n: Triple,
    p: Triple,
    sample: Triple,
    choice: int,
)
    requires
        v_dot(n, n) == SCALE,
        abs(n.0) <= SCALE,
        abs(n.1) <= SCALE,
        abs(n.2) <= SCALE,
        abs(v_unit(r_in.1).0) <= COORD_BOUND,
        abs(v_unit(r_in.1).1) <= COORD_BOUND,
        abs(v_unit(r_in.1).2) <= COORD_BOUND,
    ensures
        ({
            let valid = scatter_spec(
                Material::Metal { attenuation, fuzziness: Fixed { raw: 0 } },
                r_in,
                n,
                p,
                sample,
                choice,
            ).2;
            let dt = v_dot(v_unit(r_in.1), n);
            &&& dt <= -10 ==> valid
            &&& dt >= 10 ==> !valid
        }),
{
    let uv = v_unit(r_in.1);
    lemma_sharp_metal_mirrors(attenuation, r_in, n, p, sample, choice);
    lemma_reflect_negates_normal_component(uv, n);
    let dt = v_dot(uv, n);
    let rn = v_dot(reflect_spec(uv, n), n);
    assert(dt <= -10 ==> rn > 0) by (nonlinear_arith)
        requires
            SCALE * abs(rn + dt) <= 9 * SCALE + 6 * abs(dt),
            SCALE == 1_000_000_000,
    ;
    assert(dt >= 10 ==> rn < 0) by (nonlinear_arith)
        requires
            SCALE * abs(rn + dt) <= 9 * SCALE + 6 * abs(dt),
            SCALE == 1_000_000_000,
    ;
}

impl Material {
    /// Scatters `r_in` at point `p` with normal `n`, using the given random
    /// values of this event.
    pub fn scatter_with(&self, r_in: &Ray, n: Vec3, p: Vec3, b: Bounce) -> (r: (Ray, Vec3, bool))
        ensures
            (r.0@, r.1@, r.2) == scatter_spec(*self, r_in@, n@, p@, b.sample@, b.choice@),
    {
        match self {
            Material::Lambertian { attenuation } => (Ray::new(p, n.add(b.sample)), *attenuation, true),
            Material::Metal { attenuation, fuzziness } => {
                let reflected = reflect(r_in.direction.unit(), n);
                let scattered = Ray::new(p, reflected.add(b.sample.scale(*fuzziness)));
                let valid = scattered.direction.dot(n).raw > 0;
                (scattered, *attenuation, valid)
            },
            Material::Dielectric { refraction_idx } => {
                let d = r_in.direction;
                let idx = *refraction_idx;
                let reflected = reflect(d, n);
                let dn = d.dot(n);
                let len = d.length();
                let (outward, ratio, cosine) = if dn.raw > 0 {
                    (n.neg(), idx, idx.mul(dn).div(len))
                } else {
                    (n, Fixed::one().div(idx), dn.neg().div(len))
                };
                let dir = match refract(d, outward, ratio) {
                    Some(refracted) => {
                        if b.choice.lt(schlick(cosine, idx)) {
                            reflected
                        } else {
                            refracted
                        }
                    },
                    None => reflected,
                };
                let white = Vec3::new(Fixed::one(), Fixed::one(), Fixed::one());
                (Ray::new(p, dir), white, true)
            },
        }
    }

    /// Scatters `r_in` at point `p` with normal `n`, drawing the random values
    /// of this event.
    pub fn scatter(&self, r_in: &Ray, n: Vec3, p: Vec3) -> (r: (Ray, Vec3, bool))
        ensures
            exists|b: Bounce|
                valid_bounce(b) && (r.0@, r.1@, r.2) == #[trigger] scatter_spec(
                    *self,
                    r_in@,
                    n@,
                    p@,
                    b.sample@,
                    b.choice@,
                ),
            self is Lambertian ==> r.2,
    {
        let b = draw_bounce();
        let r = self.scatter_with(r_in, n, p, b);
        assert(valid_bounce(b) && (r.0@, r.1@, r.2) == scatter_spec(*self, r_in@, n@, p@, b.sample@, b.choice@));
        r
    }
}

} // verus!
