//! Three-component fixed-point vectors, used as points, directions and colors.
use vstd::prelude::*;
use crate::fixed::{Fixed, SCALE, sat, quot, fx_mul, fx_div, is_isqrt};

verus! {

/// The mathematical model of a vector: its three raw components.
pub type Triple = (int, int, int);

pub open spec fn v_add(a: Triple, b: Triple) -> Triple {
    (sat(a.0 + b.0), sat(a.1 + b.1), sat(a.2 + b.2))
}

pub open spec fn v_sub(a: Triple, b: Triple) -> Triple {
    (sat(a.0 - b.0), sat(a.1 - b.1), sat(a.2 - b.2))
}

pub open spec fn v_neg(a: Triple) -> Triple {
    (sat(-a.0), sat(-a.1), sat(-a.2))
}

/// Component-wise product (color tinting).
pub open spec fn v_mul(a: Triple, b: Triple) -> Triple {
    (fx_mul(a.0, b.0), fx_mul(a.1, b.1), fx_mul(a.2, b.2))
}

pub open spec fn v_div(a: Triple, b: Triple) -> Triple {
    (fx_div(a.0, b.0), fx_div(a.1, b.1), fx_div(a.2, b.2))
}

pub open spec fn v_scale(a: Triple, k: int) -> Triple {
    (fx_mul(a.0, k), fx_mul(a.1, k), fx_mul(a.2, k))
}

pub open spec fn v_div_scalar(a: Triple, k: int) -> Triple {
    (fx_div(a.0, k), fx_div(a.1, k), fx_div(a.2, k))
}

/// Each product is rounded on its own; the sum is then saturated.
pub open spec fn v_dot(a: Triple, b: Triple) -> int {
    sat(
        quot(a.0 * b.0, SCALE as int) + quot(a.1 * b.1, SCALE as int) + quot(a.2 * b.2, SCALE as int),
    )
}

pub open spec fn v_cross(a: Triple, b: Triple) -> Triple {
    (
        sat(fx_mul(a.1, b.2) - fx_mul(a.2, b.1)),
        sat(fx_mul(a.2, b.0) - fx_mul(a.0, b.2)),
        sat(fx_mul(a.0, b.1) - fx_mul(a.1, b.0)),
    )
}

pub open spec fn v_squared_length(a: Triple) -> int {
    v_dot(a, a)
}

/// Raw fixed-point square root of raw `a`: zero for `a <= 0`.
pub open spec fn fx_sqrt(a: int) -> int {
    if a <= 0 {
        0
    } else {
        choose|r: int| #[trigger] is_isqrt(a * SCALE, r)
    }
}

pub open spec fn v_length(a: Triple) -> int {
    fx_sqrt(v_squared_length(a))
}

pub open spec fn v_unit(a: Triple) -> Triple {
    v_div_scalar(a, v_length(a))
}

pub proof fn lemma_isqrt_unique(n: int, r1: int, r2: int)
    requires
        is_isqrt(n, r1),
        is_isqrt(n, r2),
    ensures
        r1 == r2,
{
    if r1 < r2 {
        assert((r1 + 1) * (r1 + 1) <= r2 * r2) by (nonlinear_arith)
            requires
                0 <= r1 + 1 <= r2,
        ;
    } else if r2 < r1 {
        assert((r2 + 1) * (r2 + 1) <= r1 * r1) by (nonlinear_arith)
            requires
                0 <= r2 + 1 <= r1,
        ;
    }
}

/// Square root of a fixed-point value, stated over `fx_sqrt`.
pub fn sqrt(a: Fixed) -> (r: Fixed)
    ensures
        r@ == fx_sqrt(a@),
        r@ >= 0,
{
    let r = a.sqrt();
    proof {
        if a@ > 0 {
            let c = choose|x: int| #[trigger] is_isqrt(a@ * SCALE, x);
            lemma_isqrt_unique(a@ * SCALE, c, r@);
        }
    }
    r
}

/// A vector of three fixed-point components.
#[derive(Clone, Copy, Debug, PartialEq, Eq, Structural)]
pub struct Vec3 {
    pub x: Fixed,
    pub y: Fixed,
    pub z: Fixed,
}

impl View for Vec3 {
    type V = Triple;

    open spec fn view(&self) -> Triple {
        (self.x@, self.y@, self.z@)
    }
}

impl Vec3 {
    pub fn new(x: Fixed, y: Fixed, z: Fixed) -> (r: Vec3)
        ensures
            r@ == (x@, y@, z@),
    {
        Vec3 { x, y, z }
    }

    /// The vector of whole units `(x, y, z)`.
    pub fn from_ints(x: i64, y: i64, z: i64) -> (r: Vec3)
        ensures
            r@ == (crate::fixed::units(x as int), crate::fixed::units(y as int), crate::fixed::units(z as int)),
    {
        Vec3 { x: Fixed::from_int(x), y: Fixed::from_int(y), z: Fixed::from_int(z) }
    }

    pub fn zero() -> (r: Vec3)
        ensures
            r@ == (0int, 0int, 0int),
    {
        Vec3 { x: Fixed::zero(), y: Fixed::zero(), z: Fixed::zero() }
    }

    pub fn x(self) -> (r: Fixed)
        ensures
            r == self.x,
    {
        self.x
    }

    pub fn y(self) -> (r: Fixed)
        ensures
            r == self.y,
    {
        self.y
    }

    pub fn z(self) -> (r: Fixed)
        ensures
            r == self.z,
    {
        self.z
    }

    pub fn add(self, o: Vec3) -> (r: Vec3)
        ensures
            r@ == v_add(self@, o@),
    {
        Vec3 { x: self.x.add(o.x), y: self.y.add(o.y), z: self.z.add(o.z) }
    }

    pub fn sub(self, o: Vec3) -> (r: Vec3)
        ensures
            r@ == v_sub(self@, o@),
    {
        Vec3 { x: self.x.sub(o.x), y: self.y.sub(o.y), z: self.z.sub(o.z) }
    }

    pub fn neg(self) -> (r: Vec3)
        ensures
            r@ == v_neg(self@),
    {
        Vec3 { x: self.x.neg(), y: self.y.neg(), z: self.z.neg() }
    }

    /// Component-wise product.
    pub fn mul(self, o: Vec3) -> (r: Vec3)
        ensures
            r@ == v_mul(self@, o@),
    {
        Vec3 { x: self.x.mul(o.x), y: self.y.mul(o.y), z: self.z.mul(o.z) }
    }

    /// Component-wise quotient.
    pub fn div(self, o: Vec3) -> (r: Vec3)
        ensures
            r@ == v_div(self@, o@),
    {
        Vec3 { x: self.x.div(o.x), y: self.y.div(o.y), z: self.z.div(o.z) }
    }

    pub fn scale(self, k: Fixed) -> (r: Vec3)
        ensures
            r@ == v_scale(self@, k@),
    {
        Vec3 { x: self.x.mul(k), y: self.y.mul(k), z: self.z.mul(k) }
    }

    pub fn div_scalar(self, k: Fixed) -> (r: Vec3)
        ensures
            r@ == v_div_scalar(self@, k@),
    {
        Vec3 { x: self.x.div(k), y: self.y.div(k), z: self.z.div(k) }
    }

    pub fn add_assign(&mut self, o: Vec3)
        ensures
            final(self)@ == v_add(old(self)@, o@),
    {
        *self = self.add(o);
    }

    pub fn dot(self, o: Vec3) -> (r: Fixed)
        ensures
            r@ == v_dot(self@, o@),
    {
        let (ax, ay, az): (i128, i128, i128) = (self.x.raw as i128, self.y.raw as i128, self.z.raw as i128);
        let (bx, by, bz): (i128, i128, i128) = (o.x.raw as i128, o.y.raw as i128, o.z.raw as i128);
        proof {
            lemma_product_bound(ax as int, bx as int);
            lemma_product_bound(ay as int, by as int);
            lemma_product_bound(az as int, bz as int);
        }
        let px: i128 = quot_wide(ax * bx);
        let py: i128 = quot_wide(ay * by);
        let pz: i128 = quot_wide(az * bz);
        Fixed::from_raw(sat_wide(px + py + pz))
    }

    pub fn cross(self, o: Vec3) -> (r: Vec3)
        ensures
            r@ == v_cross(self@, o@),
    {
        Vec3 {
            x: self.y.mul(o.z).sub(self.z.mul(o.y)),
            y: self.z.mul(o.x).sub(self.x.mul(o.z)),
            z: self.x.mul(o.y).sub(self.y.mul(o.x)),
        }
    }

    pub fn squared_length(self) -> (r: Fixed)
        ensures
            r@ == v_squared_length(self@),
    {
        self.dot(self)
    }

    pub fn length(self) -> (r: Fixed)
        ensures
            r@ == v_length(self@),
            r@ >= 0,
    {
        sqrt(self.squared_length())
    }

    /// The vector divided by its length; the zero vector maps to itself.
    pub fn unit(self) -> (r: Vec3)
        ensures
            r@ == v_unit(self@),
    {
        self.div_scalar(self.length())
    }
}

/// The dot product of two borrowed vectors.
pub fn dot(v1: &Vec3, v2: &Vec3) -> (r: Fixed)
    ensures
        r@ == v_dot(v1@, v2@),
{
    v1.dot(*v2)
}

proof fn lemma_product_bound(a: int, b: int)
    requires
        -0x8000_0000_0000_0000 <= a < 0x8000_0000_0000_0000,
        -0x8000_0000_0000_0000 <= b < 0x8000_0000_0000_0000,
    ensures
        -0x4000_0000_0000_0000_0000_0000_0000_0000 <= a * b <= 0x4000_0000_0000_0000_0000_0000_0000_0000,
{
    assert(-0x4000_0000_0000_0000_0000_0000_0000_0000 <= a * b <= 0x4000_0000_0000_0000_0000_0000_0000_0000)
        by (nonlinear_arith)
        requires
            -0x8000_0000_0000_0000 <= a < 0x8000_0000_0000_0000,
            -0x8000_0000_0000_0000 <= b < 0x8000_0000_0000_0000,
    ;
}

/// A product of two raw values divided by `SCALE`, rounded toward zero.
fn quot_wide(p: i128) -> (q: i128)
    requires
        -0x4000_0000_0000_0000_0000_0000_0000_0000 <= p <= 0x4000_0000_0000_0000_0000_0000_0000_0000,
    ensures
        q == quot(p as int, SCALE as int),
        -0x1000_0000_0000_0000_0000_0000_0000 <= q <= 0x1000_0000_0000_0000_0000_0000_0000,
{
    let mag: u128 = if p < 0 { (-p) as u128 } else { p as u128 };
    let m: u128 = mag / (SCALE as u128);
    assert(m <= 0x1000_0000_0000_0000_0000_0000_0000) by {
        vstd::arithmetic::div_mod::lemma_div_is_ordered(mag as int, 0x4000_0000_0000_0000_0000_0000_0000_0000, SCALE as int);
    }
    if p < 0 {
        -(m as i128)
    } else {
        m as i128
    }
}

fn sat_wide(x: i128) -> (r: i64)
    ensures
        r == sat(x as int),
{
    if x > crate::fixed::LIMIT as i128 {
        crate::fixed::LIMIT
    } else if x < crate::fixed::FLOOR as i128 {
        crate::fixed::FLOOR
    } else {
        x as i64
    }
}

} // verus!
