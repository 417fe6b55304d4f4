//! Saturating fixed-point scalars.
//!
//! A `Fixed` holds a real number as an integer count of `1 / SCALE` steps.
//! Every operation rounds toward zero and then saturates into
//! `[FLOOR, LIMIT]`, the range of `i64`, so no operation overflows, every
//! raw `i64` is a value that saturation leaves unchanged, and every value is
//! deterministic on every machine.
use vstd::prelude::*;

verus! {

/// Raw steps per unit.
pub const SCALE: i64 = 1_000_000_000;

/// Largest raw value; results above it saturate to it.
pub const LIMIT: i64 = i64::MAX;

/// Smallest raw value; results below it saturate to it.
pub const FLOOR: i64 = i64::MIN;

/// Clamps a mathematical integer into the representable range.
pub open spec fn sat(x: int) -> int {
    if x > LIMIT {
        LIMIT as int
    } else if x < FLOOR {
        FLOOR as int
    } else {
        x
    }
}

pub open spec fn abs(x: int) -> int {
    if x < 0 {
        -x
    } else {
        x
    }
}

/// Quotient rounded toward zero, as Rust's `/` on signed integers.
pub open spec fn quot(a: int, b: int) -> int {
    let q = abs(a) / abs(b);
    if (a < 0) == (b < 0) {
        q
    } else {
        -q
    }
}

/// Raw value of the fixed-point product of raw values `a` and `b`.
pub open spec fn fx_mul(a: int, b: int) -> int {
    sat(quot(a * b, SCALE as int))
}

/// Raw value of the fixed-point quotient; dividing by zero saturates in the
/// direction of the numerator (zero over zero is zero).
pub open spec fn fx_div(a: int, b: int) -> int {
    if b == 0 {
        if a > 0 {
            LIMIT as int
        } else if a < 0 {
            FLOOR as int
        } else {
            0
        }
    } else {
        sat(quot(a * SCALE, b))
    }
}

/// `r` is the integer square root of `n`.
pub open spec fn is_isqrt(n: int, r: int) -> bool {
    0 <= r && r * r <= n < (r + 1) * (r + 1)
}

/// Raw value of the fixed-point square root: the largest `r` with
/// `r * r <= a * SCALE`; non-positive inputs give zero.
pub open spec fn fx_sqrt_spec(a: int, r: int) -> bool {
    if a <= 0 {
        r == 0
    } else {
        is_isqrt(a * SCALE, r)
    }
}

/// Raw value of `n` whole units.
pub open spec fn units(n: int) -> int {
    sat(n * SCALE)
}

proof fn lemma_quot_bound(a: int, b: int)
    requires
        b != 0,
    ensures
        abs(quot(a, b)) <= abs(a),
        abs(b) > 1 ==> abs(quot(a, b)) <= abs(a) / 2,
{
    let q = abs(a) / abs(b);
    assert(q <= abs(a)) by {
        vstd::arithmetic::div_mod::lemma_div_is_ordered_by_denominator(abs(a), 1, abs(b));
    }
    if abs(b) > 1 {
        vstd::arithmetic::div_mod::lemma_div_is_ordered_by_denominator(abs(a), 2, abs(b));
    }
}

pub proof fn lemma_sat_monotone(x: int, y: int)
    requires
        x <= y,
    ensures
        sat(x) <= sat(y),
{
}

pub proof fn lemma_quot_monotone(x: int, y: int, b: int)
    requires
        x <= y,
        b > 0,
    ensures
        quot(x, b) <= quot(y, b),
{
    if x >= 0 {
        vstd::arithmetic::div_mod::lemma_div_is_ordered(x, y, b);
    } else if y < 0 {
        vstd::arithmetic::div_mod::lemma_div_is_ordered(-y, -x, b);
    } else {
        vstd::arithmetic::div_mod::lemma_div_basics_4(y, b);
        vstd::arithmetic::div_mod::lemma_div_basics_4(-x, b);
    }
}

/// Fixed-point division by a non-negative divisor keeps the order of numerators.
pub proof fn lemma_fx_div_monotone(x: int, y: int, b: int)
    requires
        x <= y,
        b >= 0,
    ensures
        fx_div(x, b) <= fx_div(y, b),
{
    if b > 0 {
        assert(x * SCALE <= y * SCALE) by (nonlinear_arith)
            requires
                x <= y,
        ;
        lemma_quot_monotone(x * SCALE, y * SCALE, b);
    }
}

/// Dividing by `SCALE` truncates by less than one step, toward zero.
pub proof fn lemma_quot_scale(x: int)
    ensures
        x >= 0 ==> x - SCALE < SCALE * quot(x, SCALE as int) <= x,
        x < 0 ==> x <= SCALE * quot(x, SCALE as int) < x + SCALE,
{
    let s = SCALE as int;
    let ax = abs(x);
    vstd::arithmetic::div_mod::lemma_fundamental_div_mod(ax, s);
    assert(0 <= ax % s < s);
    if x < 0 {
        assert(s * quot(x, s) == -(s * (ax / s))) by (nonlinear_arith)
            requires
                quot(x, s) == -(ax / s),
        ;
    }
}

/// Multiplying by one unit and dividing by it is exact.
pub proof fn lemma_quot_exact(x: int)
    ensures
        quot(x * SCALE, SCALE as int) == x,
        quot(SCALE * x, SCALE as int) == x,
        fx_mul(x, SCALE as int) == sat(x),
{
    let s = SCALE as int;
    if x >= 0 {
        assert(x * s >= 0 && abs(x * s) == x * s) by (nonlinear_arith)
            requires
                x >= 0,
                s > 0,
        ;
    } else {
        assert(x * s < 0 && abs(x * s) == (-x) * s) by (nonlinear_arith)
            requires
                x < 0,
                s > 0,
        ;
    }
    vstd::arithmetic::div_mod::lemma_div_by_multiple(abs(x), s);
    assert(x * s == s * x) by (nonlinear_arith);
}

/// `|e * a| <= be * ba` when `|e| <= be` and `|a| <= ba`.
pub proof fn lemma_abs_mul_bound(e: int, a: int, be: int, ba: int)
    requires
        abs(e) <= be,
        abs(a) <= ba,
    ensures
        abs(e * a) <= be * ba,
{
    assert(abs(e * a) == abs(e) * abs(a)) by (nonlinear_arith);
    assert(abs(e) * abs(a) <= be * ba) by (nonlinear_arith)
        requires
            0 <= abs(e) <= be,
            0 <= abs(a) <= ba,
    ;
}

/// Truncating division on values well inside the range of `i128`.
fn quot_i128(a: i128, b: i128) -> (q: i128)
    requires
        b != 0,
        a > i128::MIN,
        b > i128::MIN,
    ensures
        q == quot(a as int, b as int),
{
    let ua: u128 = if a < 0 { (-a) as u128 } else { a as u128 };
    let ub: u128 = if b < 0 { (-b) as u128 } else { b as u128 };
    let uq: u128 = ua / ub;
    proof {
        lemma_quot_bound(a as int, b as int);
    }
    if (a < 0) == (b < 0) {
        uq as i128
    } else {
        -(uq as i128)
    }
}

/// Saturates an `i128` into the raw range.
fn sat_i128(x: i128) -> (r: i64)
    ensures
        r == sat(x as int),
{
    if x > LIMIT as i128 {
        LIMIT
    } else if x < FLOOR as i128 {
        FLOOR
    } else {
        x as i64
    }
}

/// Integer square root by bisection.
fn isqrt_u128(n: u128) -> (r: u128)
    requires
        n < 0x1_0000_0000_0000_0000_0000_0000,
    ensures
        is_isqrt(n as int, r as int),
{
    let mut lo: u128 = 0;
    let mut hi: u128 = 0x1_0000_0000_0000;
    assert(n < hi * hi) by (nonlinear_arith)
        requires
            n < 0x1_0000_0000_0000_0000_0000_0000,
            hi == 0x1_0000_0000_0000u128,
    ;
    while hi - lo > 1
        invariant
            lo < hi <= 0x1_0000_0000_0000,
            lo * lo <= n,
            n < hi * hi,
        decreases hi - lo,
    {
        let mid: u128 = lo + (hi - lo) / 2;
        assert(mid * mid <= 0x1_0000_0000_0000_0000_0000_0000) by (nonlinear_arith)
            requires
                mid <= 0x1_0000_0000_0000,
        ;
        if mid * mid <= n {
            lo = mid;
        } else {
            hi = mid;
        }
    }
    assert(hi == lo + 1);
    lo
}

/// A real number in saturating fixed point: `raw / SCALE`.
#[derive(Clone, Copy, Debug, PartialEq, Eq, Structural)]
pub struct Fixed {
    pub raw: i64,
}

impl View for Fixed {
    type V = int;

    open spec fn view(&self) -> int {
        self.raw as int
    }
}

impl Fixed {
    pub fn from_raw(raw: i64) -> (r: Fixed)
        ensures
            r@ == raw,
    {
        Fixed { raw }
    }

    /// The value `n` in whole units, saturated.
    pub fn from_int(n: i64) -> (r: Fixed)
        ensures
            r@ == units(n as int),
    {
        let wide: i128 = n as i128;
        assert(-0x8000_0000_0000_0000_0000_0000 < wide * SCALE < 0x8000_0000_0000_0000_0000_0000) by (nonlinear_arith)
            requires
                -0x8000_0000_0000_0000 <= wide < 0x8000_0000_0000_0000,
        ;
        Fixed { raw: sat_i128(wide * SCALE as i128) }
    }

    /// The value `num / den`, rounded toward zero.
    pub fn from_ratio(num: i64, den: i64) -> (r: Fixed)
        ensures
            r@ == fx_div(units(num as int), units(den as int)),
    {
        Fixed::from_int(num).div(Fixed::from_int(den))
    }

    pub fn zero() -> (r: Fixed)
        ensures
            r@ == 0,
    {
        Fixed { raw: 0 }
    }

    pub fn one() -> (r: Fixed)
        ensures
            r@ == SCALE,
    {
        Fixed { raw: SCALE }
    }

    pub fn raw(self) -> (r: i64)
        ensures
            r == self@,
    {
        self.raw
    }

    pub fn add(self, o: Fixed) -> (r: Fixed)
        ensures
            r@ == sat(self@ + o@),
    {
        Fixed { raw: sat_i128(self.raw as i128 + o.raw as i128) }
    }

    pub fn sub(self, o: Fixed) -> (r: Fixed)
        ensures
            r@ == sat(self@ - o@),
    {
        Fixed { raw: sat_i128(self.raw as i128 - o.raw as i128) }
    }

    pub fn neg(self) -> (r: Fixed)
        ensures
            r@ == sat(-self@),
    {
        Fixed { raw: sat_i128(-(self.raw as i128)) }
    }

    pub fn mul(self, o: Fixed) -> (r: Fixed)
        ensures
            r@ == fx_mul(self@, o@),
    {
        let a: i128 = self.raw as i128;
        let b: i128 = o.raw as i128;
        assert(-0x4000_0000_0000_0000_0000_0000_0000_0000 <= a * b <= 0x4000_0000_0000_0000_0000_0000_0000_0000)
            by (nonlinear_arith)
            requires
                -0x8000_0000_0000_0000 <= a < 0x8000_0000_0000_0000,
                -0x8000_0000_0000_0000 <= b < 0x8000_0000_0000_0000,
        ;
        Fixed { raw: sat_i128(quot_i128(a * b, SCALE as i128)) }
    }

    pub fn div(self, o: Fixed) -> (r: Fixed)
        ensures
            r@ == fx_div(self@, o@),
    {
        if o.raw == 0 {
            if self.raw > 0 {
                Fixed { raw: LIMIT }
            } else if self.raw < 0 {
                Fixed { raw: FLOOR }
            } else {
                Fixed { raw: 0 }
            }
        } else {
            let wide: i128 = self.raw as i128;
            assert(-0x8000_0000_0000_0000_0000_0000 < wide * SCALE < 0x8000_0000_0000_0000_0000_0000) by (nonlinear_arith)
                requires
                    -0x8000_0000_0000_0000 <= wide < 0x8000_0000_0000_0000,
            ;
            let a: i128 = wide * SCALE as i128;
            Fixed { raw: sat_i128(quot_i128(a, o.raw as i128)) }
        }
    }

    /// Square root; the root of a non-positive value is zero.
    pub fn sqrt(self) -> (r: Fixed)
        ensures
            fx_sqrt_spec(self@, r@),
    {
        if self.raw <= 0 {
            Fixed { raw: 0 }
        } else {
            let n: u128 = self.raw as u128 * SCALE as u128;
            let s: u128 = isqrt_u128(n);
            assert(s < 0x1_0000_0000_0000) by (nonlinear_arith)
                requires
                    s * s <= n,
                    n < 0x1_0000_0000_0000_0000_0000_0000,
            ;
            Fixed { raw: s as i64 }
        }
    }

    pub fn lt(self, o: Fixed) -> (r: bool)
        ensures
            r == (self@ < o@),
    {
        self.raw < o.raw
    }
}

} // verus!
