//! Random sampling: uniform fractions, and points in the unit ball and disk
//! by rejection.
use vstd::prelude::*;
use rand::Rng;
use crate::fixed::{Fixed, SCALE};
use crate::vec3::{Vec3, Triple, v_squared_length};

verus! {

/// Rejection sampling gives up after this many candidates and returns the
/// center; each candidate is accepted with probability above one half.
pub const MAX_TRIES: u32 = 64;

/// `v` lies strictly inside the unit ball.
pub open spec fn in_unit_ball(v: Triple) -> bool {
    v_squared_length(v) < SCALE
}

/// `v` lies strictly inside the unit disk of the `z = 0` plane.
pub open spec fn in_unit_disk(v: Triple) -> bool {
    in_unit_ball(v) && v.2 == 0
}

/// Relies on rand's `Rng::gen_range` on the thread-local generator: the value
/// lies in the half-open range `[0, n)`, which must not be empty.
#[verifier::external_body]
fn random_below(n: i64) -> (r: i64)
    requires
        n > 0,
    ensures
        0 <= r < n,
{
    rand::thread_rng().gen_range(0..n)
}

/// A uniform random number in `[0, 1)`.
pub fn random_double() -> (r: Fixed)
    ensures
        0 <= r@ < SCALE,
{
    Fixed::from_raw(random_below(SCALE))
}

/// Maps a uniform fraction in `[0, 1)` to `[-1, 1)`.
fn stretch(f: Fixed) -> (r: Fixed)
    requires
        0 <= f@ < SCALE,
    ensures
        r@ == 2 * f@ - SCALE,
{
    Fixed::from_raw(2 * f.raw - SCALE)
}

/// The origin lies in the unit ball.
pub proof fn lemma_zero_in_ball()
    ensures
        in_unit_ball((0int, 0int, 0int)),
{
    let z = (0int, 0int, 0int);
    assert(0int * 0int == 0);
    assert(crate::fixed::quot(0, SCALE as int) == 0);
    assert(v_squared_length(z) == crate::vec3::v_dot(z, z));
    assert(crate::vec3::v_dot(z, z) == 0);
}

/// The point of `[-1, 1)^3` that the uniform fractions `a`, `b`, `c` in
/// `[0, 1)` stand for.
pub open spec fn ball_point(a: int, b: int, c: int) -> Triple {
    (2 * a - SCALE, 2 * b - SCALE, 2 * c - SCALE)
}

/// One rejection step for the unit ball: the candidate point of the three
/// fractions, kept exactly when it lies strictly inside the ball.
pub fn ball_candidate(a: Fixed, b: Fixed, c: Fixed) -> (r: Option<Vec3>)
    requires
        0 <= a@ < SCALE,
        0 <= b@ < SCALE,
        0 <= c@ < SCALE,
    ensures
        r is Some <==> in_unit_ball(ball_point(a@, b@, c@)),
        r matches Some(p) ==> p@ == ball_point(a@, b@, c@),
{
    let p = Vec3::new(stretch(a), stretch(b), stretch(c));
    if p.squared_length().raw < SCALE {
        Some(p)
    } else {
        None
    }
}

/// One rejection step for the unit disk: the candidate point of the two
/// fractions in the `z = 0` plane, kept exactly when it lies strictly inside
/// the disk.
pub fn disk_candidate(a: Fixed, b: Fixed) -> (r: Option<Vec3>)
    requires
        0 <= a@ < SCALE,
        0 <= b@ < SCALE,
    ensures
        r is Some <==> in_unit_disk((2 * a@ - SCALE, 2 * b@ - SCALE, 0)),
        r matches Some(p) ==> p@ == (2 * a@ - SCALE, 2 * b@ - SCALE, 0int),
{
    let p = Vec3::new(stretch(a), stretch(b), Fixed::zero());
    if p.squared_length().raw < SCALE {
        Some(p)
    } else {
        None
    }
}

/// A random point strictly inside the unit ball: the first candidate of
/// `ball_candidate` that is kept, from fresh uniform draws.
pub fn random_in_unit_sphere() -> (r: Vec3)
    ensures
        in_unit_ball(r@),
{
    let mut tries: u32 = 0;
    while tries < MAX_TRIES
        decreases MAX_TRIES - tries,
    {
        match ball_candidate(random_double(), random_double(), random_double()) {
            Some(p) => {
                return p;
            },
            None => {},
        }
        tries = tries + 1;
    }
    proof {
        lemma_zero_in_ball();
    }
    Vec3::zero()
}

/// A random point strictly inside the unit disk of the `z = 0` plane: the
/// first candidate of `disk_candidate` that is kept, from fresh uniform draws.
pub fn random_in_unit_disk() -> (r: Vec3)
    ensures
        in_unit_disk(r@),
{
    let mut tries: u32 = 0;
    while tries < MAX_TRIES
        decreases MAX_TRIES - tries,
    {
        match disk_candidate(random_double(), random_double()) {
            Some(p) => {
                return p;
            },
            None => {},
        }
        tries = tries + 1;
    }
    proof {
        lemma_zero_in_ball();
    }
    Vec3::zero()
}

} // verus!
