//! Path tracing: resolving the color a ray carries, sampling pixels, and
//! turning linear colors into bytes.
use vstd::prelude::*;
use crate::camera::{Camera, ray_through};
use crate::fixed::{Fixed, SCALE, LIMIT, sat, fx_mul, fx_div, units};
use crate::hitable::Hitable;
use crate::hitable_list::{HitableList, scan};
use crate::sphere::Sphere;
use crate::material::{Bounce, valid_bounce, draw_bounce, scatter_spec};
use crate::random::{in_unit_disk, random_double};
use crate::ray::Ray;
use crate::vec3::{Vec3, Triple, v_add, v_mul, v_scale, v_unit, v_div_scalar, fx_sqrt, sqrt};

verus! {

/// Lower end of the search window for scene hits (0.001): a scattered ray
/// does not meet the surface it leaves again through rounding.
pub const T_MIN: i64 = 1_000_000;

/// Upper end of the search window: the largest representable value.
pub const T_MAX: i64 = LIMIT;

/// Upper end of a color channel before it becomes a byte (0.999).
pub const CHANNEL_MAX: i64 = 999_000_000;

/// The sky seen along `direction`: white looking straight down, blue
/// `(0.5, 0.7, 1.0)` looking straight up, linear in between.
pub open spec fn background(direction: Triple) -> Triple {
    let ud = v_unit(direction);
    let t = fx_mul(SCALE / 2, sat(ud.1 + SCALE));
    v_add(
        v_scale((SCALE as int, SCALE as int, SCALE as int), sat(SCALE - t)),
        v_scale((SCALE / 2, 7 * SCALE / 10, SCALE as int), t),
    )
}

/// Looking straight up, whole units high, the sky is pure blue
/// `(0.5, 0.7, 1.0)`; looking straight down it is pure white.
pub proof fn lemma_vertical_sky(m: int)
    requires
        1 <= m <= 1000,
    ensures
        background((0, m * SCALE, 0)) == (SCALE / 2, 7 * SCALE / 10, SCALE as int),
        background((0, -m * SCALE, 0)) == (SCALE as int, SCALE as int, SCALE as int),
{
    let sc = SCALE as int;
    let y = m * sc;
    assert(crate::fixed::quot(0, sc) == 0);
    assert(y * y == (m * m * sc) * sc && (-y) * (-y) == y * y && 0 * 0 == 0) by (nonlinear_arith)
        requires
            y == m * sc,
    ;
    crate::fixed::lemma_quot_exact(m * m * sc);
    assert(1 <= m * m <= 1_000_000) by (nonlinear_arith)
        requires
            1 <= m <= 1000,
    ;
    let sq = m * m * sc;
    assert(crate::vec3::v_squared_length((0, y, 0)) == sq);
    assert(crate::vec3::v_squared_length((0, -y, 0)) == sq);
    assert(crate::fixed::is_isqrt(sq * sc, y)) by {
        assert(sq * sc == y * y);
        assert(y * y < (y + 1) * (y + 1)) by (nonlinear_arith)
            requires
                y > 0,
        ;
    }
    let c = choose|r: int| #[trigger] crate::fixed::is_isqrt(sq * sc, r);
    crate::vec3::lemma_isqrt_unique(sq * sc, c, y);
    assert(crate::vec3::fx_sqrt(sq) == y);
    crate::fixed::lemma_quot_exact(sc);
    assert(y * sc == sc * y && sc * y >= 0 && (-y) * sc == -(sc * y)) by (nonlinear_arith)
        requires
            y > 0,
            sc > 0,
    ;
    vstd::arithmetic::div_mod::lemma_div_by_multiple(sc, y);
    assert(crate::fixed::quot(y * sc, y) == sc);
    assert(crate::fixed::quot((-y) * sc, y) == -sc);
    assert(crate::fixed::quot(0 * sc, y) == 0);
    assert(v_unit((0, y, 0)) == (0int, sc, 0int));
    assert(v_unit((0, -y, 0)) == (0int, -sc, 0int));
    crate::fixed::lemma_quot_exact(sc / 2);
    crate::fixed::lemma_quot_exact(7 * sc / 10);
    crate::fixed::lemma_quot_exact(0);
    assert((sc / 2) * (2 * sc) == sc * sc && (sc / 2) * 0 == 0) by (nonlinear_arith)
        requires
            sc == 1_000_000_000,
    ;
    assert(fx_mul(sc / 2, 2 * sc) == sc);
    assert(fx_mul(sc / 2, 0) == 0);
    assert(sc * 0 == 0 && (sc / 2) * 0 == 0 && (7 * sc / 10) * 0 == 0);
}

/// `n` bounces of draws that no scattering reads: the center of the ball and
/// a zero choice.
pub open spec fn idle_draws(n: nat) -> Seq<Bounce> {
    Seq::new(
        n,
        |k: int|
            Bounce {
                sample: Vec3 { x: Fixed { raw: 0 }, y: Fixed { raw: 0 }, z: Fixed { raw: 0 } },
                choice: Fixed { raw: 0 },
            },
    )
}

proof fn lemma_idle_draws_valid(n: nat)
    ensures
        valid_draws(idle_draws(n)),
        idle_draws(n).len() == n,
{
    crate::random::lemma_zero_in_ball();
}

pub open spec fn valid_draws(draws: Seq<Bounce>) -> bool {
    forall|k: int| 0 <= k < draws.len() ==> valid_bounce(#[trigger] draws[k])
}

/// The color carried by `ray` in the scene `world` with `depth` bounces
/// left, where `draws` holds the random values of the successive bounces.
pub open spec fn color_spec(world: Seq<Sphere>, ray: (Triple, Triple), depth: nat, draws: Seq<Bounce>) -> Triple
    decreases depth,
{
    if depth == 0 {
        (0, 0, 0)
    } else {
        match scan(world, ray, T_MIN as int, T_MAX as int) {
            None => background(ray.1),
            Some((h, m)) => {
                let s = scatter_spec(m, ray, h.1, h.0, draws[0].sample@, draws[0].choice@);
                if !s.2 {
                    (0, 0, 0)
                } else {
                    v_mul(s.1, color_spec(world, s.0, (depth - 1) as nat, draws.drop_first()))
                }
            },
        }
    }
}

/// The sky color seen along the ray's direction.
pub fn background_color(ray: &Ray) -> (r: Vec3)
    ensures
        r@ == background(ray.direction@),
{
    let ud = ray.direction.unit();
    let one = Fixed::one();
    let t = Fixed::from_raw(SCALE / 2).mul(ud.y.add(one));
    let white = Vec3::new(one, one, one);
    let sky = Vec3::new(Fixed::from_raw(SCALE / 2), Fixed::from_raw(7 * SCALE / 10), one);
    white.scale(one.sub(t)).add(sky.scale(t))
}

/// The color carried by `ray` in `world`, following at most `depth` bounces.
pub fn resolve_color(ray: &Ray, world: &HitableList, depth: u32) -> (r: Vec3)
    ensures
        exists|draws: Seq<Bounce>|
            valid_draws(draws) && draws.len() == depth && r@ == #[trigger] color_spec(
                world.list@,
                ray@,
                depth as nat,
                draws,
            ),
        depth == 0 ==> r@ == (0int, 0int, 0int),
        depth > 0 && world.hit_spec(ray@, T_MIN as int, T_MAX as int) is None ==> r@ == background(
            ray.direction@,
        ),
        depth > 0 && world.list@.len() == 0 ==> r@ == background(ray.direction@),
    decreases depth,
{
    let ghost none: Seq<Bounce> = Seq::empty();
    if depth == 0 {
        let r = Vec3::zero();
        assert(valid_draws(none) && r@ == color_spec(world.list@, ray@, depth as nat, none));
        return r;
    }
    match world.hit(ray, Fixed::from_raw(T_MIN), Fixed::from_raw(T_MAX)) {
        None => {
            let r = background_color(ray);
            proof {
                lemma_idle_draws_valid(depth as nat);
                let pad = idle_draws(depth as nat);
                assert(valid_draws(pad) && pad.len() == depth && r@ == color_spec(
                    world.list@,
                    ray@,
                    depth as nat,
                    pad,
                ));
            }
            r
        },
        Some((rec, m)) => {
            let b = draw_bounce();
            let (scattered, attenuation, valid) = m.scatter_with(ray, rec.normal, rec.p, b);
            let ghost first: Seq<Bounce> = seq![b];
            if !valid {
                let r = Vec3::zero();
                proof {
                    lemma_idle_draws_valid((depth - 1) as nat);
                    let all = first + idle_draws((depth - 1) as nat);
                    assert(all[0] == b);
                    assert(valid_draws(all));
                    assert(valid_draws(all) && all.len() == depth && r@ == color_spec(
                        world.list@,
                        ray@,
                        depth as nat,
                        all,
                    ));
                }
                return r;
            }
            let c = resolve_color(&scattered, world, depth - 1);
            let r = attenuation.mul(c);
            proof {
                let rest = choose|d: Seq<Bounce>|
                    valid_draws(d) && d.len() == depth - 1 && c@ == #[trigger] color_spec(
                        world.list@,
                        scattered@,
                        (depth - 1) as nat,
                        d,
                    );
                let all = first + rest;
                assert(all.drop_first() =~= rest);
                assert(all[0] == b);
                assert(valid_draws(all));
                assert(r@ == color_spec(world.list@, ray@, depth as nat, all));
            }
            r
        },
    }
}

/// The image-plane coordinate of pixel index `i` jittered by `jitter` in
/// `[0, 1)`, over an image `n` pixels across: `(i + jitter) / n`.
pub open spec fn pixel_coord(i: int, jitter: int, n: int) -> int {
    fx_div(sat(units(i) + jitter), units(n))
}

pub fn pixel_coordinate(i: u32, jitter: Fixed, n: u32) -> (r: Fixed)
    ensures
        r@ == pixel_coord(i as int, jitter@, n as int),
{
    Fixed::from_int(i as i64).add(jitter).div(Fixed::from_int(n as i64))
}

/// `c` is the color of one sample of pixel `(i, j)`: the resolved color of
/// a camera ray through a jittered point of the pixel.
pub open spec fn is_pixel_sample(
    cam: Camera,
    world: Seq<Sphere>,
    i: int,
    j: int,
    width: int,
    height: int,
    depth: nat,
    c: Triple,
) -> bool {
    exists|jx: int, jy: int, disk: Triple, draws: Seq<Bounce>|
        0 <= jx < SCALE && 0 <= jy < SCALE && in_unit_disk(disk) && valid_draws(draws) && draws.len() == depth
            && c
            == #[trigger] color_spec(
            world,
            ray_through(cam, pixel_coord(i, jx, width), pixel_coord(j, jy, height), disk),
            depth,
            draws,
        )
}

/// The saturating sum of a sequence of colors, from the first.
pub open spec fn sum_colors(colors: Seq<Triple>) -> Triple
    decreases colors.len(),
{
    if colors.len() == 0 {
        (0, 0, 0)
    } else {
        v_add(sum_colors(colors.drop_last()), colors.last())
    }
}

/// The sum of `samples` colors of pixel `(i, j)`, each from its own jittered ray.
pub fn sample_pixel(
    camera: &Camera,
    world: &HitableList,
    i: u32,
    j: u32,
    width: u32,
    height: u32,
    samples: u32,
    depth: u32,
) -> (r: Vec3)
    ensures
        exists|colors: Seq<Triple>|
            colors.len() == samples && (forall|k: int|
                0 <= k < colors.len() ==> is_pixel_sample(
                    *camera,
                    world.list@,
                    i as int,
                    j as int,
                    width as int,
                    height as int,
                    depth as nat,
                    #[trigger] colors[k],
                )) && r@ == sum_colors(colors),
{
    let mut sum = Vec3::zero();
    let mut n: u32 = 0;
    let ghost mut colors: Seq<Triple> = Seq::empty();
    while n < samples
        invariant
            n <= samples,
            colors.len() == n,
            forall|k: int|
                0 <= k < colors.len() ==> is_pixel_sample(
                    *camera,
                    world.list@,
                    i as int,
                    j as int,
                    width as int,
                    height as int,
                    depth as nat,
                    #[trigger] colors[k],
                ),
            sum@ == sum_colors(colors),
        decreases samples - n,
    {
        let jx = random_double();
        let jy = random_double();
        let s = pixel_coordinate(i, jx, width);
        let t = pixel_coordinate(j, jy, height);
        let ray = camera.get_ray(s, t);
        let c = resolve_color(&ray, world, depth);
        proof {
            let disk = choose|disk: Triple| in_unit_disk(disk) && ray@ == #[trigger] ray_through(*camera, s@, t@, disk);
            let draws = choose|d: Seq<Bounce>|
                valid_draws(d) && d.len() == depth && c@ == #[trigger] color_spec(
                    world.list@,
                    ray@,
                    depth as nat,
                    d,
                );
            assert(is_pixel_sample(*camera, world.list@, i as int, j as int, width as int, height as int, depth as nat, c@))
                by {
                assert(c@ == color_spec(
                    world.list@,
                    ray_through(*camera, pixel_coord(i as int, jx@, width as int), pixel_coord(j as int, jy@, height as int), disk),
                    depth as nat,
                    draws,
                ));
            }
            let next = colors.push(c@);
            assert(next.drop_last() =~= colors);
            colors = next;
        }
        sum.add_assign(c);
        n = n + 1;
    }
    sum
}

/// `c` is the average of `samples` samples of pixel `(i, j)`.
pub open spec fn is_pixel_average(
    cam: Camera,
    world: Seq<Sphere>,
    i: int,
    j: int,
    width: int,
    height: int,
    samples: nat,
    depth: nat,
    c: Triple,
) -> bool {
    exists|colors: Seq<Triple>|
        colors.len() == samples && (forall|k: int|
            0 <= k < colors.len() ==> is_pixel_sample(cam, world, i, j, width, height, depth, #[trigger] colors[k]))
            && c == #[trigger] v_div_scalar(sum_colors(colors), units(samples as int))
}

/// One row of the image, left to right: the average of `samples` samples of
/// each pixel `(i, j)`. Rows count from the bottom of the image (`j = 0`).
pub fn render_row(
    camera: &Camera,
    world: &HitableList,
    j: u32,
    width: u32,
    height: u32,
    samples: u32,
    depth: u32,
) -> (r: Vec<Vec3>)
    ensures
        r@.len() == width,
        forall|i: int|
            0 <= i < width ==> is_pixel_average(
                *camera,
                world.list@,
                i,
                j as int,
                width as int,
                height as int,
                samples as nat,
                depth as nat,
                #[trigger] r@[i]@,
            ),
{
    let mut row: Vec<Vec3> = Vec::new();
    let mut i: u32 = 0;
    let n = Fixed::from_int(samples as i64);
    while i < width
        invariant
            i <= width,
            row@.len() == i,
            n@ == units(samples as int),
            forall|x: int|
                0 <= x < i ==> is_pixel_average(
                    *camera,
                    world.list@,
                    x,
                    j as int,
                    width as int,
                    height as int,
                    samples as nat,
                    depth as nat,
                    #[trigger] row@[x]@,
                ),
        decreases width - i,
    {
        let sum = sample_pixel(camera, world, i, j, width, height, samples, depth);
        let avg = sum.div_scalar(n);
        let ghost before = row@;
        row.push(avg);
        proof {
            let colors = choose|colors: Seq<Triple>|
                colors.len() == samples && (forall|k: int|
                    0 <= k < colors.len() ==> is_pixel_sample(
                        *camera,
                        world.list@,
                        i as int,
                        j as int,
                        width as int,
                        height as int,
                        depth as nat,
                        #[trigger] colors[k],
                    )) && sum@ == sum_colors(colors);
            assert(avg@ == v_div_scalar(sum_colors(colors), units(samples as int)));
            assert forall|x: int| 0 <= x < i + 1 implies is_pixel_average(
                *camera,
                world.list@,
                x,
                j as int,
                width as int,
                height as int,
                samples as nat,
                depth as nat,
                #[trigger] row@[x]@,
            ) by {
                if x < i {
                    assert(row@[x] == before[x]);
                }
            }
        }
        i = i + 1;
    }
    row
}

/// Relies on num's `clamp`: the input limited to `[min, max]`, which must
/// not be empty.
#[verifier::external_body]
fn clamp_raw(input: i64, min: i64, max: i64) -> (r: i64)
    requires
        min <= max,
    ensures
        r == (if input < min {
            min
        } else if input > max {
            max
        } else {
            input
        }),
{
    num::clamp(input, min, max)
}

/// The byte for a linear channel value: gamma 2 (square root), limited to
/// `[0, 0.999]`, scaled to `[0, 256)`.
pub open spec fn channel_byte(c: int) -> int {
    let g = fx_sqrt(c);
    let limited = if g > CHANNEL_MAX {
        CHANNEL_MAX as int
    } else {
        g
    };
    (256 * limited) / SCALE as int
}

fn channel_to_byte(c: Fixed) -> (r: u8)
    ensures
        r == channel_byte(c@),
{
    let g = sqrt(c);
    let limited = clamp_raw(g.raw, 0, CHANNEL_MAX);
    ((256 * limited) / SCALE) as u8
}

/// The bytes of an averaged linear color, gamma-corrected.
pub fn color_to_rgb(color: Vec3) -> (r: (u8, u8, u8))
    ensures
        r.0 == channel_byte(color.x@),
        r.1 == channel_byte(color.y@),
        r.2 == channel_byte(color.z@),
{
    (channel_to_byte(color.x), channel_to_byte(color.y), channel_to_byte(color.z))
}

} // verus!
