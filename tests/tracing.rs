use raytracer::camera::Camera;
use raytracer::fixed::{Fixed, LIMIT, SCALE};
use raytracer::hitable::Hitable;
use raytracer::hitable_list::HitableList;
use raytracer::material::{reflect, refract, schlick, Bounce, Material};
use raytracer::random::{ball_candidate, disk_candidate, random_double, random_in_unit_disk, random_in_unit_sphere};
use raytracer::ray::Ray;
use raytracer::render::{
    background_color, color_to_rgb, pixel_coordinate, render_row, resolve_color, sample_pixel, T_MAX, T_MIN,
};
use raytracer::sphere::Sphere;
use raytracer::vec3::{dot, Vec3};

fn fx(x: f64) -> Fixed {
    Fixed::from_raw((x * SCALE as f64).round() as i64)
}

fn v(x: f64, y: f64, z: f64) -> Vec3 {
    Vec3::new(fx(x), fx(y), fx(z))
}

fn gray() -> Material {
    Material::Lambertian { attenuation: v(0.5, 0.5, 0.5) }
}

fn close(a: Vec3, b: Vec3, tol: i64) -> bool {
    (a.x.raw - b.x.raw).abs() <= tol && (a.y.raw - b.y.raw).abs() <= tol && (a.z.raw - b.z.raw).abs() <= tol
}

#[test]
fn fixed_arithmetic_rounds_toward_zero() {
    assert_eq!(fx(1.5).mul(fx(2.0)), fx(3.0));
    assert_eq!(fx(1.0).div(fx(3.0)).raw, 333_333_333);
    assert_eq!(fx(-1.0).div(fx(3.0)).raw, -333_333_333);
    assert_eq!(fx(2.0).sqrt(), fx(1.414213562));
    assert_eq!(fx(-4.0).sqrt(), Fixed::zero());
    assert_eq!(Fixed::from_ratio(7, 2), fx(3.5));
}

#[test]
fn fixed_arithmetic_saturates() {
    let big = Fixed::from_raw(LIMIT);
    assert_eq!(big.add(big).raw, LIMIT);
    assert_eq!(big.neg().sub(big).raw, i64::MIN);
    assert_eq!(Fixed::from_raw(i64::MIN).add(Fixed::zero()).raw, i64::MIN);
    assert_eq!(Fixed::from_raw(i64::MIN).neg().raw, LIMIT);
    assert_eq!(big.mul(fx(2.0)).raw, LIMIT);
    assert_eq!(fx(1.0).div(Fixed::zero()).raw, LIMIT);
    assert_eq!(fx(-1.0).div(Fixed::zero()).raw, i64::MIN);
    assert_eq!(Fixed::zero().div(Fixed::zero()).raw, 0);
}

#[test]
fn vector_products_and_lengths() {
    let a = v(1.0, 2.0, 3.0);
    let b = v(4.0, -5.0, 6.0);
    assert_eq!(a.dot(b), fx(12.0));
    assert_eq!(dot(&a, &b), fx(12.0));
    assert_eq!(a.cross(b), v(27.0, 6.0, -13.0));
    assert_eq!(v(3.0, 4.0, 0.0).length(), fx(5.0));
    assert_eq!(v(3.0, 4.0, 0.0).squared_length(), fx(25.0));
    assert_eq!(v(3.0, 4.0, 0.0).unit(), v(0.6, 0.8, 0.0));
    assert_eq!(a.add(b), v(5.0, -3.0, 9.0));
    assert_eq!(a.sub(b), v(-3.0, 7.0, -3.0));
    assert_eq!(a.mul(b), v(4.0, -10.0, 18.0));
    assert_eq!(a.scale(fx(0.5)), v(0.5, 1.0, 1.5));
    assert_eq!(v(1.0, 2.0, 3.0).div_scalar(fx(2.0)), v(0.5, 1.0, 1.5));
    let mut c = a;
    c.add_assign(b);
    assert_eq!(c, v(5.0, -3.0, 9.0));
}

#[test]
fn ray_at_moves_along_direction() {
    let r = Ray::new(v(1.0, 0.0, 0.0), v(0.0, 2.0, 0.0));
    assert_eq!(r.at(fx(1.5)), v(1.0, 3.0, 0.0));
    assert_eq!(r.origin(), v(1.0, 0.0, 0.0));
    assert_eq!(r.direction(), v(0.0, 2.0, 0.0));
}

#[test]
fn reflection_flips_the_normal_component() {
    let n = v(0.0, 1.0, 0.0);
    let d = v(1.0, -1.0, 0.5);
    let r = reflect(d, n);
    assert_eq!(r, v(1.0, 1.0, 0.5));
    assert_eq!(r.dot(n).raw, -d.dot(n).raw);
    let n2 = v(0.6, 0.8, 0.0);
    let d2 = v(2.0, -3.0, 1.0);
    let r2 = reflect(d2, n2);
    assert!((r2.dot(n2).raw + d2.dot(n2).raw).abs() <= 4);
}

#[test]
fn refraction_with_unit_ratio_keeps_direction() {
    let n = v(0.0, 1.0, 0.0);
    let d = v(1.0, -2.0, 0.5);
    let r = refract(d, n, fx(1.0)).unwrap();
    assert!(close(r, d.unit(), 3));
}

#[test]
fn refraction_reports_total_internal_reflection() {
    let n = v(0.0, 1.0, 0.0);
    let d = v(1.0, -0.1, 0.0);
    assert!(refract(d, n, fx(1.5)).is_none());
    assert!(refract(d, n, fx(0.5)).is_some());
    let grazing = refract(v(1.0, 0.0, 0.0), n, fx(1.0)).unwrap();
    assert_eq!(grazing, v(1.0, 0.0, 0.0));
}

#[test]
fn schlick_reflectance_values() {
    assert_eq!(schlick(fx(1.0), fx(1.5)), fx(0.04));
    assert_eq!(schlick(fx(0.0), fx(1.5)), fx(1.0));
    assert_eq!(schlick(fx(0.5), fx(1.0)), fx(0.03125));
}

#[test]
fn ray_toward_center_hits_front_of_sphere() {
    let s = Sphere::new(v(0.0, 0.0, 0.0), fx(1.0), gray());
    let r = Ray::new(v(0.0, 0.0, -5.0), v(0.0, 0.0, 1.0));
    let (h, m) = s.hit(&r, fx(0.001), Fixed::from_raw(T_MAX)).unwrap();
    assert_eq!(h.t, fx(4.0));
    assert_eq!(h.p, v(0.0, 0.0, -1.0));
    assert_eq!(h.normal, v(0.0, 0.0, -1.0));
    assert_eq!(m, gray());
    let origin = v(3.0, -2.0, 7.0);
    let toward = Ray::new(origin, v(0.0, 0.0, 0.0).sub(origin));
    assert!(s.hit(&toward, fx(0.001), Fixed::from_raw(T_MAX)).is_some());
}

#[test]
fn hit_parameter_stays_in_window() {
    let s = Sphere::new(v(0.0, 0.0, 0.0), fx(1.0), gray());
    let r = Ray::new(v(0.0, 0.0, -5.0), v(0.0, 0.0, 1.0));
    let (h, _) = s.hit(&r, fx(4.0), fx(100.0)).unwrap();
    assert_eq!(h.t, fx(6.0));
    let (h, _) = s.hit(&r, fx(0.0), fx(4.0)).unwrap();
    assert_eq!(h.t, fx(4.0));
    assert!(s.hit(&r, fx(0.0), fx(3.9)).is_none());
    assert!(s.hit(&r, fx(6.0), fx(100.0)).is_none());
    let d = h.p.sub(*s.center()).length();
    assert_eq!(d, s.radius());
}

#[test]
fn ray_passing_outside_misses() {
    let s = Sphere::new(v(0.0, 0.0, 0.0), fx(1.0), gray());
    let r = Ray::new(v(0.0, 1.5, -5.0), v(0.0, 0.0, 1.0));
    assert!(s.hit(&r, fx(0.001), Fixed::from_raw(T_MAX)).is_none());
    let r = Ray::new(v(2.0, 0.0, -5.0), v(0.0, 0.3, 1.0));
    assert!(s.hit(&r, fx(0.001), Fixed::from_raw(T_MAX)).is_none());
}

#[test]
fn negative_radius_turns_normal_inward() {
    let s = Sphere::new(v(0.0, 0.0, 0.0), fx(-1.0), gray());
    let r = Ray::new(v(0.0, 0.0, -5.0), v(0.0, 0.0, 1.0));
    let (h, _) = s.hit(&r, fx(0.001), Fixed::from_raw(T_MAX)).unwrap();
    assert_eq!(h.normal, v(0.0, 0.0, 1.0));
    assert_eq!(s.material(), &gray());
}

#[test]
fn scene_reports_nearest_of_overlapping_spheres() {
    let far_mat = Material::Lambertian { attenuation: v(0.1, 0.2, 0.3) };
    let near_mat = Material::Metal { attenuation: v(0.9, 0.9, 0.9), fuzziness: fx(0.0) };
    let world = HitableList::new(vec![
        Sphere::new(v(0.0, 0.0, 0.0), fx(1.0), far_mat),
        Sphere::new(v(0.0, 0.0, -1.0), fx(1.0), near_mat),
    ]);
    let r = Ray::new(v(0.0, 0.0, -5.0), v(0.0, 0.0, 1.0));
    let (h, m) = world.hit(&r, fx(0.001), Fixed::from_raw(T_MAX)).unwrap();
    assert_eq!(h.t, fx(3.0));
    assert_eq!(m, near_mat);
    let reversed = HitableList::new(vec![
        Sphere::new(v(0.0, 0.0, -1.0), fx(1.0), near_mat),
        Sphere::new(v(0.0, 0.0, 0.0), fx(1.0), far_mat),
    ]);
    let (h, m) = reversed.hit(&r, fx(0.001), Fixed::from_raw(T_MAX)).unwrap();
    assert_eq!(h.t, fx(3.0));
    assert_eq!(m, near_mat);
}

#[test]
fn scene_tie_goes_to_first_sphere() {
    let a = Material::Lambertian { attenuation: v(0.1, 0.2, 0.3) };
    let b = Material::Dielectric { refraction_idx: fx(1.5) };
    let world = HitableList::new(vec![
        Sphere::new(v(0.0, 0.0, 0.0), fx(1.0), a),
        Sphere::new(v(0.0, 0.0, 0.0), fx(1.0), b),
    ]);
    let r = Ray::new(v(0.0, 0.0, -5.0), v(0.0, 0.0, 1.0));
    let (_, m) = world.hit(&r, fx(0.001), Fixed::from_raw(T_MAX)).unwrap();
    assert_eq!(m, a);
    let empty = HitableList::new(vec![]);
    assert!(empty.hit(&r, fx(0.001), Fixed::from_raw(T_MAX)).is_none());
}

#[test]
fn zero_depth_resolves_to_black() {
    let world = HitableList::new(vec![Sphere::new(v(0.0, 0.0, 0.0), fx(1.0), gray())]);
    let r = Ray::new(v(0.0, 0.0, -5.0), v(0.0, 0.0, 1.0));
    assert_eq!(resolve_color(&r, &world, 0), Vec3::zero());
    let up = Ray::new(v(0.0, 0.0, 0.0), v(0.0, 1.0, 0.0));
    assert_eq!(resolve_color(&up, &HitableList::new(vec![]), 0), Vec3::zero());
}

#[test]
fn empty_scene_shows_the_sky() {
    let world = HitableList::new(vec![]);
    let up = Ray::new(v(0.0, 0.0, 0.0), v(0.0, 3.0, 0.0));
    assert_eq!(resolve_color(&up, &world, 5), v(0.5, 0.7, 1.0));
    let down = Ray::new(v(1.0, 2.0, 3.0), v(0.0, -1.0, 0.0));
    assert_eq!(resolve_color(&down, &world, 5), v(1.0, 1.0, 1.0));
    let level = Ray::new(v(0.0, 0.0, 0.0), v(1.0, 0.0, 0.0));
    assert_eq!(resolve_color(&level, &world, 1), v(0.75, 0.85, 1.0));
    assert_eq!(background_color(&level), v(0.75, 0.85, 1.0));
}

#[test]
fn lambertian_scatter_is_always_valid() {
    let m = gray();
    let r = Ray::new(v(0.0, 0.0, -5.0), v(0.0, 0.0, 1.0));
    for _ in 0..200 {
        let (out, att, ok) = m.scatter(&r, v(0.0, 0.0, -1.0), v(0.0, 0.0, -1.0));
        assert!(ok);
        assert_eq!(att, v(0.5, 0.5, 0.5));
        assert_eq!(out.origin, v(0.0, 0.0, -1.0));
    }
    let b = Bounce { sample: v(0.1, 0.2, -0.3), choice: fx(0.5) };
    let (out, _, ok) = m.scatter_with(&r, v(0.0, 0.0, -1.0), v(0.0, 0.0, -1.0), b);
    assert!(ok);
    assert_eq!(out.direction, v(0.1, 0.2, -1.3));
}

#[test]
fn sharp_metal_is_a_mirror() {
    let m = Material::Metal { attenuation: v(0.7, 0.6, 0.5), fuzziness: fx(0.0) };
    let r = Ray::new(v(0.0, 5.0, 0.0), v(0.0, -2.0, 0.0));
    let n = v(0.0, 1.0, 0.0);
    for _ in 0..50 {
        let (out, att, ok) = m.scatter(&r, n, v(0.0, 1.0, 0.0));
        assert_eq!(out.direction, reflect(r.direction.unit(), n));
        assert_eq!(out.direction, v(0.0, 1.0, 0.0));
        assert_eq!(att, v(0.7, 0.6, 0.5));
        assert!(ok);
    }
}

#[test]
fn fuzzy_metal_can_absorb() {
    let m = Material::Metal { attenuation: v(0.7, 0.6, 0.5), fuzziness: fx(1.0) };
    let r = Ray::new(v(-1.0, 0.01, 0.0), v(1.0, -0.01, 0.0));
    let b = Bounce { sample: v(0.0, -0.9, 0.0), choice: fx(0.0) };
    let (_, _, ok) = m.scatter_with(&r, v(0.0, 1.0, 0.0), v(0.0, 0.0, 0.0), b);
    assert!(!ok);
}

#[test]
fn matched_index_glass_does_not_bend() {
    let m = Material::Dielectric { refraction_idx: fx(1.0) };
    let d = v(1.0, -2.0, 0.5);
    let r = Ray::new(v(0.0, 3.0, 0.0), d);
    let n = v(0.0, 1.0, 0.0);
    let b = Bounce { sample: Vec3::zero(), choice: fx(0.999) };
    let (out, att, ok) = m.scatter_with(&r, n, v(0.0, 0.0, 0.0), b);
    assert!(ok);
    assert_eq!(att, v(1.0, 1.0, 1.0));
    assert!(close(out.direction, d.unit(), 3));
}

#[test]
fn glass_reflects_on_low_choice() {
    let m = Material::Dielectric { refraction_idx: fx(1.5) };
    let d = v(1.0, -1.0, 0.0);
    let r = Ray::new(v(-1.0, 1.0, 0.0), d);
    let n = v(0.0, 1.0, 0.0);
    let b = Bounce { sample: Vec3::zero(), choice: fx(0.0) };
    let (out, _, _) = m.scatter_with(&r, n, v(0.0, 0.0, 0.0), b);
    assert_eq!(out.direction, v(1.0, 1.0, 0.0));
}

#[test]
fn random_samples_lie_in_their_domains() {
    for _ in 0..200 {
        let f = random_double();
        assert!(f.raw >= 0 && f.raw < SCALE);
        let p = random_in_unit_sphere();
        assert!(p.squared_length().raw < SCALE);
        let q = random_in_unit_disk();
        assert!(q.squared_length().raw < SCALE);
        assert_eq!(q.z, Fixed::zero());
    }
}

fn default_camera(aperture: f64) -> Camera {
    Camera::new(
        v(0.0, 0.0, 0.0),
        v(0.0, 0.0, -1.0),
        v(0.0, 1.0, 0.0),
        fx(1.0),
        fx(2.0),
        fx(aperture),
        fx(1.0),
    )
}

#[test]
fn camera_frames_the_view() {
    let c = default_camera(0.0);
    assert_eq!(c.origin, v(0.0, 0.0, 0.0));
    assert_eq!(c.u, v(1.0, 0.0, 0.0));
    assert_eq!(c.v, v(0.0, 1.0, 0.0));
    assert_eq!(c.lower_left_corner, v(-2.0, -1.0, -1.0));
    assert_eq!(c.horizontal, v(4.0, 0.0, 0.0));
    assert_eq!(c.vertical, v(0.0, 2.0, 0.0));
    let r = c.get_ray(fx(0.5), fx(0.5));
    assert_eq!(r.origin, v(0.0, 0.0, 0.0));
    assert_eq!(r.direction, v(0.0, 0.0, -1.0));
    let r = c.get_ray_with(fx(0.0), fx(1.0), Vec3::zero());
    assert_eq!(r.direction, v(-2.0, 1.0, -1.0));
}

#[test]
fn camera_lens_offsets_origin() {
    let c = default_camera(2.0);
    assert_eq!(c.lens_radius, fx(1.0));
    let r = c.get_ray_with(fx(0.5), fx(0.5), v(0.5, -0.5, 0.0));
    assert_eq!(r.origin, v(0.5, -0.5, 0.0));
    assert_eq!(r.direction, v(-0.5, 0.5, -1.0));
    for _ in 0..50 {
        let r = c.get_ray(fx(0.5), fx(0.5));
        assert!(r.origin.squared_length().raw < SCALE);
    }
}

#[test]
fn pixel_coordinates_and_bytes() {
    assert_eq!(pixel_coordinate(1, fx(0.5), 4), fx(0.375));
    assert_eq!(color_to_rgb(v(1.0, 0.25, 0.0)), (255, 128, 0));
    assert_eq!(color_to_rgb(v(4.0, -1.0, 0.0625)), (255, 0, 64));
}

#[test]
fn two_sphere_scene_misses_show_the_sky() {
    let world = HitableList::new(vec![
        Sphere::new(v(0.0, -100.5, -1.0), fx(100.0), gray()),
        Sphere::new(v(0.0, 0.0, -1.0), fx(0.5), gray()),
    ]);
    let cam = default_camera(0.0);
    let (w, h) = (40u32, 20u32);
    let mut misses = 0;
    for j in 0..h {
        for i in 0..w {
            let s = pixel_coordinate(i, fx(0.5), w);
            let t = pixel_coordinate(j, fx(0.5), h);
            let ray = cam.get_ray(s, t);
            if world.hit(&ray, Fixed::from_raw(T_MIN), Fixed::from_raw(T_MAX)).is_none() {
                misses += 1;
                assert_eq!(resolve_color(&ray, &world, 1), background_color(&ray));
            } else {
                assert_eq!(resolve_color(&ray, &world, 1).x.raw >= 0, true);
            }
        }
    }
    assert!(misses > 0 && misses < w * h);
}

#[test]
fn rows_hold_one_average_per_pixel() {
    let world = HitableList::new(vec![]);
    let cam = default_camera(0.0);
    let row = render_row(&cam, &world, 3, 8, 4, 2, 0);
    assert_eq!(row.len(), 8);
    assert!(row.iter().all(|c| *c == Vec3::zero()));
    let sum = sample_pixel(&cam, &world, 2, 3, 8, 4, 3, 0);
    assert_eq!(sum, Vec3::zero());
    let top = render_row(&cam, &world, 3, 8, 4, 4, 3);
    assert!(top.iter().all(|c| c.z == fx(1.0)));
}

#[test]
fn ray_aimed_at_center_hits_from_inside_and_outside() {
    let s = Sphere::new(v(1.0, -2.0, 0.5), fx(0.75), gray());
    for origin in [v(10.0, 3.0, -4.0), v(1.2, -2.1, 0.4), v(-0.5, 7.0, 2.0)] {
        let r = Ray::new(origin, s.center.sub(origin));
        let (h, _) = s.hit(&r, Fixed::from_raw(T_MIN), Fixed::from_raw(T_MAX)).unwrap();
        assert!(h.t.raw > T_MIN);
    }
}

#[test]
fn glancing_ray_past_the_rim_misses() {
    let s = Sphere::new(v(0.0, 0.0, 0.0), fx(1.0), gray());
    let r = Ray::new(v(-5.0, 1.001, 0.0), v(1.0, 0.0, 0.0));
    assert!(s.hit(&r, fx(-100.0), fx(100.0)).is_none());
    let r = Ray::new(v(-5.0, 0.999, 0.0), v(1.0, 0.0, 0.0));
    assert!(s.hit(&r, fx(-100.0), fx(100.0)).is_some());
}

#[test]
fn ray_at_zero_is_its_origin_even_at_the_floor() {
    let o = Vec3::new(Fixed::from_raw(i64::MIN), fx(1.0), Fixed::from_raw(LIMIT));
    let r = Ray::new(o, v(1.0, 2.0, 3.0));
    assert_eq!(r.at(Fixed::zero()), o);
}

#[test]
fn rejection_candidates_keep_points_inside_only() {
    assert_eq!(ball_candidate(fx(0.5), fx(0.75), fx(0.25)), Some(v(0.0, 0.5, -0.5)));
    assert_eq!(ball_candidate(fx(0.0), fx(0.5), fx(0.5)), None);
    assert_eq!(ball_candidate(fx(0.9), fx(0.9), fx(0.9)), None);
    assert_eq!(disk_candidate(fx(0.25), fx(0.75)), Some(v(-0.5, 0.5, 0.0)));
    assert_eq!(disk_candidate(fx(0.9), fx(0.9)), None);
}

#[test]
fn pinhole_camera_rays_start_at_look_from() {
    let c = Camera::new(
        Vec3::new(Fixed::from_raw(i64::MIN), fx(2.0), fx(3.0)),
        v(0.0, 0.0, 0.0),
        v(0.0, 1.0, 0.0),
        fx(1.0),
        fx(1.5),
        fx(0.0),
        fx(10.0),
    );
    for _ in 0..20 {
        assert_eq!(c.get_ray(fx(0.3), fx(0.6)).origin, c.origin);
    }
    assert_eq!(c.origin.x.raw, i64::MIN);
}

#[test]
fn sharp_metal_absorbs_rays_leaving_along_the_normal() {
    let m = Material::Metal { attenuation: v(0.7, 0.6, 0.5), fuzziness: fx(0.0) };
    let n = v(0.0, 1.0, 0.0);
    let b = Bounce { sample: v(0.3, 0.3, 0.3), choice: fx(0.5) };
    let along = Ray::new(v(0.0, 0.0, 0.0), v(1.0, 1.0, 0.0));
    let (_, _, ok) = m.scatter_with(&along, n, v(0.0, 0.0, 0.0), b);
    assert!(!ok);
    let against = Ray::new(v(0.0, 2.0, 0.0), v(1.0, -1.0, 0.0));
    let (out, _, ok) = m.scatter_with(&against, n, v(0.0, 0.0, 0.0), b);
    assert!(ok);
    assert_eq!(out.direction, reflect(against.direction.unit(), n));
}
