use rusticrayz::aabb::AABB;
use rusticrayz::hittable::Interval;
use rusticrayz::quad::{Quad, QuadBox, FACES};
use rusticrayz::sphere::Sphere;
use rusticrayz::texture::{CheckerTexture, SolidColor};
use rusticrayz::vectors::{Scalar, Vec3, INFINITY, NEG_INFINITY, ZERO};

fn key(x: f64) -> Scalar {
    assert!(!x.is_nan());
    if x == f64::INFINITY {
        INFINITY
    } else if x == f64::NEG_INFINITY {
        NEG_INFINITY
    } else if x >= 0.0 {
        x.abs().to_bits() as i64
    } else {
        -(x.abs().to_bits() as i64)
    }
}

fn crossing(t: f64, enters: bool) -> Scalar {
    if t.is_nan() {
        if enters {
            NEG_INFINITY
        } else {
            INFINITY
        }
    } else {
        key(t)
    }
}

type P = [f64; 3];

/// The slab test of the box from `lo` to `hi` for the ray from `orig` along `dir`.
fn box_hit(lo: P, hi: P, orig: P, dir: P, start: f64, end: f64) -> bool {
    let (mut t0, mut t1, mut inv) = ([0; 3], [0; 3], [0; 3]);
    for a in 0..3 {
        let inv_d = dir[a].recip();
        t0[a] = crossing((lo[a] - orig[a]) * inv_d, !(inv_d < 0.0));
        t1[a] = crossing((hi[a] - orig[a]) * inv_d, inv_d < 0.0);
        inv[a] = key(inv_d);
    }
    AABB::hit(
        &Vec3::new(t0[0], t0[1], t0[2]),
        &Vec3::new(t1[0], t1[1], t1[2]),
        &Vec3::new(inv[0], inv[1], inv[2]),
        &Interval::new(key(start), key(end)),
    )
}

const LO: P = [-1.0, -1.0, -1.0];
const HI: P = [1.0, 1.0, 1.0];

#[test]
fn zero_has_the_key_zero() {
    assert_eq!(key(0.0), ZERO);
    assert_eq!(key(-0.0), ZERO);
    assert!(key(-1e-300) < ZERO);
    assert!(key(1e-300) > ZERO);
}

#[test]
fn ray_along_x_through_the_interior_hits() {
    assert!(box_hit(LO, HI, [-5.0, 0.0, 0.0], [1.0, 0.0, 0.0], 0.001, f64::INFINITY));
    assert!(box_hit(LO, HI, [5.0, 0.5, -0.5], [-1.0, 0.0, 0.0], 0.001, f64::INFINITY));
}

#[test]
fn ray_along_y_through_the_interior_hits() {
    assert!(box_hit(LO, HI, [0.0, -5.0, 0.0], [0.0, 1.0, 0.0], 0.001, f64::INFINITY));
    assert!(box_hit(LO, HI, [0.3, 5.0, 0.3], [0.0, -2.0, 0.0], 0.001, f64::INFINITY));
}

#[test]
fn ray_along_z_through_the_interior_hits() {
    assert!(box_hit(LO, HI, [0.0, 0.0, -5.0], [0.0, 0.0, 1.0], 0.001, f64::INFINITY));
    assert!(box_hit(LO, HI, [-0.9, 0.9, 5.0], [0.0, 0.0, -0.5], 0.001, f64::INFINITY));
}

#[test]
fn axis_aligned_ray_beside_the_box_misses() {
    assert!(!box_hit(LO, HI, [-5.0, 2.0, 0.0], [1.0, 0.0, 0.0], 0.001, f64::INFINITY));
    assert!(!box_hit(LO, HI, [5.0, 0.0, -2.0], [-1.0, 0.0, 0.0], 0.001, f64::INFINITY));
    assert!(!box_hit(LO, HI, [0.0, -5.0, 1.5], [0.0, 1.0, 0.0], 0.001, f64::INFINITY));
    assert!(!box_hit(LO, HI, [-3.0, 5.0, 0.0], [0.0, -1.0, 0.0], 0.001, f64::INFINITY));
    assert!(!box_hit(LO, HI, [1.1, 0.0, -5.0], [0.0, 0.0, 1.0], 0.001, f64::INFINITY));
    assert!(!box_hit(LO, HI, [0.0, -1.1, 5.0], [0.0, 0.0, -1.0], 0.001, f64::INFINITY));
}

#[test]
fn ray_that_points_away_from_the_box_misses() {
    assert!(!box_hit(LO, HI, [-5.0, 0.0, 0.0], [-1.0, 0.0, 0.0], 0.001, f64::INFINITY));
    assert!(!box_hit(LO, HI, [0.0, 5.0, 0.0], [0.0, 1.0, 0.0], 0.001, f64::INFINITY));
    assert!(!box_hit(LO, HI, [0.0, 0.0, -5.0], [0.0, 0.0, -1.0], 0.001, f64::INFINITY));
}

#[test]
fn ray_within_a_face_plane_is_not_lost_to_a_crossing_that_is_no_number() {
    // The ray runs along x inside the plane y = 1: (1 - 1) * (1 / 0) is no number.
    assert!(box_hit(LO, HI, [-5.0, 1.0, 0.0], [1.0, 0.0, 0.0], 0.001, f64::INFINITY));
    assert!(box_hit(LO, HI, [5.0, -1.0, 0.0], [-1.0, 0.0, 0.0], 0.001, f64::INFINITY));
    assert!(box_hit(LO, HI, [-5.0, 1.0, 0.0], [1.0, -0.0, 0.0], 0.001, f64::INFINITY));
}

#[test]
fn box_beyond_the_interval_misses() {
    let (orig, dir) = ([-5.0, 0.0, 0.0], [1.0, 0.0, 0.0]);
    assert!(box_hit(LO, HI, orig, dir, 0.001, 4.5));
    assert!(!box_hit(LO, HI, orig, dir, 0.001, 4.0));
    assert!(!box_hit(LO, HI, orig, dir, 0.001, 3.0));
    assert!(box_hit(LO, HI, orig, dir, 5.5, 100.0));
    assert!(!box_hit(LO, HI, orig, dir, 6.0, 100.0));
    assert!(!box_hit(LO, HI, orig, dir, 5.0, 5.0));
}

#[test]
fn slanted_ray_must_be_inside_all_slabs_at_once() {
    assert!(box_hit(LO, HI, [-3.0, -3.0, -3.0], [1.0, 1.0, 1.0], 0.001, f64::INFINITY));
    assert!(box_hit(LO, HI, [3.0, 3.0, 3.0], [-1.0, -1.0, -1.0], 0.001, f64::INFINITY));
    // Crosses the x slab for t in (2, 4) but the y slab for t in (5, 7) only.
    assert!(!box_hit(LO, HI, [-3.0, -6.0, 0.0], [1.0, 1.0, 0.0], 0.001, f64::INFINITY));
}

#[test]
fn slab_test_on_keys_takes_the_later_entry_and_the_earlier_exit() {
    let within = Interval::new(0, 100);
    let forward = Vec3::new(1, 1, 1);
    assert!(AABB::hit(&Vec3::new(10, 20, 30), &Vec3::new(40, 50, 60), &forward, &within));
    assert!(!AABB::hit(&Vec3::new(10, 20, 40), &Vec3::new(40, 50, 60), &forward, &within));
    assert!(!AABB::hit(&Vec3::new(10, 20, 30), &Vec3::new(30, 50, 60), &forward, &within));
    let backward = Vec3::new(-1, 1, 1);
    assert!(AABB::hit(&Vec3::new(40, 20, 30), &Vec3::new(10, 50, 60), &backward, &within));
    assert!(!AABB::hit(&Vec3::new(40, 20, 30), &Vec3::new(10, 50, 60), &forward, &within));
    assert!(!AABB::hit(&Vec3::new(10, 20, 30), &Vec3::new(40, 50, 60), &forward, &Interval::new(0, 30)));
    assert!(AABB::hit(&Vec3::new(10, 20, 30), &Vec3::new(40, 50, 60), &forward, &Interval::new(39, 100)));
    assert!(!AABB::hit(&Vec3::new(10, 20, 30), &Vec3::new(40, 50, 60), &forward, &Interval::new(40, 100)));
    assert!(!AABB::hit(&Vec3::new(10, 20, 30), &Vec3::new(40, 50, 60), &forward, &Interval::new(7, 7)));
}

fn dot(a: P, b: P) -> f64 {
    a[0] * b[0] + a[1] * b[1] + a[2] * b[2]
}

/// The ray parameter at which the ray hits the sphere within `[start, end)`.
fn sphere_root(center: P, radius: f64, orig: P, dir: P, start: f64, end: f64) -> Option<Scalar> {
    let ac = [orig[0] - center[0], orig[1] - center[1], orig[2] - center[2]];
    let a = dot(dir, dir);
    let half_b = dot(dir, ac);
    let c = dot(ac, ac) - radius * radius;
    let discriminant = half_b * half_b - a * c;
    let sqrtd = discriminant.abs().sqrt();
    Sphere::root(
        key(discriminant),
        key((-half_b - sqrtd) / a),
        key((-half_b + sqrtd) / a),
        &Interval::new(key(start), key(end)),
    )
}

#[test]
fn ray_through_the_center_hits_at_distance_less_radius() {
    let t = sphere_root([0.0, 0.0, -5.0], 1.0, [0.0, 0.0, 0.0], [0.0, 0.0, -1.0], 0.001, f64::INFINITY);
    assert_eq!(t, Some(key(4.0)));
    let t = sphere_root([3.0, 4.0, 0.0], 2.0, [0.0, 0.0, 0.0], [0.6, 0.8, 0.0], 0.001, f64::INFINITY);
    assert_eq!(t, Some(key(3.0)));
}

#[test]
fn ray_from_inside_the_sphere_hits_the_far_root() {
    let t = sphere_root([0.0, 0.0, 0.0], 2.0, [0.0, 0.0, 0.0], [1.0, 0.0, 0.0], 0.001, f64::INFINITY);
    assert_eq!(t, Some(key(2.0)));
    let t = sphere_root([0.0, 0.0, 0.0], 2.0, [1.0, 0.0, 0.0], [-1.0, 0.0, 0.0], 0.001, f64::INFINITY);
    assert_eq!(t, Some(key(3.0)));
}

#[test]
fn ray_past_the_sphere_misses() {
    let t = sphere_root([0.0, 0.0, -5.0], 1.0, [0.0, 2.0, 0.0], [0.0, 0.0, -1.0], 0.001, f64::INFINITY);
    assert_eq!(t, None);
    let t = sphere_root([0.0, 0.0, -5.0], 1.0, [0.0, 0.0, 0.0], [0.0, 0.0, 1.0], 0.001, f64::INFINITY);
    assert_eq!(t, None);
}

#[test]
fn sphere_roots_outside_the_interval_do_not_count() {
    let (c, o, d) = ([0.0, 0.0, -5.0], [0.0, 0.0, 0.0], [0.0, 0.0, -1.0]);
    assert_eq!(sphere_root(c, 1.0, o, d, 0.001, 4.0), None);
    assert_eq!(sphere_root(c, 1.0, o, d, 4.0, 5.0), Some(key(4.0)));
    assert_eq!(sphere_root(c, 1.0, o, d, 4.5, 6.0), None);
    assert_eq!(sphere_root(c, 1.0, o, d, 4.5, 6.5), Some(key(6.0)));
    assert_eq!(sphere_root(c, 1.0, o, d, 6.5, f64::INFINITY), None);
}

#[test]
fn sphere_root_prefers_the_nearer_crossing() {
    let within = Interval::new(0, 100);
    assert_eq!(Sphere::root(5, 10, 20, &within), Some(10));
    assert_eq!(Sphere::root(0, 10, 20, &within), Some(10));
    assert_eq!(Sphere::root(-1, 10, 20, &within), None);
    assert_eq!(Sphere::root(5, -10, 20, &within), Some(20));
    assert_eq!(Sphere::root(5, -10, 100, &within), None);
    assert_eq!(Sphere::root(5, 0, 20, &within), Some(0));
}

#[test]
fn sphere_box_is_spanned_by_its_corners_in_either_order() {
    let s = Sphere::new(Vec3::new(5, 5, 5), 2, 3, Vec3::new(7, 7, 7), Vec3::new(3, 3, 3));
    assert_eq!(*s.bounding_box(), AABB { min: Vec3::new(3, 3, 3), max: Vec3::new(7, 7, 7) });
    assert_eq!((s.center, s.radius, s.material), (Vec3::new(5, 5, 5), 2, 3));
}

#[test]
fn quad_interior_includes_its_edges() {
    let unity = key(1.0);
    assert_eq!(Quad::is_interior(key(0.25), key(0.75), unity), Some((key(0.25), key(0.75))));
    assert_eq!(Quad::is_interior(key(0.0), key(1.0), unity), Some((key(0.0), key(1.0))));
    assert_eq!(Quad::is_interior(key(1.0), key(0.0), unity), Some((key(1.0), key(0.0))));
    assert_eq!(Quad::is_interior(key(-0.001), key(0.5), unity), None);
    assert_eq!(Quad::is_interior(key(0.5), key(1.001), unity), None);
    assert_eq!(Quad::is_interior(key(1.5), key(-0.5), unity), None);
}

#[test]
fn ray_parallel_to_a_quad_crosses_nowhere() {
    let within = Interval::new(key(0.001), INFINITY);
    let tolerance = key(1e-8);
    assert_eq!(Quad::crossing(key(0.0), tolerance, key(3.0), &within), None);
    assert_eq!(Quad::crossing(key(0.9e-8), tolerance, key(3.0), &within), None);
    assert_eq!(Quad::crossing(key(1e-8), tolerance, key(3.0), &within), Some(key(3.0)));
    assert_eq!(Quad::crossing(key(0.5), tolerance, key(3.0), &within), Some(key(3.0)));
}

#[test]
fn quad_crossing_counts_only_within_the_interval() {
    let tolerance = key(1e-8);
    let within = Interval::new(key(1.0), key(5.0));
    assert_eq!(Quad::crossing(key(1.0), tolerance, key(0.5), &within), None);
    assert_eq!(Quad::crossing(key(1.0), tolerance, key(1.0), &within), Some(key(1.0)));
    assert_eq!(Quad::crossing(key(1.0), tolerance, key(5.0), &within), None);
    assert_eq!(Quad::crossing(key(1.0), tolerance, key(-2.0), &within), None);
}

#[test]
fn quad_keeps_what_it_is_given() {
    let bbox = AABB::new(Vec3::new(0, 0, 0), Vec3::new(4, 4, 1));
    let q = Quad::new(
        Vec3::new(0, 0, 0),
        Vec3::new(4, 0, 0),
        Vec3::new(0, 4, 0),
        2,
        bbox,
        Vec3::new(0, 0, 1),
        0,
        Vec3::new(0, 0, 9),
    );
    assert_eq!(*q.bounding_box(), bbox);
    assert_eq!((q.material, q.d, q.normal), (2, 0, Vec3::new(0, 0, 1)));
}

#[test]
fn checker_cells_alternate() {
    assert!(CheckerTexture::<u8, u8>::is_even(0, 0, 0));
    assert!(!CheckerTexture::<u8, u8>::is_even(1, 0, 0));
    assert!(CheckerTexture::<u8, u8>::is_even(1, 1, 0));
    assert!(!CheckerTexture::<u8, u8>::is_even(1, 1, 1));
    assert!(!CheckerTexture::<u8, u8>::is_even(-1, 0, 0));
    assert!(CheckerTexture::<u8, u8>::is_even(-1, -1, 0));
    assert!(CheckerTexture::<u8, u8>::is_even(-3, 2, 1));
    assert!(!CheckerTexture::<u8, u8>::is_even(i32::MAX, i32::MAX, i32::MAX));
    assert!(CheckerTexture::<u8, u8>::is_even(i32::MIN, i32::MIN, 0));
}

#[test]
fn checker_and_solid_colour_keep_what_they_are_given() {
    let c = CheckerTexture::new(3, "even", "odd");
    assert_eq!((c.inv_scale, c.even, c.odd), (3, "even", "odd"));
    let s = SolidColor { color: Vec3::new(1, 2, 3) };
    assert_eq!(s.color(), Vec3::new(1, 2, 3));
}

fn flat_quad(at: i64) -> Quad {
    Quad::new(
        Vec3::new(at, 0, 0),
        Vec3::new(1, 0, 0),
        Vec3::new(0, 1, 0),
        0,
        AABB::new(Vec3::new(at, 0, 0), Vec3::new(at + 1, 1, 0)),
        Vec3::new(0, 0, 1),
        0,
        Vec3::new(0, 0, 1),
    )
}

#[test]
fn box_faces_start_from_the_corners_front_right_back_left_top_bottom() {
    let from = QuadBox::origins(Vec3::new(10, 2, 30), Vec3::new(1, 20, 3));
    assert_eq!(
        from,
        vec![
            Vec3::new(1, 2, 30),
            Vec3::new(10, 2, 30),
            Vec3::new(10, 2, 3),
            Vec3::new(1, 2, 3),
            Vec3::new(1, 20, 30),
            Vec3::new(1, 2, 3),
        ]
    );
    assert_eq!(from, QuadBox::origins(Vec3::new(1, 20, 3), Vec3::new(10, 2, 30)));
}

#[test]
fn box_needs_six_faces() {
    assert_eq!(FACES, 6);
    let (a, b) = (Vec3::new(5, 5, 5), Vec3::new(0, 0, 0));
    let six: Vec<Quad> = (0..6).map(flat_quad).collect();
    let cube = QuadBox::new(a, b, six.clone()).unwrap();
    assert_eq!(cube.objects, six);
    assert_eq!(*cube.bounding_box(), AABB { min: b, max: a });
    assert!(QuadBox::new(a, b, (0..5).map(flat_quad).collect()).is_none());
    assert!(QuadBox::new(a, b, (0..7).map(flat_quad).collect()).is_none());
    assert!(QuadBox::new(a, b, vec![]).is_none());
}

#[test]
fn near_zero_needs_every_component_within_the_tolerance() {
    let (low, high) = (key(-1e-8), key(1e-8));
    let near = |x: f64, y: f64, z: f64| Vec3::new(key(x), key(y), key(z)).near_zero(low, high);
    assert!(near(0.0, 0.0, 0.0));
    assert!(near(1e-8, -1e-8, 0.5e-8));
    assert!(near(-0.0, 1e-300, -1e-300));
    assert!(!near(1.1e-8, 0.0, 0.0));
    assert!(!near(0.0, -1.1e-8, 0.0));
    assert!(!near(0.0, 0.0, 1.0));
}
