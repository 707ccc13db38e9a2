use rusticrayz::aabb::AABB;
use rusticrayz::vectors::{Vec3, INFINITY, NEG_INFINITY};

fn v(x: i64, y: i64, z: i64) -> Vec3 {
    Vec3::new(x, y, z)
}

fn sample_boxes() -> Vec<AABB> {
    vec![
        AABB::new(v(0, 0, 0), v(1, 1, 1)),
        AABB::new(v(-5, 2, 7), v(3, -4, 9)),
        AABB::new(v(10, 10, 10), v(10, 10, 10)),
        AABB::new(v(-100, -100, -100), v(100, 100, 100)),
        AABB::empty(),
        AABB { min: v(3, 0, 0), max: v(1, 5, 5) },
    ]
}

#[test]
fn empty_box_runs_from_positive_to_negative_infinity() {
    let e = AABB::empty();
    assert_eq!(e.min, Vec3::splat(INFINITY));
    assert_eq!(e.max, Vec3::splat(NEG_INFINITY));
    assert!(e.is_empty());
    assert_eq!(AABB::default(), e);
}

#[test]
fn new_orders_the_corners_on_every_axis() {
    let b = AABB::new(v(5, -2, 9), v(1, 4, 3));
    assert_eq!(b.min, v(1, -2, 3));
    assert_eq!(b.max, v(5, 4, 9));
    assert_eq!(AABB::new(v(1, 4, 3), v(5, -2, 9)), b);
}

#[test]
fn merge_with_empty_is_identity() {
    for a in sample_boxes() {
        assert_eq!(a.merge(&AABB::empty()), a);
        assert_eq!(AABB::empty().merge(&a), a);
    }
}

#[test]
fn merge_is_commutative() {
    for a in sample_boxes() {
        for b in sample_boxes() {
            assert_eq!(a.merge(&b), b.merge(&a));
        }
    }
}

#[test]
fn merge_is_associative() {
    for a in sample_boxes() {
        for b in sample_boxes() {
            for c in sample_boxes() {
                assert_eq!(a.merge(&b).merge(&c), a.merge(&b.merge(&c)));
            }
        }
    }
}

#[test]
fn merge_takes_least_and_greatest_coordinates() {
    let a = AABB::new(v(0, 0, 0), v(2, 2, 2));
    let b = AABB::new(v(-1, 1, 1), v(1, 5, 2));
    let m = a.merge(&b);
    assert_eq!(m.min, v(-1, 0, 0));
    assert_eq!(m.max, v(2, 5, 2));
}

#[test]
fn merge_with_enclosed_box_changes_nothing() {
    let a = AABB::new(v(0, 0, 0), v(10, 10, 10));
    let inner = AABB::new(v(2, 3, 4), v(5, 6, 7));
    assert_eq!(a.merge(&inner), a);
    assert_eq!(a.merge(&a), a);
    assert_eq!(a.grow(v(3, 3, 3)), a);
}

#[test]
fn grow_extends_to_the_point() {
    let a = AABB::new(v(0, 0, 0), v(1, 1, 1));
    let g = a.grow(v(5, -3, 1));
    assert_eq!(g.min, v(0, -3, 0));
    assert_eq!(g.max, v(5, 1, 1));
    assert!(g.contains(&v(5, -3, 1)));
    let from_nothing = AABB::empty().grow(v(7, 8, 9));
    assert_eq!(from_nothing, AABB { min: v(7, 8, 9), max: v(7, 8, 9) });
}

#[test]
fn contains_includes_the_faces() {
    let a = AABB::new(v(0, 0, 0), v(4, 4, 4));
    assert!(a.contains(&v(0, 0, 0)));
    assert!(a.contains(&v(4, 4, 4)));
    assert!(a.contains(&v(2, 0, 4)));
    assert!(!a.contains(&v(5, 2, 2)));
    assert!(!a.contains(&v(2, -1, 2)));
    assert!(!a.contains(&v(2, 2, 5)));
}

#[test]
fn empty_box_contains_no_point() {
    let e = AABB::empty();
    assert!(!e.contains(&v(0, 0, 0)));
    assert!(!e.contains(&Vec3::splat(INFINITY)));
    assert!(!e.contains(&Vec3::splat(NEG_INFINITY)));
}

#[test]
fn is_empty_needs_every_axis_inverted() {
    assert!(AABB { min: v(1, 1, 1), max: v(0, 0, 0) }.is_empty());
    assert!(!AABB { min: v(1, 0, 0), max: v(0, 5, 5) }.is_empty());
    assert!(!AABB::new(v(0, 0, 0), v(0, 0, 0)).is_empty());
    assert!(!AABB::new(v(0, 0, 0), v(1, 1, 1)).is_empty());
}

#[test]
fn largest_axis_prefers_the_first_axis_on_a_tie() {
    assert_eq!(AABB::largest_axis(&v(3, 2, 1)), 0);
    assert_eq!(AABB::largest_axis(&v(1, 3, 2)), 1);
    assert_eq!(AABB::largest_axis(&v(1, 2, 3)), 2);
    assert_eq!(AABB::largest_axis(&v(5, 5, 5)), 0);
    assert_eq!(AABB::largest_axis(&v(1, 5, 5)), 1);
    assert_eq!(AABB::largest_axis(&v(5, 1, 5)), 0);
    assert_eq!(AABB::largest_axis(&v(-3, -2, -1)), 2);
}

#[test]
fn corners_come_in_x_major_order() {
    let b = AABB { min: v(0, 10, 20), max: v(1, 11, 21) };
    let corners = b.corners();
    assert_eq!(
        corners,
        vec![
            v(0, 10, 20),
            v(0, 10, 21),
            v(0, 11, 20),
            v(0, 11, 21),
            v(1, 10, 20),
            v(1, 10, 21),
            v(1, 11, 20),
            v(1, 11, 21),
        ]
    );
}

#[test]
fn enclosing_spans_the_extrema_of_the_points() {
    let points = vec![v(3, -1, 4), v(-2, 7, 4), v(0, 0, 9)];
    let b = AABB::enclosing(&points);
    assert_eq!(b.min, v(-2, -1, 4));
    assert_eq!(b.max, v(3, 7, 9));
    let one = AABB::enclosing(&[v(1, 2, 3)]);
    assert_eq!(one, AABB { min: v(1, 2, 3), max: v(1, 2, 3) });
}

#[test]
fn enclosing_the_corners_of_a_box_gives_the_box_back() {
    let b = AABB::new(v(-4, 2, 0), v(6, 3, 8));
    assert_eq!(AABB::enclosing(&b.corners()), b);
}

#[test]
fn enclosing_no_points_is_the_whole_space() {
    let b = AABB::enclosing(&[]);
    assert_eq!(b.min, Vec3::splat(NEG_INFINITY));
    assert_eq!(b.max, Vec3::splat(INFINITY));
}

#[test]
fn vector_minimum_and_maximum_work_by_component() {
    let a = v(1, 8, -3);
    let b = v(4, 2, -3);
    assert_eq!(a.min(b), v(1, 2, -3));
    assert_eq!(a.max(b), v(4, 8, -3));
    assert_eq!(a.max_element(), 8);
    assert_eq!(a.axis(0), 1);
    assert_eq!(a.axis(1), 8);
    assert_eq!(a.axis(2), -3);
}
