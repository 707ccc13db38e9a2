//! Planar quadrilaterals.

use vstd::prelude::*;
use crate::aabb::AABB;
use crate::hittable::Interval;
use crate::vectors::{Scalar, Vec3, ZERO};

verus! {

/// A parallelogram: the corner `q` and the two edges `u` and `v` that leave
/// it, with what is derived from them once.
#[derive(Clone, Copy, Debug, PartialEq, Eq, Structural)]
pub struct Quad {
    pub q: Vec3,
    pub u: Vec3,
    pub v: Vec3,
    /// The material, by its index in the scene's materials.
    pub material: usize,
    pub bbox: AABB,
    /// The unit normal of the plane.
    pub normal: Vec3,
    /// The offset of the plane: `normal . p == d` for every point `p` of it.
    pub d: Scalar,
    /// The vector that maps a point of the plane to its coordinates along `u`
    /// and `v`.
    pub w: Vec3,
}

impl Quad {
    /// Where a ray crosses the plane of a quad within `interval`, if it does.
    ///
    /// `steepness` is the magnitude of the dot product of the plane's normal
    /// and the ray's direction: below `tolerance` the ray counts as parallel
    /// to the plane and crosses it nowhere, as it does for a quad whose edges
    /// span no plane. Otherwise it crosses at `t`, which counts only within
    /// the interval.
    pub open spec fn crossing_spec(
        steepness: Scalar,
        tolerance: Scalar,
        t: Scalar,
        interval: Interval,
    ) -> Option<Scalar> {
        if steepness < tolerance || !interval.contains_spec(t) {
            None
        } else {
            Some(t)
        }
    }

    /// The surface coordinates of a point of the plane, given by its
    /// coordinates along the two edges, if the point lies on the quad: both
    /// coordinates lie between zero and `unity`, the key of one, ends
    /// included.
    pub open spec fn is_interior_spec(a: Scalar, b: Scalar, unity: Scalar) -> Option<
        (Scalar, Scalar),
    > {
        if ZERO <= a <= unity && ZERO <= b <= unity {
            Some((a, b))
        } else {
            None
        }
    }

    /// The quad with the given corner, edges and derived quantities.
    pub fn new(
        q: Vec3,
        u: Vec3,
        v: Vec3,
        material: usize,
        bbox: AABB,
        normal: Vec3,
        d: Scalar,
        w: Vec3,
    ) -> (r: Quad)
        ensures
            r == (Quad { q, u, v, material, bbox, normal, d, w }),
    {
        Quad { q, u, v, material, bbox, normal, d, w }
    }

    /// Where a ray crosses the plane of a quad within `interval`, as
    /// [`Quad::crossing_spec`] says.
    pub fn crossing(steepness: Scalar, tolerance: Scalar, t: Scalar, interval: &Interval) -> (r:
        Option<Scalar>)
        ensures
            r == Self::crossing_spec(steepness, tolerance, t, *interval),
    {
        if steepness < tolerance {
            return None;
        }
        if !interval.contains(t) {
            return None;
        }
        Some(t)
    }

    /// The surface coordinates of a point of the plane if it lies on the quad,
    /// as [`Quad::is_interior_spec`] says.
    pub fn is_interior(a: Scalar, b: Scalar, unity: Scalar) -> (r: Option<(Scalar, Scalar)>)
        ensures
            r == Self::is_interior_spec(a, b, unity),
    {
        if !(ZERO <= a && a <= unity) || !(ZERO <= b && b <= unity) {
            return None;
        }
        Some((a, b))
    }

    /// The box that holds the quad.
    pub fn bounding_box(&self) -> (r: &AABB)
        ensures
            *r == self.bbox,
    {
        &self.bbox
    }
}

/// The number of faces of a box.
pub const FACES: usize = 6;

/// A closed box made of six quads.
#[derive(Debug)]
pub struct QuadBox {
    /// The faces: front, right, back, left, top, bottom.
    pub objects: Vec<Quad>,
    pub bbox: AABB,
}

impl QuadBox {
    /// The corners from which the six faces of the box between `a` and `b`
    /// are spanned, in the order front, right, back, left, top, bottom.
    pub open spec fn origins_spec(a: Vec3, b: Vec3) -> Seq<Vec3> {
        let min = a.min_with(b);
        let max = a.max_with(b);
        seq![
            Vec3 { x: min.x, y: min.y, z: max.z },
            Vec3 { x: max.x, y: min.y, z: max.z },
            Vec3 { x: max.x, y: min.y, z: min.z },
            Vec3 { x: min.x, y: min.y, z: min.z },
            Vec3 { x: min.x, y: max.y, z: max.z },
            Vec3 { x: min.x, y: min.y, z: min.z },
        ]
    }

    /// The corners from which the six faces are spanned, as
    /// [`QuadBox::origins_spec`] says. `a` and `b` are two opposite corners of
    /// the box, in either order.
    pub fn origins(a: Vec3, b: Vec3) -> (r: Vec<Vec3>)
        ensures
            r@ == Self::origins_spec(a, b),
    {
        let min = a.min(b);
        let max = a.max(b);
        let mut r: Vec<Vec3> = Vec::new();
        r.push(Vec3 { x: min.x, y: min.y, z: max.z });
        r.push(Vec3 { x: max.x, y: min.y, z: max.z });
        r.push(Vec3 { x: max.x, y: min.y, z: min.z });
        r.push(Vec3 { x: min.x, y: min.y, z: min.z });
        r.push(Vec3 { x: min.x, y: max.y, z: max.z });
        r.push(Vec3 { x: min.x, y: min.y, z: min.z });
        assert(r@ =~= Self::origins_spec(a, b));
        r
    }

    /// The box between the opposite corners `a` and `b` with the given faces;
    /// `None` unless there are six of them.
    pub fn new(a: Vec3, b: Vec3, sides: Vec<Quad>) -> (r: Option<QuadBox>)
        ensures
            r is Some <==> sides@.len() == FACES,
            r matches Some(q) ==> q.objects@ == sides@ && q.bbox == (AABB {
                min: a.min_with(b),
                max: a.max_with(b),
            }),
    {
        if sides.len() != FACES {
            return None;
        }
        Some(QuadBox { objects: sides, bbox: AABB::new(a, b) })
    }

    /// The box that holds the six faces.
    pub fn bounding_box(&self) -> (r: &AABB)
        ensures
            *r == self.bbox,
    {
        &self.bbox
    }
}

/// Every corner from which a face is spanned is a corner of the box.
pub proof fn lemma_origins_are_corners(a: Vec3, b: Vec3, i: int)
    requires
        0 <= i < FACES,
    ensures
        QuadBox::origins_spec(a, b).len() == FACES,
        (AABB { min: a.min_with(b), max: a.max_with(b) }).contains_spec(
            QuadBox::origins_spec(a, b)[i],
        ),
{
}

} // verus!
