//! Spheres.

use vstd::prelude::*;
use crate::aabb::AABB;
use crate::hittable::Interval;
use crate::vectors::{Scalar, Vec3, ZERO};

verus! {

/// A sphere, with its material and its bounding box.
#[derive(Clone, Copy, Debug, PartialEq, Eq, Structural)]
pub struct Sphere {
    pub center: Vec3,
    pub radius: Scalar,
    /// The material, by its index in the scene's materials.
    pub material: usize,
    pub bbox: AABB,
}

impl Sphere {
    /// The ray parameter at which a ray hits a sphere within `interval`.
    ///
    /// With a negative discriminant the line of the ray misses the sphere.
    /// Otherwise it crosses the sphere at `near` and at `far`, which are
    /// looked at only then: the ray hits at the nearer crossing if that lies
    /// in the interval, else at the farther one if that does, else not at
    /// all.
    pub open spec fn root_spec(
        discriminant: Scalar,
        near: Scalar,
        far: Scalar,
        interval: Interval,
    ) -> Option<Scalar> {
        if discriminant < ZERO {
            None
        } else if interval.contains_spec(near) {
            Some(near)
        } else if interval.contains_spec(far) {
            Some(far)
        } else {
            None
        }
    }

    /// The sphere around `center`. Its bounding box is spanned by the corners
    /// `low` and `high`, the centre less and plus the radius on every axis, in
    /// either order.
    pub fn new(center: Vec3, radius: Scalar, material: usize, low: Vec3, high: Vec3) -> (r: Sphere)
        ensures
            r == (Sphere {
                center,
                radius,
                material,
                bbox: AABB { min: low.min_with(high), max: low.max_with(high) },
            }),
    {
        Sphere { center, radius, material, bbox: AABB::new(low, high) }
    }

    /// The ray parameter at which a ray hits a sphere within `interval`, as
    /// [`Sphere::root_spec`] says.
    pub fn root(discriminant: Scalar, near: Scalar, far: Scalar, interval: &Interval) -> (r: Option<
        Scalar,
    >)
        ensures
            r == Self::root_spec(discriminant, near, far, *interval),
    {
        if discriminant < ZERO {
            return None;
        }
        if interval.contains(near) {
            Some(near)
        } else if interval.contains(far) {
            Some(far)
        } else {
            None
        }
    }

    /// The box that holds the sphere.
    pub fn bounding_box(&self) -> (r: &AABB)
        ensures
            *r == self.bbox,
    {
        &self.bbox
    }
}

/// A ray that starts inside a sphere hits it at the farther crossing: the
/// nearer one lies behind the start of the interval.
pub proof fn lemma_inside_hits_far_root(
    discriminant: Scalar,
    near: Scalar,
    far: Scalar,
    interval: Interval,
)
    requires
        discriminant >= ZERO,
        near < interval.start <= far < interval.end,
    ensures
        Sphere::root_spec(discriminant, near, far, interval) == Some(far),
{
}

/// A hit on a sphere lies in the query interval, and it is the nearer
/// crossing whenever that one lies in the interval.
pub proof fn lemma_root_is_nearest_in_interval(
    discriminant: Scalar,
    near: Scalar,
    far: Scalar,
    interval: Interval,
)
    requires
        near <= far,
    ensures
        Sphere::root_spec(discriminant, near, far, interval) matches Some(t) ==> {
            &&& interval.contains_spec(t)
            &&& t == near || t == far
            &&& interval.contains_spec(near) ==> t == near
        },
        Sphere::root_spec(discriminant, near, far, interval) is None && discriminant >= ZERO ==> {
            !interval.contains_spec(near) && !interval.contains_spec(far)
        },
{
}

} // verus!
