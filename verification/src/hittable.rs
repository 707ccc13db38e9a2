//! Hit records, query intervals, and the selection of the closest hit.

use vstd::prelude::*;
use crate::aabb::{hull_of, AABB};
use crate::vectors::{Scalar, Vec3};

verus! {

/// The ray parameters from `start`, included, to `end`, excluded.
#[derive(Clone, Copy, Debug, PartialEq, Eq, Structural)]
pub struct Interval {
    pub start: Scalar,
    pub end: Scalar,
}

impl Interval {
    /// Whether `t` lies in the interval.
    pub open spec fn contains_spec(self, t: Scalar) -> bool {
        self.start <= t < self.end
    }

    pub fn new(start: Scalar, end: Scalar) -> (r: Interval)
        ensures
            r == (Interval { start, end }),
    {
        Interval { start, end }
    }

    /// Whether `t` lies in the interval.
    pub fn contains(&self, t: Scalar) -> (r: bool)
        ensures
            r == self.contains_spec(t),
    {
        self.start <= t && t < self.end
    }
}

/// Where a ray meets a surface.
#[derive(Clone, Copy, Debug, PartialEq, Eq, Structural)]
pub struct HitRecord {
    /// The point of intersection.
    pub point: Vec3,
    /// The surface normal, turned against the ray.
    pub normal: Vec3,
    /// The ray parameter of the intersection.
    pub t: Scalar,
    /// The surface coordinates of the intersection.
    pub u: Scalar,
    pub v: Scalar,
    /// Whether the ray met the surface from outside.
    pub front_face: bool,
    /// The material at the point, by its index in the scene's materials.
    pub material: usize,
}

impl HitRecord {
    /// The record of a hit, with the normal turned against the ray.
    ///
    /// `facing` is the dot product of the ray's direction and the outward
    /// normal: below zero, the ray comes from outside and the outward normal
    /// is kept; otherwise the ray comes from inside and the normal is the
    /// inward one. Zero is the key 0.
    pub fn with_face_normal(
        point: Vec3,
        outward_normal: Vec3,
        inward_normal: Vec3,
        t: Scalar,
        u: Scalar,
        v: Scalar,
        facing: Scalar,
        material: usize,
    ) -> (r: HitRecord)
        ensures
            r == (HitRecord {
                point,
                normal: if facing < 0 {
                    outward_normal
                } else {
                    inward_normal
                },
                t,
                u,
                v,
                front_face: facing < 0,
                material,
            }),
    {
        let front_face = facing < 0;
        let normal = if front_face {
            outward_normal
        } else {
            inward_normal
        };
        HitRecord { point, normal, t, u, v, front_face, material }
    }
}

/// The closest hit found so far within a query interval.
///
/// Each shape is asked for a hit within [`Closest::interval`], which ends at
/// the closest hit so far, and its answer is handed to [`Closest::offer`]: so
/// a later shape wins only with a closer hit.
#[derive(Clone, Copy, Debug, PartialEq, Eq, Structural)]
pub struct Closest {
    /// Where the query interval starts.
    pub start: Scalar,
    /// The parameter of the closest hit so far; the end of the query interval
    /// while there is none.
    pub end: Scalar,
    /// The closest hit so far.
    pub hit: Option<HitRecord>,
}

impl Closest {
    /// The search as it stands after a shape has answered `hit`: a hit
    /// replaces what was found before, no hit changes nothing.
    pub open spec fn offer_spec(self, hit: Option<HitRecord>) -> Closest {
        match hit {
            Some(h) => Closest { start: self.start, end: h.t, hit: Some(h) },
            None => self,
        }
    }

    /// A search within `interval`, with nothing found yet.
    pub fn new(interval: &Interval) -> (r: Closest)
        ensures
            r == (Closest { start: interval.start, end: interval.end, hit: None }),
    {
        Closest { start: interval.start, end: interval.end, hit: None }
    }

    /// The interval within which the next shape is asked for a hit.
    pub fn interval(&self) -> (r: Interval)
        ensures
            r == (Interval { start: self.start, end: self.end }),
    {
        Interval { start: self.start, end: self.end }
    }

    /// Takes the answer of a shape that was asked within
    /// [`Closest::interval`].
    pub fn offer(&mut self, hit: Option<HitRecord>)
        ensures
            *final(self) == old(self).offer_spec(hit),
    {
        match hit {
            Some(h) => {
                self.end = h.t;
                self.hit = Some(h);
            },
            None => {},
        }
    }
}

/// The smallest box that holds all of `boxes`.
pub open spec fn merge_all(boxes: Seq<AABB>) -> AABB
    decreases boxes.len(),
{
    if boxes.len() == 0 {
        AABB::empty_spec()
    } else {
        merge_all(boxes.drop_last()).merge_spec(boxes.last())
    }
}

/// A list of objects with the joint box of all the objects that were ever put
/// into it.
pub struct HittableList<T> {
    pub objects: Vec<T>,
    pub bbox: AABB,
}

impl<T> HittableList<T> {
    /// The empty list, with the empty box.
    pub fn new() -> (r: Self)
        ensures
            r.objects@.len() == 0,
            r.bbox == AABB::empty_spec(),
    {
        Self { objects: Vec::new(), bbox: AABB::empty() }
    }

    /// The list of `objects`, where `boxes` holds the bounding box of each;
    /// `None` where there is not one box for each object.
    pub fn from_vec(objects: Vec<T>, boxes: &[AABB]) -> (r: Option<Self>)
        ensures
            r is Some <==> boxes@.len() == objects@.len(),
            r matches Some(list) ==> list.objects@ == objects@ && list.bbox == merge_all(boxes@),
    {
        if boxes.len() != objects.len() {
            return None;
        }
        let mut bbox = AABB::default();
        let mut i: usize = 0;
        while i < boxes.len()
            invariant
                i <= boxes@.len(),
                bbox == merge_all(boxes@.take(i as int)),
            decreases boxes@.len() - i,
        {
            proof {
                assert(boxes@.take(i as int + 1).drop_last() == boxes@.take(i as int));
            }
            bbox = bbox.merge(&boxes[i]);
            i += 1;
        }
        proof {
            assert(boxes@.take(boxes@.len() as int) == boxes@);
        }
        Some(Self { objects, bbox })
    }

    /// Removes every object. The box stays as it is.
    pub fn clear(&mut self)
        ensures
            final(self).objects@.len() == 0,
            final(self).bbox == old(self).bbox,
    {
        self.objects.clear();
    }

    /// Appends an object whose bounding box is `bbox`.
    pub fn add(&mut self, object: T, bbox: &AABB)
        ensures
            final(self).objects@ == old(self).objects@.push(object),
            final(self).bbox == old(self).bbox.merge_spec(*bbox),
    {
        self.bbox = self.bbox.merge(bbox);
        self.objects.push(object);
    }

    /// The box that holds every object of the list.
    pub fn bounding_box(&self) -> (r: &AABB)
        ensures
            *r == self.bbox,
    {
        &self.bbox
    }
}

/// An object moved by an offset.
pub struct Translate<T> {
    pub object: T,
    pub offset: Vec3,
    /// The box of the moved object.
    pub bbox: AABB,
}

impl<T> Translate<T> {
    /// The object moved by `displacement`. `bbox` is the box of the object,
    /// moved likewise.
    pub fn new(object: T, displacement: Vec3, bbox: AABB) -> (r: Self)
        ensures
            r.object == object,
            r.offset == displacement,
            r.bbox == bbox,
    {
        Self { object, offset: displacement, bbox }
    }

    /// The box that holds the moved object.
    pub fn bounding_box(&self) -> (r: &AABB)
        ensures
            *r == self.bbox,
    {
        &self.bbox
    }
}

/// An object turned about the vertical axis.
pub struct RotateY<T> {
    pub object: T,
    /// The sine and the cosine of the angle.
    pub sin_theta: Scalar,
    pub cos_theta: Scalar,
    /// The box of the turned object.
    pub bbox: AABB,
}

impl<T> RotateY<T> {
    /// The object turned by the angle whose sine and cosine are given.
    ///
    /// `turned` holds the corners of the object's box, each turned by that
    /// angle: the box of the turned object is the smallest box that holds
    /// them all. At least one corner is needed.
    pub fn new(object: T, sin_theta: Scalar, cos_theta: Scalar, turned: &[Vec3]) -> (r: Option<
        Self,
    >)
        ensures
            r is Some <==> turned@.len() > 0,
            r matches Some(rotated) ==> {
                &&& rotated.object == object
                &&& rotated.sin_theta == sin_theta
                &&& rotated.cos_theta == cos_theta
                &&& rotated.bbox == hull_of(turned@)
            },
    {
        if turned.len() == 0 {
            return None;
        }
        Some(Self { object, sin_theta, cos_theta, bbox: AABB::enclosing(turned) })
    }

    /// The box that holds the turned object.
    pub fn bounding_box(&self) -> (r: &AABB)
        ensures
            *r == self.bbox,
    {
        &self.bbox
    }
}

} // verus!
