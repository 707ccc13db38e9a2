//! What a material does with a ray: the scattered ray and its attenuation.
//!
//! Directions, colours and probabilities are measured by the caller; a
//! material decides which of them make up the outcome.

use vstd::prelude::*;
use crate::hittable::HitRecord;
use crate::ray::Ray;
use crate::vectors::{Scalar, Vec3};

verus! {

/// A colour, one key per channel.
pub type Color = Vec3;

/// A scattered ray and the share of its light that is passed on.
#[derive(Clone, Copy, Debug, PartialEq, Eq, Structural)]
pub struct Scattered {
    pub ray: Ray,
    pub attenuation: Color,
}

/// The ray that leaves the hit point in `direction`, with `attenuation`.
pub open spec fn scattered_from(hit: HitRecord, direction: Vec3, attenuation: Color) -> Scattered {
    Scattered { ray: Ray { orig: hit.point, dir: direction }, attenuation }
}

/// A diffuse surface with the albedo `T`, a texture.
#[derive(Clone, Debug)]
pub struct Lambertian<T> {
    pub albedo: T,
}

impl<T> Lambertian<T> {
    pub fn new(albedo: T) -> (r: Self)
        ensures
            r.albedo == albedo,
    {
        Self { albedo }
    }

    /// Scatters a ray at `hit`.
    ///
    /// `candidate` is the surface normal plus a random unit vector, and
    /// `near_zero` says whether the two have all but cancelled: then the ray
    /// leaves along the normal itself. `attenuation` is the albedo at the hit
    /// point.
    pub fn scatter(
        &self,
        hit: &HitRecord,
        candidate: Vec3,
        near_zero: bool,
        attenuation: Color,
    ) -> (r: Option<Scattered>)
        ensures
            r == Some(
                scattered_from(
                    *hit,
                    if near_zero {
                        hit.normal
                    } else {
                        candidate
                    },
                    attenuation,
                ),
            ),
    {
        let direction = if near_zero {
            hit.normal
        } else {
            candidate
        };
        Some(Scattered { ray: Ray::new(hit.point, direction), attenuation })
    }
}

impl Lambertian<Color> {
    /// The diffuse surface of one colour.
    pub fn from_color(albedo: Color) -> (r: Self)
        ensures
            r.albedo == albedo,
    {
        Self { albedo }
    }
}

/// A mirror, blurred by `fuzz`.
#[derive(Clone, Copy, Debug, PartialEq, Eq, Structural)]
pub struct Metallic {
    pub albedo: Color,
    pub fuzz: Scalar,
}

impl Metallic {
    /// Scatters a ray at `hit` into `direction`: the reflected direction plus
    /// `fuzz` times a random unit vector. A direction that points into the
    /// surface is kept as it is.
    pub fn scatter(&self, hit: &HitRecord, direction: Vec3) -> (r: Option<Scattered>)
        ensures
            r == Some(scattered_from(*hit, direction, self.albedo)),
    {
        Some(Scattered { ray: Ray::new(hit.point, direction), attenuation: self.albedo })
    }
}

/// A clear material that bends light, such as glass.
#[derive(Clone, Copy, Debug, PartialEq, Eq, Structural)]
pub struct Dielectric {
    pub refraction_idx: Scalar,
}

impl Dielectric {
    /// The ratio of refraction for a ray at a hit: `inverse`, which is one
    /// over the index, where the ray enters from outside; the index itself
    /// where it leaves from inside.
    pub fn refraction_ratio(&self, front_face: bool, inverse: Scalar) -> (r: Scalar)
        ensures
            r == if front_face {
                inverse
            } else {
                self.refraction_idx
            },
    {
        if front_face {
            inverse
        } else {
            self.refraction_idx
        }
    }

    /// Whether a ray is reflected rather than refracted.
    ///
    /// `bend` is the ratio of refraction times the sine of the angle of
    /// incidence: above `unity`, the key of one, no refracted ray exists.
    /// Otherwise the ray is reflected where `reflectance` exceeds `sample`, a
    /// random number between zero and one.
    pub fn reflects(bend: Scalar, unity: Scalar, reflectance: Scalar, sample: Scalar) -> (r: bool)
        ensures
            r == (bend > unity || reflectance > sample),
    {
        bend > unity || reflectance > sample
    }

    /// Scatters a ray at `hit` into `direction`. Nothing is absorbed: the
    /// attenuation is `white`.
    pub fn scatter(hit: &HitRecord, direction: Vec3, white: Color) -> (r: Option<Scattered>)
        ensures
            r == Some(scattered_from(*hit, direction, white)),
    {
        Some(Scattered { ray: Ray::new(hit.point, direction), attenuation: white })
    }
}

/// A light: a surface that emits and scatters nothing.
#[derive(Debug)]
pub struct DiffuseLight<T> {
    pub emit: T,
}

impl<T> DiffuseLight<T> {
    pub fn new(emit: T) -> (r: Self)
        ensures
            r.emit == emit,
    {
        Self { emit }
    }

    /// A light scatters no ray.
    pub fn scatter(&self, hit: &HitRecord) -> (r: Option<Scattered>)
        ensures
            r is None,
    {
        None
    }
}

impl DiffuseLight<Color> {
    /// The light of one colour.
    pub fn from_color(emit: Color) -> (r: Self)
        ensures
            r.emit == emit,
    {
        Self { emit }
    }

    /// What the light emits: its colour, wherever it is hit.
    pub fn emitted(&self) -> (r: Color)
        ensures
            r == self.emit,
    {
        self.emit
    }
}

/// Every scattered ray starts exactly at the hit point.
pub proof fn lemma_scatter_starts_at_hit(hit: HitRecord, direction: Vec3, attenuation: Color)
    ensures
        scattered_from(hit, direction, attenuation).ray.orig == hit.point,
{
}

} // verus!
