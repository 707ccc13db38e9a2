//! Scalars as order keys, and triples of them.

use vstd::prelude::*;

verus! {

/// A measured quantity, kept as an order key: `a <= b` as keys exactly when
/// the quantities that they stand for are so ordered.
///
/// The caller chooses the encoding. It must preserve the order, and send zero
/// to [`ZERO`], positive infinity to [`INFINITY`] and negative infinity to
/// [`NEG_INFINITY`].
pub type Scalar = i64;

/// The key of zero.
pub const ZERO: Scalar = 0;

/// The key above every other: positive infinity.
pub const INFINITY: Scalar = 0x7fff_ffff_ffff_ffff;

/// The key below every other: negative infinity.
pub const NEG_INFINITY: Scalar = -0x8000_0000_0000_0000;

/// The smaller of two keys.
pub open spec fn min_key(a: Scalar, b: Scalar) -> Scalar {
    if a <= b {
        a
    } else {
        b
    }
}

/// The larger of two keys.
pub open spec fn max_key(a: Scalar, b: Scalar) -> Scalar {
    if a >= b {
        a
    } else {
        b
    }
}

/// A point or a direction: one key per axis.
#[derive(Clone, Copy, Debug, PartialEq, Eq, Structural)]
pub struct Vec3 {
    pub x: Scalar,
    pub y: Scalar,
    pub z: Scalar,
}

impl Vec3 {
    /// The component on axis `a`: 0 is x, 1 is y, anything else is z.
    pub open spec fn at(self, a: int) -> Scalar {
        if a == 0 {
            self.x
        } else if a == 1 {
            self.y
        } else {
            self.z
        }
    }

    /// The component-wise minimum.
    pub open spec fn min_with(self, rhs: Vec3) -> Vec3 {
        Vec3 { x: min_key(self.x, rhs.x), y: min_key(self.y, rhs.y), z: min_key(self.z, rhs.z) }
    }

    /// The component-wise maximum.
    pub open spec fn max_with(self, rhs: Vec3) -> Vec3 {
        Vec3 { x: max_key(self.x, rhs.x), y: max_key(self.y, rhs.y), z: max_key(self.z, rhs.z) }
    }

    /// Whether every component of `self` is at most that of `rhs`.
    pub open spec fn le_all(self, rhs: Vec3) -> bool {
        self.x <= rhs.x && self.y <= rhs.y && self.z <= rhs.z
    }

    /// Whether every component lies between `low` and `high`, ends included.
    pub open spec fn within(self, low: Scalar, high: Scalar) -> bool {
        low <= self.x <= high && low <= self.y <= high && low <= self.z <= high
    }

    /// The largest of the three components.
    pub open spec fn max_element_spec(self) -> Scalar {
        max_key(max_key(self.x, self.y), self.z)
    }

    pub fn new(x: Scalar, y: Scalar, z: Scalar) -> (r: Vec3)
        ensures
            r == (Vec3 { x, y, z }),
    {
        Vec3 { x, y, z }
    }

    /// The vector with all three components equal to `v`.
    pub fn splat(v: Scalar) -> (r: Vec3)
        ensures
            r == (Vec3 { x: v, y: v, z: v }),
    {
        Vec3 { x: v, y: v, z: v }
    }

    /// The component on axis `a`.
    pub fn axis(&self, a: usize) -> (r: Scalar)
        requires
            a < 3,
        ensures
            r == self.at(a as int),
    {
        if a == 0 {
            self.x
        } else if a == 1 {
            self.y
        } else {
            self.z
        }
    }

    /// The component-wise minimum of two vectors.
    pub fn min(self, rhs: Vec3) -> (r: Vec3)
        ensures
            r == self.min_with(rhs),
    {
        Vec3 {
            x: if self.x <= rhs.x { self.x } else { rhs.x },
            y: if self.y <= rhs.y { self.y } else { rhs.y },
            z: if self.z <= rhs.z { self.z } else { rhs.z },
        }
    }

    /// The component-wise maximum of two vectors.
    pub fn max(self, rhs: Vec3) -> (r: Vec3)
        ensures
            r == self.max_with(rhs),
    {
        Vec3 {
            x: if self.x >= rhs.x { self.x } else { rhs.x },
            y: if self.y >= rhs.y { self.y } else { rhs.y },
            z: if self.z >= rhs.z { self.z } else { rhs.z },
        }
    }

    /// Whether the vector is all but zero: no component lies further from
    /// zero than the tolerance. `low` and `high` are the tolerance below and
    /// above zero.
    pub fn near_zero(&self, low: Scalar, high: Scalar) -> (r: bool)
        ensures
            r == self.within(low, high),
    {
        low <= self.x && self.x <= high && low <= self.y && self.y <= high && low <= self.z
            && self.z <= high
    }

    /// The largest component.
    pub fn max_element(self) -> (r: Scalar)
        ensures
            r == self.max_element_spec(),
            r >= self.x && r >= self.y && r >= self.z,
            r == self.x || r == self.y || r == self.z,
    {
        let m: Scalar = if self.x >= self.y { self.x } else { self.y };
        if m >= self.z {
            m
        } else {
            self.z
        }
    }
}

} // verus!
