//! Textures: what colour a surface has at a point.

use vstd::prelude::*;
use crate::material::Color;
use crate::vectors::Scalar;

verus! {

/// One colour everywhere.
#[derive(Clone, Copy, Debug, PartialEq, Eq, Structural)]
pub struct SolidColor {
    pub color: Color,
}

impl SolidColor {
    /// The colour at any point.
    pub fn color(&self) -> (r: Color)
        ensures
            r == self.color,
    {
        self.color
    }
}

/// Whether a point lies in an even cell of a checker pattern: the sum of the
/// numbers of its cell along the three axes is even.
pub open spec fn is_even_cell(x: i32, y: i32, z: i32) -> bool {
    (x + y + z) % 2 == 0
}

/// A checker pattern in space, of the textures `E` and `O` in turn.
#[derive(Debug)]
pub struct CheckerTexture<E, O> {
    /// One over the width of a cell.
    pub inv_scale: Scalar,
    pub even: E,
    pub odd: O,
}

impl<E, O> CheckerTexture<E, O> {
    /// The pattern with the given textures. `inv_scale` is one over the width
    /// of a cell.
    pub fn new(inv_scale: Scalar, even: E, odd: O) -> (r: Self)
        ensures
            r.inv_scale == inv_scale,
            r.even == even,
            r.odd == odd,
    {
        Self { inv_scale, even, odd }
    }

    /// Whether the cell with the given numbers along the three axes takes the
    /// even texture.
    pub fn is_even(x: i32, y: i32, z: i32) -> (r: bool)
        ensures
            r == is_even_cell(x, y, z),
    {
        let sum: i64 = x as i64 + y as i64 + z as i64;
        sum % 2 == 0
    }
}

/// Stepping to a neighbouring cell along any one axis changes the texture.
pub proof fn lemma_checker_alternates(x: i32, y: i32, z: i32)
    requires
        x < i32::MAX,
        y < i32::MAX,
        z < i32::MAX,
    ensures
        is_even_cell((x + 1) as i32, y, z) != is_even_cell(x, y, z),
        is_even_cell(x, (y + 1) as i32, z) != is_even_cell(x, y, z),
        is_even_cell(x, y, (z + 1) as i32) != is_even_cell(x, y, z),
{
}

} // verus!
