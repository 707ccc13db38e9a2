//! The size of the picture.

use vstd::prelude::*;

verus! {

/// The width and the height of a picture, in pixels.
#[derive(Clone, Copy, Debug, PartialEq, Eq, Structural)]
pub struct Viewport {
    pub width: u32,
    pub height: u32,
}

} // verus!
