//! Rays, and the control of a light path.

use vstd::prelude::*;
use crate::vectors::Vec3;

verus! {

/// A ray: the points `orig + t * dir`.
#[derive(Clone, Copy, Debug, PartialEq, Eq, Structural)]
pub struct Ray {
    pub orig: Vec3,
    pub dir: Vec3,
}

impl Ray {
    pub fn new(orig: Vec3, dir: Vec3) -> (r: Ray)
        ensures
            r == (Ray { orig, dir }),
    {
        Ray { orig, dir }
    }
}

/// What became of a ray when it was traced into the scene.
#[derive(Clone, Copy, Debug, PartialEq, Eq, Structural)]
pub enum Bounce {
    /// It hit nothing.
    Missed,
    /// It hit a surface that scatters nothing, such as a light.
    Absorbed,
    /// It hit a surface that scattered it on.
    Scattered,
}

/// How a light path ends, and so what its last ray contributes.
#[derive(Clone, Copy, Debug, PartialEq, Eq, Structural)]
pub enum Ending {
    /// The depth is used up: black.
    Exhausted,
    /// The last ray left the scene: the background.
    Escaped,
    /// The last ray hit a surface that scatters nothing: what that surface
    /// emits.
    Absorbed,
}

/// The state of a light path: how many more rays may be traced, and how the
/// path ended, once it has.
#[derive(Clone, Copy, Debug, PartialEq, Eq, Structural)]
pub struct Path {
    /// The number of rays that may still be traced.
    pub depth: u32,
    /// How the path ended; `None` while the next ray is still to be traced.
    pub ending: Option<Ending>,
}

impl Path {
    /// The path of a primary ray that may be followed over `depth` rays. With
    /// a depth of zero it is over before any ray is traced.
    pub open spec fn start(depth: u32) -> Path {
        Path {
            depth,
            ending: if depth == 0 {
                Some(Ending::Exhausted)
            } else {
                None
            },
        }
    }

    /// The path after its next ray has been traced with the outcome `bounce`.
    ///
    /// A ray that misses or is absorbed ends the path. A ray that is scattered
    /// uses up one unit of depth; the path goes on with the scattered ray
    /// unless the depth is used up. A path that is over stays as it is.
    pub open spec fn after(self, bounce: Bounce) -> Path {
        if self.ending is Some || self.depth == 0 {
            self
        } else {
            match bounce {
                Bounce::Missed => Path { ending: Some(Ending::Escaped), ..self },
                Bounce::Absorbed => Path { ending: Some(Ending::Absorbed), ..self },
                Bounce::Scattered => Path {
                    depth: (self.depth - 1) as u32,
                    ending: if self.depth == 1 {
                        Some(Ending::Exhausted)
                    } else {
                        None
                    },
                },
            }
        }
    }

    /// The path after each of `bounces` in turn.
    pub open spec fn after_all(self, bounces: Seq<Bounce>) -> Path
        decreases bounces.len(),
    {
        if bounces.len() == 0 {
            self
        } else {
            self.after_all(bounces.drop_last()).after(bounces.last())
        }
    }

    /// Starts the path of a primary ray with the given depth.
    pub fn new(depth: u32) -> (r: Path)
        ensures
            r == Path::start(depth),
    {
        Path {
            depth,
            ending: if depth == 0 {
                Some(Ending::Exhausted)
            } else {
                None
            },
        }
    }

    /// Takes the outcome of the ray that was traced last.
    pub fn record(&mut self, bounce: Bounce)
        ensures
            *final(self) == old(self).after(bounce),
    {
        if self.ending.is_some() || self.depth == 0 {
            return ;
        }
        match bounce {
            Bounce::Missed => {
                self.ending = Some(Ending::Escaped);
            },
            Bounce::Absorbed => {
                self.ending = Some(Ending::Absorbed);
            },
            Bounce::Scattered => {
                self.depth = self.depth - 1;
                if self.depth == 0 {
                    self.ending = Some(Ending::Exhausted);
                }
            },
        }
    }

    /// Whether the path is over.
    pub fn is_over(&self) -> (r: bool)
        ensures
            r == self.ending is Some,
    {
        self.ending.is_some()
    }
}

/// A path of depth zero is over at once and contributes black; no ray is
/// traced for it.
pub proof fn lemma_depth_zero_is_black()
    ensures
        Path::start(0).ending == Some(Ending::Exhausted),
        forall|bounce: Bounce| Path::start(0).after(bounce) == Path::start(0),
{
}

/// A path of depth one is over after its first ray, whatever became of that
/// ray: it contributes the background, or what the surface emits, and nothing
/// from any further bounce.
pub proof fn lemma_depth_one_is_direct(bounce: Bounce)
    ensures
        Path::start(1).ending is None,
        Path::start(1).after(bounce).ending == Some(
            match bounce {
                Bounce::Missed => Ending::Escaped,
                Bounce::Absorbed => Ending::Absorbed,
                Bounce::Scattered => Ending::Exhausted,
            },
        ),
{
}

/// A path traces no more rays than its depth: while it goes on, every ray so
/// far was scattered, and the depth left and the rays traced add up to the
/// depth it started with; after as many rays as its depth it is over.
pub proof fn lemma_path_is_bounded(depth: u32, bounces: Seq<Bounce>)
    ensures
        Path::start(depth).after_all(bounces).ending is None ==> {
            &&& bounces.len() < depth
            &&& Path::start(depth).after_all(bounces).depth + bounces.len() == depth
            &&& forall|i: int| 0 <= i < bounces.len() ==> bounces[i] == Bounce::Scattered
        },
        bounces.len() >= depth ==> Path::start(depth).after_all(bounces).ending is Some,
    decreases bounces.len(),
{
    if bounces.len() > 0 {
        lemma_path_is_bounded(depth, bounces.drop_last());
        if Path::start(depth).after_all(bounces).ending is None {
            assert forall|i: int| 0 <= i < bounces.len() implies bounces[i]
                == Bounce::Scattered by {
                if i < bounces.len() - 1 {
                    assert(bounces.drop_last()[i] == bounces[i]);
                }
            }
        }
    }
}

} // verus!
