//! The nearest-hit query on a hierarchy.
//!
//! The traversal decides which box and which shape to test next; its caller
//! tests them against the ray. It asks by a [`Probe`] and is told by a
//! [`Reply`].

use vstd::prelude::*;
use crate::aabb::AABB;
use crate::bvh::{Bvh, BvhNode};
use crate::hittable::{Closest, HitRecord, Interval};

verus! {

/// What a traversal is waiting for.
#[derive(Clone, Copy, Debug, PartialEq, Eq, Structural)]
pub enum Waiting {
    /// Whether the ray meets the box of the left subtree of this node.
    Left(usize),
    /// Whether the ray meets the box of the right subtree of this node.
    Right(usize),
    /// Where the ray meets this shape.
    Shape(usize),
    /// Nothing: the query is answered.
    Done,
}

/// A test that the traversal asks its caller to make.
#[derive(Clone, Copy, Debug, PartialEq, Eq, Structural)]
pub enum Probe {
    /// Whether the ray meets `bbox` within `interval`.
    Box { bbox: AABB, interval: Interval },
    /// The hit of the ray on the shape within `interval`, if there is one.
    Shape { shape_index: usize, interval: Interval },
    /// No test: the query is answered.
    Done,
}

/// The outcome of a test.
#[derive(Clone, Copy, Debug, PartialEq, Eq, Structural)]
pub enum Reply {
    /// Whether the ray meets the box.
    Box(bool),
    /// The hit on the shape, if there is one.
    Shape(Option<HitRecord>),
}

/// The state of a traversal as plain values.
pub struct TraversalState {
    /// The inner nodes whose right subtree is still to be looked at; the last
    /// is next.
    pub stack: Seq<usize>,
    /// What the traversal is waiting for.
    pub waiting: Waiting,
    /// The closest hit so far.
    pub closest: Closest,
}

/// The left or the right link of inner node `k`.
pub open spec fn child(nodes: Seq<BvhNode>, k: usize, right: bool) -> usize {
    match nodes[k as int] {
        BvhNode::Node { left_index, right_index, .. } => if right {
            right_index
        } else {
            left_index
        },
        BvhNode::Leaf { .. } => 0,
    }
}

/// The box stored for the left or the right subtree of inner node `k`.
pub open spec fn child_box(nodes: Seq<BvhNode>, k: usize, right: bool) -> AABB {
    match nodes[k as int] {
        BvhNode::Node { left_bbox, right_bbox, .. } => if right {
            right_bbox
        } else {
            left_bbox
        },
        BvhNode::Leaf { .. } => AABB::empty_spec(),
    }
}

/// Steps into node `k`: a leaf has its shape tested; of an inner node the
/// left box is tested now and the right one later.
pub open spec fn enter(nodes: Seq<BvhNode>, s: TraversalState, k: usize) -> TraversalState {
    match nodes[k as int] {
        BvhNode::Leaf { shape_index } => TraversalState {
            waiting: Waiting::Shape(shape_index),
            ..s
        },
        BvhNode::Node { .. } => TraversalState {
            stack: s.stack.push(k),
            waiting: Waiting::Left(k),
            ..s
        },
    }
}

/// Turns to the right subtree that was put off last; with none left, the
/// query is answered.
pub open spec fn resume(s: TraversalState) -> TraversalState {
    if s.stack.len() == 0 {
        TraversalState { waiting: Waiting::Done, ..s }
    } else {
        TraversalState {
            stack: s.stack.drop_last(),
            waiting: Waiting::Right(s.stack.last()),
            ..s
        }
    }
}

/// The state in which a query within `interval` starts: at the root, with
/// nothing found.
pub open spec fn initial(nodes: Seq<BvhNode>, interval: Interval) -> TraversalState {
    enter(
        nodes,
        TraversalState {
            stack: Seq::empty(),
            waiting: Waiting::Done,
            closest: Closest { start: interval.start, end: interval.end, hit: None },
        },
        0,
    )
}

/// The state after `reply`.
///
/// A box that the ray meets is stepped into; one that it misses is skipped
/// with all that lies below it. A hit on a shape becomes the closest hit, and
/// every later test is made within the interval that ends there. A reply of
/// another kind than the one asked for changes nothing.
pub open spec fn next(nodes: Seq<BvhNode>, s: TraversalState, reply: Reply) -> TraversalState {
    match (s.waiting, reply) {
        (Waiting::Left(k), Reply::Box(met)) => if met {
            enter(nodes, s, child(nodes, k, false))
        } else {
            resume(s)
        },
        (Waiting::Right(k), Reply::Box(met)) => if met {
            enter(nodes, s, child(nodes, k, true))
        } else {
            resume(s)
        },
        (Waiting::Shape(_), Reply::Shape(hit)) => resume(
            TraversalState { closest: s.closest.offer_spec(hit), ..s },
        ),
        _ => s,
    }
}

/// The test that is asked for in state `s`. Every test is made within the
/// interval that ends at the closest hit so far.
pub open spec fn probe_of(nodes: Seq<BvhNode>, s: TraversalState) -> Probe {
    let interval = Interval { start: s.closest.start, end: s.closest.end };
    match s.waiting {
        Waiting::Left(k) => Probe::Box { bbox: child_box(nodes, k, false), interval },
        Waiting::Right(k) => Probe::Box { bbox: child_box(nodes, k, true), interval },
        Waiting::Shape(shape_index) => Probe::Shape { shape_index, interval },
        Waiting::Done => Probe::Done,
    }
}

/// Whether `k` is an inner node of `nodes`.
pub open spec fn is_inner(nodes: Seq<BvhNode>, k: usize) -> bool {
    k < nodes.len() && nodes[k as int] is Node
}

/// Whether the state names only nodes and shapes that exist, and nothing is
/// put off once the query is answered.
pub open spec fn state_ok(nodes: Seq<BvhNode>, shapes: int, s: TraversalState) -> bool {
    &&& forall|i: int| 0 <= i < s.stack.len() ==> is_inner(nodes, #[trigger] s.stack[i])
    &&& match s.waiting {
        Waiting::Left(k) => is_inner(nodes, k),
        Waiting::Right(k) => is_inner(nodes, k),
        Waiting::Shape(shape_index) => shape_index < shapes,
        Waiting::Done => s.stack.len() == 0,
    }
}

/// A nearest-hit query in progress on a hierarchy.
pub struct Traversal<'a> {
    bvh: &'a Bvh,
    stack: Vec<usize>,
    waiting: Waiting,
    closest: Closest,
}

impl<'a> View for Traversal<'a> {
    type V = TraversalState;

    closed spec fn view(&self) -> TraversalState {
        TraversalState { stack: self.stack@, waiting: self.waiting, closest: self.closest }
    }
}

impl<'a> Traversal<'a> {
    #[verifier::type_invariant]
    spec fn inv(self) -> bool {
        self.bvh.wf() && state_ok(self.bvh.tree(), self.bvh.shapes().len() as int, self@)
    }

    /// The hierarchy that is queried.
    pub closed spec fn hierarchy(&self) -> Bvh {
        *self.bvh
    }

    /// Steps into node `k` of `nodes`, as [`enter`] says.
    fn step_into(nodes: &Vec<BvhNode>, stack: &mut Vec<usize>, k: usize) -> (r: Waiting)
        requires
            k < nodes@.len(),
        ensures
            nodes@[k as int] matches BvhNode::Leaf { shape_index } ==> r == Waiting::Shape(
                shape_index,
            ) && final(stack)@ == old(stack)@,
            nodes@[k as int] is Node ==> r == Waiting::Left(k) && final(stack)@ == old(stack)@.push(
                k,
            ),
    {
        match nodes[k] {
            BvhNode::Leaf { shape_index } => Waiting::Shape(shape_index),
            BvhNode::Node { .. } => {
                stack.push(k);
                Waiting::Left(k)
            },
        }
    }

    /// Turns to the right subtree that was put off last, as [`resume`] says.
    fn step_back(stack: &mut Vec<usize>) -> (r: Waiting)
        ensures
            old(stack)@.len() == 0 ==> r == Waiting::Done && final(stack)@ == old(stack)@,
            old(stack)@.len() > 0 ==> r == Waiting::Right(old(stack)@.last()) && final(stack)@
                == old(stack)@.drop_last(),
    {
        match stack.pop() {
            Some(k) => Waiting::Right(k),
            None => Waiting::Done,
        }
    }

    /// Starts a query on `bvh` for the closest hit within `interval`.
    pub fn new(bvh: &'a Bvh, interval: Interval) -> (r: Traversal<'a>)
        ensures
            r@ == initial(bvh.tree(), interval),
            r.hierarchy() == *bvh,
    {
        let nodes = bvh.nodes();
        let mut stack: Vec<usize> = Vec::new();
        let waiting = Self::step_into(nodes, &mut stack, 0);
        proof {
            assert(crate::bvh::node_ok(bvh.tree(), bvh.shapes(), bvh.spans(), 0));
            lemma_leaf_in_range(bvh, 0);
        }
        Traversal { bvh, stack, waiting, closest: Closest::new(&interval) }
    }

    /// The test that is needed next.
    pub fn probe(&self) -> (r: Probe)
        ensures
            r == probe_of(self.hierarchy().tree(), self@),
    {
        proof {
            use_type_invariant(self);
        }
        let nodes = self.bvh.nodes();
        let interval = self.closest.interval();
        match self.waiting {
            Waiting::Left(k) => match nodes[k] {
                BvhNode::Node { left_bbox, .. } => Probe::Box { bbox: left_bbox, interval },
                BvhNode::Leaf { .. } => Probe::Box { bbox: AABB::empty(), interval },
            },
            Waiting::Right(k) => match nodes[k] {
                BvhNode::Node { right_bbox, .. } => Probe::Box { bbox: right_bbox, interval },
                BvhNode::Leaf { .. } => Probe::Box { bbox: AABB::empty(), interval },
            },
            Waiting::Shape(shape_index) => Probe::Shape { shape_index, interval },
            Waiting::Done => Probe::Done,
        }
    }

    /// Whether the query is answered.
    pub fn is_done(&self) -> (r: bool)
        ensures
            r == (self@.waiting == Waiting::Done),
    {
        match self.waiting {
            Waiting::Done => true,
            _ => false,
        }
    }

    /// The closest hit found so far; once the query is answered, its answer.
    pub fn hit(&self) -> (r: Option<HitRecord>)
        ensures
            r == self@.closest.hit,
    {
        self.closest.hit
    }

    /// Takes the outcome of the test that was asked for and moves to the
    /// state that [`next`] names.
    pub fn advance(self, reply: Reply) -> (r: Traversal<'a>)
        ensures
            r@ == next(self.hierarchy().tree(), self@, reply),
            r.hierarchy() == self.hierarchy(),
    {
        proof {
            use_type_invariant(&self);
        }
        let ghost before = self@;
        let Traversal { bvh, stack, waiting, closest } = self;
        let mut stack = stack;
        let mut closest = closest;
        let nodes = bvh.nodes();
        let ghost tree = bvh.tree();
        let link: Option<usize> = match (waiting, reply) {
            (Waiting::Left(k), Reply::Box(met)) => match nodes[k] {
                BvhNode::Node { left_index, .. } => if met {
                    Some(left_index)
                } else {
                    None
                },
                BvhNode::Leaf { .. } => None,
            },
            (Waiting::Right(k), Reply::Box(met)) => match nodes[k] {
                BvhNode::Node { right_index, .. } => if met {
                    Some(right_index)
                } else {
                    None
                },
                BvhNode::Leaf { .. } => None,
            },
            (Waiting::Shape(_), Reply::Shape(hit)) => {
                closest.offer(hit);
                None
            },
            _ => {
                return Traversal { bvh, stack, waiting, closest };
            },
        };
        let waiting = match link {
            Some(k) => {
                proof {
                    match before.waiting {
                        Waiting::Left(p) => {
                            assert(crate::bvh::node_ok(tree, bvh.shapes(), bvh.spans(), p as int));
                        },
                        Waiting::Right(p) => {
                            assert(crate::bvh::node_ok(tree, bvh.shapes(), bvh.spans(), p as int));
                        },
                        _ => {},
                    }
                    lemma_leaf_in_range(bvh, k as int);
                }
                Self::step_into(nodes, &mut stack, k)
            },
            None => Self::step_back(&mut stack),
        };
        Traversal { bvh, stack, waiting, closest }
    }
}

/// The shape of a leaf is one of the shapes of the hierarchy.
pub proof fn lemma_leaf_in_range(bvh: &Bvh, k: int)
    requires
        bvh.wf(),
        0 <= k < bvh.tree().len(),
    ensures
        bvh.tree()[k] matches BvhNode::Leaf { shape_index } ==> shape_index < bvh.shapes().len(),
{
    assert(crate::bvh::node_ok(bvh.tree(), bvh.shapes(), bvh.spans(), k));
    match bvh.tree()[k] {
        BvhNode::Leaf { shape_index } => {
            assert(bvh.spans()[k][0] == shape_index);
        },
        _ => {},
    }
}

} // verus!
