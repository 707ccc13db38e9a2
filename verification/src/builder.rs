//! Construction of the hierarchy by binned surface-area splits.
//!
//! The builder decides; its caller measures. Whenever a decision rests on a
//! measurement (the extent of a box, the bucket of a centroid, the cost of a
//! candidate split), the builder states a [`Request`] and waits for the
//! matching [`Answer`]. Between two requests it does all the work that needs
//! no measurement: it cuts subsets, lays the nodes out in the flat array and
//! emits the leaves.

use vstd::prelude::*;
use crate::aabb::AABB;
use crate::bvh::{
    all_below, concat_all, contents, iota, joint_aabb, joint_aabb_of_points,
    joint_aabb_of_shapes, joint_points, Bucket, BvhNode,
};
use crate::bvh::{concatenate_vectors, Bvh};
use crate::progress::sane;
use crate::split::{
    all_members, assign_buckets, cheapest, cheapest_place, join_buckets, joined_size,
    lemma_bins_partition, lemma_concat_split, lemma_joined_is_bucket_of_concat,
    lemma_members_below, split_in_half, Binning, NUM_BUCKETS, NUM_SPLITS,
};
use crate::vectors::{Scalar, Vec3};

verus! {

/// What the builder is waiting for.
#[derive(Clone, Copy, Debug, PartialEq, Eq, Structural)]
pub enum Stage {
    /// The extent of the centroid bounds of the open subset.
    Extents,
    /// The raw bucket number of every member of the open subset.
    Bins,
    /// The cost of every candidate split of the open subset.
    Costs,
    /// Nothing: the hierarchy is complete.
    Done,
}

/// A measurement that the builder asks its caller to make.
#[derive(Clone, Copy, Debug, PartialEq, Eq, Structural)]
pub enum Request {
    /// The extent of `centroid_bounds` on each axis, `max - min`.
    Extents { centroid_bounds: AABB },
    /// For each member of the open subset, in order, the bucket into which its
    /// centroid falls along `axis`, where the centroids of the subset range
    /// from `low` to `high` on that axis.
    Bins { axis: usize, low: Scalar, high: Scalar },
    /// The cost of each candidate split, relative to the box `whole` of the
    /// open subset.
    Costs { whole: AABB },
    /// No measurement: the hierarchy is complete.
    Done,
}

/// A measurement made by the caller.
pub enum Answer {
    /// The extent of the centroid bounds on each axis.
    Extents(Vec3),
    /// A raw bucket number for each member of the open subset, in order.
    Bins(Vec<usize>),
    /// One cost for each candidate split, in order.
    Costs(Vec<Scalar>),
}

/// An [`Answer`] as plain values.
pub enum AnswerView {
    Extents(Vec3),
    Bins(Seq<usize>),
    Costs(Seq<Scalar>),
}

impl View for Answer {
    type V = AnswerView;

    open spec fn view(&self) -> AnswerView {
        match self {
            Answer::Extents(size) => AnswerView::Extents(*size),
            Answer::Bins(raw) => AnswerView::Bins(raw@),
            Answer::Costs(costs) => AnswerView::Costs(costs@),
        }
    }
}

/// A subset that still awaits its subtree, and the place where the index of
/// that subtree's root belongs: the left or right link of node `parent`.
pub struct Task {
    pub indices: Vec<usize>,
    pub parent: usize,
    pub right: bool,
}

/// A [`Task`] as plain values.
pub struct TaskView {
    pub indices: Seq<usize>,
    pub parent: usize,
    pub right: bool,
}

impl View for Task {
    type V = TaskView;

    open spec fn view(&self) -> TaskView {
        TaskView { indices: self.indices@, parent: self.parent, right: self.right }
    }
}

/// The tasks of a stack as plain values.
pub open spec fn task_views(pending: Seq<Task>) -> Seq<TaskView> {
    Seq::new(pending.len(), |j: int| pending[j]@)
}

/// The state of a construction as plain values.
pub struct BuildState {
    /// The bounding box of every shape.
    pub boxes: Seq<AABB>,
    /// The centroid of every shape's bounding box.
    pub centroids: Seq<Vec3>,
    /// The extent below which the centroids of a subset count as coincident.
    pub epsilon: Scalar,
    /// The nodes laid out so far. While a subset is open, the last node is
    /// its placeholder.
    pub nodes: Seq<BvhNode>,
    /// The subsets that await their subtrees; the last is next.
    pub pending: Seq<TaskView>,
    /// What the builder is waiting for.
    pub stage: Stage,
    /// The open subset: the one being split.
    pub members: Seq<usize>,
    /// The split axis of the open subset, once chosen.
    pub axis: usize,
    /// The members of the open subset bucket by bucket, once binned.
    pub parts: Seq<Seq<usize>>,
}

/// The placeholder that marks the node of the open subset until it is split.
pub open spec fn placeholder() -> BvhNode {
    BvhNode::Leaf { shape_index: 0 }
}

/// `nodes` with the left or right link of node `parent` set to `child`.
pub open spec fn patched(nodes: Seq<BvhNode>, parent: usize, right: bool, child: usize) -> Seq<
    BvhNode,
> {
    match nodes[parent as int] {
        BvhNode::Node { left_index, left_bbox, right_index, right_bbox } => nodes.update(
            parent as int,
            if right {
                BvhNode::Node { left_index, left_bbox, right_index: child, right_bbox }
            } else {
                BvhNode::Node { left_index: child, left_bbox, right_index, right_bbox }
            },
        ),
        BvhNode::Leaf { .. } => nodes,
    }
}

/// Works through the pending subsets for as long as no measurement is needed.
///
/// The next subset gets the next free node, and its parent's link is set to
/// it. A subset of one shape becomes a leaf, and the work goes on. A larger
/// subset becomes the open subset, with a placeholder as its node, and the
/// builder asks for its extents. With no subset left the hierarchy is
/// complete.
pub open spec fn settle(s: BuildState) -> BuildState
    decreases s.pending.len(),
{
    if s.pending.len() == 0 {
        BuildState { stage: Stage::Done, members: Seq::empty(), ..s }
    } else {
        let task = s.pending.last();
        let nodes = patched(s.nodes, task.parent, task.right, s.nodes.len() as usize);
        if task.indices.len() == 1 {
            settle(
                BuildState {
                    nodes: nodes.push(BvhNode::Leaf { shape_index: task.indices[0] }),
                    pending: s.pending.drop_last(),
                    ..s
                },
            )
        } else {
            BuildState {
                nodes: nodes.push(placeholder()),
                pending: s.pending.drop_last(),
                stage: Stage::Extents,
                members: task.indices,
                ..s
            }
        }
    }
}

/// Splits the open subset into `left` and `right`.
///
/// The placeholder becomes an inner node that stores the joint box of each
/// side. The right side is put aside and the left side on top of it, so that
/// the whole left subtree is laid out before the right one; then the work goes
/// on as [`settle`] says.
pub open spec fn split_into(s: BuildState, left: Seq<usize>, right: Seq<usize>) -> BuildState {
    let node = (s.nodes.len() - 1) as usize;
    let inner = BvhNode::Node {
        left_index: 0,
        left_bbox: joint_aabb(left, s.boxes),
        right_index: 0,
        right_bbox: joint_aabb(right, s.boxes),
    };
    settle(
        BuildState {
            nodes: s.nodes.update(node as int, inner),
            pending: s.pending.push(TaskView { indices: right, parent: node, right: true }).push(
                TaskView { indices: left, parent: node, right: false },
            ),
            axis: 0,
            parts: Seq::empty(),
            ..s
        },
    )
}

/// Splits the open subset by position: its first half, rounded down, and the
/// rest.
pub open spec fn split_in_halves(s: BuildState) -> BuildState {
    let half = s.members.len() as int / 2;
    split_into(s, s.members.take(half), s.members.skip(half))
}

/// The state in which a construction starts: a single shape is a leaf and the
/// hierarchy is complete; otherwise all the shapes form the open subset.
pub open spec fn initial_state(boxes: Seq<AABB>, centroids: Seq<Vec3>, epsilon: Scalar) -> BuildState {
    if boxes.len() == 1 {
        BuildState {
            boxes,
            centroids,
            epsilon,
            nodes: seq![BvhNode::Leaf { shape_index: 0 }],
            pending: Seq::empty(),
            stage: Stage::Done,
            members: Seq::empty(),
            axis: 0,
            parts: Seq::empty(),
        }
    } else {
        BuildState {
            boxes,
            centroids,
            epsilon,
            nodes: seq![placeholder()],
            pending: Seq::empty(),
            stage: Stage::Extents,
            members: iota(boxes.len()),
            axis: 0,
            parts: Seq::empty(),
        }
    }
}

/// Whether the builder, in state `s`, accepts `answer`: it is of the kind
/// that was asked for, with one bucket number for each member or one cost for
/// each candidate split.
pub open spec fn accepts(s: BuildState, answer: AnswerView) -> bool {
    match answer {
        AnswerView::Extents(_) => s.stage == Stage::Extents,
        AnswerView::Bins(raw) => s.stage == Stage::Bins && raw.len() == s.members.len(),
        AnswerView::Costs(costs) => s.stage == Stage::Costs && costs.len() == NUM_SPLITS,
    }
}

/// The state after `answer`.
///
/// An answer that is not accepted changes nothing.
///
/// Extents: the split axis is the one of largest extent, the first such axis
/// on a tie. Where that extent is below `epsilon` the centroids cannot be
/// told apart and the subset is cut in halves by position. Otherwise the
/// builder asks for the members' buckets along that axis.
///
/// Bins: each member goes to its bucket, a bucket number beyond the last
/// counting as the last, and the builder asks for the cost of each candidate
/// split.
///
/// Costs: the cheapest candidate wins, the first of several that are equally
/// cheap. Candidate `m` puts the buckets up to and including `m` on the left
/// and the others on the right. Should one side hold no shape, the subset is
/// cut in halves by position instead.
pub open spec fn next_state(s: BuildState, answer: AnswerView) -> BuildState {
    if !accepts(s, answer) {
        s
    } else {
        match answer {
            AnswerView::Extents(size) => {
                let axis = AABB::largest_axis_of(size);
                if size.at(axis) < s.epsilon {
                    split_in_halves(s)
                } else {
                    BuildState { stage: Stage::Bins, axis: axis as usize, ..s }
                }
            },
            AnswerView::Bins(raw) => BuildState {
                stage: Stage::Costs,
                parts: all_members(s.members, raw),
                ..s
            },
            AnswerView::Costs(costs) => {
                let m = cheapest_place(costs);
                let left = concat_all(s.parts.take(m + 1));
                let right = concat_all(s.parts.skip(m + 1));
                if left.len() == 0 || right.len() == 0 {
                    split_in_halves(s)
                } else {
                    split_into(s, left, right)
                }
            },
        }
    }
}

/// The measurement that the builder asks for in state `s`.
pub open spec fn request_of(s: BuildState) -> Request {
    match s.stage {
        Stage::Extents => Request::Extents {
            centroid_bounds: joint_points(s.members, s.centroids),
        },
        Stage::Bins => Request::Bins {
            axis: s.axis,
            low: joint_points(s.members, s.centroids).min.at(s.axis as int),
            high: joint_points(s.members, s.centroids).max.at(s.axis as int),
        },
        Stage::Costs => Request::Costs { whole: joint_aabb(s.members, s.boxes) },
        Stage::Done => Request::Done,
    }
}

/// Whether `spans[k]` names at least one shape, and only shapes that exist.
spec fn span_ok(boxes: Seq<AABB>, spans: Seq<Seq<usize>>, k: int) -> bool {
    spans[k].len() >= 1 && all_below(spans[k], boxes.len() as int)
}

/// Whether a link of node `k` is in order: once set, it points forward to a
/// node that spans the shapes meant for it; until then, a pending task holds
/// those shapes and names this link.
spec fn link_ok(
    nodes_len: int,
    pending: Seq<TaskView>,
    spans: Seq<Seq<usize>>,
    k: int,
    link: usize,
    expect: Seq<usize>,
    right: bool,
) -> bool {
    if link != 0 {
        k < link < nodes_len && spans[link as int] == expect
    } else {
        exists|j: int| 0 <= j < pending.len() && task_is(#[trigger] pending[j], k, expect, right)
    }
}

/// Whether `task` holds the shapes `expect` for the given link of node `k`.
spec fn task_is(task: TaskView, k: int, expect: Seq<usize>, right: bool) -> bool {
    task.indices == expect && task.parent == k && task.right == right
}

/// Whether the finished node `k` is in order. `kids[k]` names the shapes
/// meant for the left and for the right subtree of an inner node.
spec fn built_ok(
    boxes: Seq<AABB>,
    nodes: Seq<BvhNode>,
    pending: Seq<TaskView>,
    spans: Seq<Seq<usize>>,
    kids: Seq<(Seq<usize>, Seq<usize>)>,
    k: int,
) -> bool {
    match nodes[k] {
        BvhNode::Leaf { shape_index } => spans[k] == seq![shape_index],
        BvhNode::Node { left_index, left_bbox, right_index, right_bbox } => {
            &&& kids[k].0.len() >= 1
            &&& kids[k].1.len() >= 1
            &&& spans[k].to_multiset() == kids[k].0.to_multiset().add(kids[k].1.to_multiset())
            &&& left_bbox == joint_aabb(kids[k].0, boxes)
            &&& right_bbox == joint_aabb(kids[k].1, boxes)
            &&& link_ok(nodes.len() as int, pending, spans, k, left_index, kids[k].0, false)
            &&& link_ok(nodes.len() as int, pending, spans, k, right_index, kids[k].1, true)
        },
    }
}

/// Whether the pending task `j` is in order: it holds the shapes meant for
/// the link that it names, of a finished inner node.
spec fn task_ok(
    boxes: Seq<AABB>,
    nodes: Seq<BvhNode>,
    pending: Seq<TaskView>,
    kids: Seq<(Seq<usize>, Seq<usize>)>,
    built: int,
    j: int,
) -> bool {
    let task = pending[j];
    &&& task.indices.len() >= 1
    &&& all_below(task.indices, boxes.len() as int)
    &&& task.parent < built
    &&& nodes[task.parent as int] is Node
    &&& task.indices == if task.right {
        kids[task.parent as int].1
    } else {
        kids[task.parent as int].0
    }
}

/// What holds of the nodes and the pending tasks at every moment. With `open`
/// the last node is the placeholder of the open subset.
spec fn core_inv(
    boxes: Seq<AABB>,
    nodes: Seq<BvhNode>,
    pending: Seq<TaskView>,
    spans: Seq<Seq<usize>>,
    kids: Seq<(Seq<usize>, Seq<usize>)>,
    open: bool,
) -> bool {
    core_inv_upto(boxes, nodes, pending, spans, kids, built_count(nodes, open))
}

/// The number of finished nodes.
spec fn built_count(nodes: Seq<BvhNode>, open: bool) -> int {
    if open {
        nodes.len() - 1
    } else {
        nodes.len() as int
    }
}

/// The number of nodes that the pending tasks will take: a subtree over `m`
/// shapes has `m` leaves and `m - 1` inner nodes.
spec fn pending_nodes(pending: Seq<TaskView>) -> int
    decreases pending.len(),
{
    if pending.len() == 0 {
        0
    } else {
        pending_nodes(pending.drop_last()) + 2 * pending.last().indices.len() - 1
    }
}

/// The number of nodes that the open subset will still take, besides its own.
spec fn open_nodes(nodes: Seq<BvhNode>, spans: Seq<Seq<usize>>, built: int) -> int {
    if built < nodes.len() {
        2 * spans[nodes.len() - 1].len() - 2
    } else {
        0
    }
}

/// What holds of the nodes and the pending tasks, where the first `built`
/// nodes are finished.
spec fn core_inv_upto(
    boxes: Seq<AABB>,
    nodes: Seq<BvhNode>,
    pending: Seq<TaskView>,
    spans: Seq<Seq<usize>>,
    kids: Seq<(Seq<usize>, Seq<usize>)>,
    built: int,
) -> bool {
    &&& boxes.len() >= 1
    &&& nodes.len() >= 1
    &&& nodes.len() + pending_nodes(pending) + open_nodes(nodes, spans, built) == 2 * boxes.len()
        - 1
    &&& spans.len() == nodes.len()
    &&& kids.len() == nodes.len()
    &&& spans[0] == iota(boxes.len())
    &&& forall|k: int| 0 <= k < nodes.len() ==> span_ok(boxes, spans, k)
    &&& forall|k: int| 0 <= k < built ==> built_ok(boxes, nodes, pending, spans, kids, k)
    &&& forall|j: int| 0 <= j < pending.len() ==> task_ok(boxes, nodes, pending, kids, built, j)
}

/// Taking the next task and giving it a node keeps everything in order.
proof fn lemma_settle_step(
    boxes: Seq<AABB>,
    nodes: Seq<BvhNode>,
    pending: Seq<TaskView>,
    spans: Seq<Seq<usize>>,
    kids: Seq<(Seq<usize>, Seq<usize>)>,
    node: BvhNode,
)
    requires
        core_inv(boxes, nodes, pending, spans, kids, false),
        nodes.len() <= usize::MAX,
        pending.len() > 0,
        pending.last().indices.len() == 1 ==> node == (BvhNode::Leaf {
            shape_index: pending.last().indices[0],
        }),
    ensures
        core_inv(
            boxes,
            patched(
                nodes,
                pending.last().parent,
                pending.last().right,
                nodes.len() as usize,
            ).push(node),
            pending.drop_last(),
            spans.push(pending.last().indices),
            kids.push((Seq::empty(), Seq::empty())),
            pending.last().indices.len() != 1,
        ),
{
    let task = pending.last();
    let k = nodes.len() as int;
    let nodes2 = patched(nodes, task.parent, task.right, k as usize).push(node);
    let pending2 = pending.drop_last();
    let spans2 = spans.push(task.indices);
    let kids2 = kids.push((Seq::<usize>::empty(), Seq::<usize>::empty()));
    let open2 = task.indices.len() != 1;
    let built2 = if open2 {
        nodes2.len() - 1
    } else {
        nodes2.len() as int
    };
    assert(task_ok(boxes, nodes, pending, kids, k, pending.len() - 1));
    assert(spans2[nodes2.len() - 1] == task.indices);
    assert forall|i: int| 0 <= i < nodes2.len() implies span_ok(boxes, spans2, i) by {
        if i < k {
            assert(span_ok(boxes, spans, i));
        }
    }
    assert forall|i: int| 0 <= i < built2 implies built_ok(
        boxes,
        nodes2,
        pending2,
        spans2,
        kids2,
        i,
    ) by {
        if i < k {
            assert(built_ok(boxes, nodes, pending, spans, kids, i));
            match nodes[i] {
                BvhNode::Leaf { .. } => {},
                BvhNode::Node { left_index, left_bbox, right_index, right_bbox } => {
                    if !(i == task.parent && !task.right) && left_index == 0 {
                        let j = choose|j: int|
                            0 <= j < pending.len() && task_is(
                                #[trigger] pending[j],
                                i,
                                kids[i].0,
                                false,
                            );
                        assert(pending2[j] == pending[j]);
                    }
                    if !(i == task.parent && task.right) && right_index == 0 {
                        let j = choose|j: int|
                            0 <= j < pending.len() && task_is(
                                #[trigger] pending[j],
                                i,
                                kids[i].1,
                                true,
                            );
                        assert(pending2[j] == pending[j]);
                    }
                },
            }
        } else {
            assert(spans2[i] =~= seq![task.indices[0]]);
        }
    }
    assert forall|j: int| 0 <= j < pending2.len() implies task_ok(
        boxes,
        nodes2,
        pending2,
        kids2,
        built2,
        j,
    ) by {
        assert(task_ok(boxes, nodes, pending, kids, k, j));
        assert(pending2[j] == pending[j]);
    }
}

/// Splitting the open subset keeps everything in order.
proof fn lemma_split_step(
    boxes: Seq<AABB>,
    nodes: Seq<BvhNode>,
    pending: Seq<TaskView>,
    spans: Seq<Seq<usize>>,
    kids: Seq<(Seq<usize>, Seq<usize>)>,
    left: Seq<usize>,
    right: Seq<usize>,
)
    requires
        core_inv(boxes, nodes, pending, spans, kids, true),
        nodes.len() <= usize::MAX,
        left.len() >= 1,
        right.len() >= 1,
        all_below(left, boxes.len() as int),
        all_below(right, boxes.len() as int),
        spans[nodes.len() - 1].to_multiset() == left.to_multiset().add(right.to_multiset()),
    ensures
        core_inv(
            boxes,
            nodes.update(
                nodes.len() - 1,
                BvhNode::Node {
                    left_index: 0,
                    left_bbox: joint_aabb(left, boxes),
                    right_index: 0,
                    right_bbox: joint_aabb(right, boxes),
                },
            ),
            pending.push(
                TaskView { indices: right, parent: (nodes.len() - 1) as usize, right: true },
            ).push(TaskView { indices: left, parent: (nodes.len() - 1) as usize, right: false }),
            spans,
            kids.update(nodes.len() - 1, (left, right)),
            false,
        ),
{
    let node = nodes.len() - 1;
    let nodes2 = nodes.update(
        node,
        BvhNode::Node {
            left_index: 0,
            left_bbox: joint_aabb(left, boxes),
            right_index: 0,
            right_bbox: joint_aabb(right, boxes),
        },
    );
    let task_r = TaskView { indices: right, parent: node as usize, right: true };
    let task_l = TaskView { indices: left, parent: node as usize, right: false };
    let pending2 = pending.push(task_r).push(task_l);
    let kids2 = kids.update(node, (left, right));
    assert(pending_nodes(pending2) == pending_nodes(pending) + 2 * left.len() + 2 * right.len()
        - 2) by {
        assert(pending2.drop_last() == pending.push(task_r));
        assert(pending.push(task_r).drop_last() == pending);
        assert(pending2.last() == task_l);
        assert(pending.push(task_r).last() == task_r);
        assert(pending_nodes(pending.push(task_r)) == pending_nodes(pending) + 2 * right.len()
            - 1);
    }
    assert(spans[node].len() == left.len() + right.len()) by {
        vstd::seq_lib::to_multiset_len(spans[node]);
        vstd::seq_lib::to_multiset_len(left);
        vstd::seq_lib::to_multiset_len(right);
    }
    assert forall|i: int| 0 <= i < nodes2.len() implies span_ok(boxes, spans, i) by {
        assert(span_ok(boxes, spans, i));
    }
    assert forall|i: int| 0 <= i < nodes2.len() implies built_ok(
        boxes,
        nodes2,
        pending2,
        spans,
        kids2,
        i,
    ) by {
        if i < node {
            assert(built_ok(boxes, nodes, pending, spans, kids, i));
            match nodes[i] {
                BvhNode::Leaf { .. } => {},
                BvhNode::Node { left_index, left_bbox, right_index, right_bbox } => {
                    if left_index == 0 {
                        let j = choose|j: int|
                            0 <= j < pending.len() && task_is(
                                #[trigger] pending[j],
                                i,
                                kids[i].0,
                                false,
                            );
                        assert(pending2[j] == pending[j]);
                    }
                    if right_index == 0 {
                        let j = choose|j: int|
                            0 <= j < pending.len() && task_is(
                                #[trigger] pending[j],
                                i,
                                kids[i].1,
                                true,
                            );
                        assert(pending2[j] == pending[j]);
                    }
                },
            }
        } else {
            assert(pending2[pending.len() as int] == task_r);
            assert(pending2[pending.len() as int + 1] == task_l);
        }
    }
    assert forall|j: int| 0 <= j < pending2.len() implies task_ok(
        boxes,
        nodes2,
        pending2,
        kids2,
        nodes2.len() as int,
        j,
    ) by {
        if j < pending.len() {
            assert(task_ok(boxes, nodes, pending, kids, node, j));
            assert(pending2[j] == pending[j]);
        }
    }
}

/// With nothing pending and no subset open, the nodes form a sound tree.
proof fn lemma_complete(
    boxes: Seq<AABB>,
    nodes: Seq<BvhNode>,
    spans: Seq<Seq<usize>>,
    kids: Seq<(Seq<usize>, Seq<usize>)>,
)
    requires
        core_inv(boxes, nodes, Seq::empty(), spans, kids, false),
        boxes.len() <= usize::MAX,
    ensures
        crate::bvh::tree_ok(nodes, boxes, spans),
{
    assert forall|k: int| 0 <= k < nodes.len() implies crate::bvh::node_ok(
        nodes,
        boxes,
        spans,
        k,
    ) by {
        assert(span_ok(boxes, spans, k));
        assert(built_ok(boxes, nodes, Seq::empty(), spans, kids, k));
    }
}

/// What holds of the open subset: it is the span of the last node, it has at
/// least two members, and its two boxes are known.
spec fn open_ok(
    s: BuildState,
    aabb_bounds: AABB,
    centroid_bounds: AABB,
    spans: Seq<Seq<usize>>,
) -> bool {
    &&& s.members == spans[s.nodes.len() - 1]
    &&& s.members.len() >= 2
    &&& aabb_bounds == joint_aabb(s.members, s.boxes)
    &&& centroid_bounds == joint_points(s.members, s.centroids)
}

/// What holds once the open subset is binned: every bucket has the count and
/// the joint box of its shapes, and the buckets together hold exactly the
/// members.
spec fn binned_ok(s: BuildState, buckets: Seq<Bucket>) -> bool {
    &&& buckets.len() == NUM_BUCKETS
    &&& s.parts.len() == NUM_BUCKETS
    &&& forall|b: int|
        0 <= b < NUM_BUCKETS ==> #[trigger] buckets[b] == Bucket::of(s.parts[b], s.boxes)
    &&& forall|b: int| 0 <= b < NUM_BUCKETS ==> all_below(#[trigger] s.parts[b], s.boxes.len() as int)
    &&& concat_all(s.parts).to_multiset() == s.members.to_multiset()
}

/// What holds of a construction at every moment.
spec fn build_inv(
    s: BuildState,
    buckets: Seq<Bucket>,
    aabb_bounds: AABB,
    centroid_bounds: AABB,
    spans: Seq<Seq<usize>>,
    kids: Seq<(Seq<usize>, Seq<usize>)>,
) -> bool {
    &&& core_inv(s.boxes, s.nodes, s.pending, spans, kids, s.stage != Stage::Done)
    &&& s.centroids.len() == s.boxes.len()
    &&& s.stage == Stage::Done ==> s.pending.len() == 0 && s.members.len() == 0
    &&& s.stage != Stage::Done ==> open_ok(s, aabb_bounds, centroid_bounds, spans)
    &&& (s.stage == Stage::Bins || s.stage == Stage::Costs) ==> s.axis < 3
    &&& s.stage == Stage::Costs ==> binned_ok(s, buckets)
}

/// A construction in progress.
///
/// [`BvhBuilder::request`] says which measurement is needed next, and
/// [`BvhBuilder::advance`] takes it. When the request is [`Request::Done`],
/// [`crate::bvh::Bvh::new`] turns the builder into the finished hierarchy.
pub struct BvhBuilder {
    boxes: Vec<AABB>,
    centroids: Vec<Vec3>,
    epsilon: Scalar,
    nodes: Vec<BvhNode>,
    pending: Vec<Task>,
    stage: Stage,
    members: Vec<usize>,
    axis: usize,
    binning: Binning,
    aabb_bounds: AABB,
    centroid_bounds: AABB,
    spans: Ghost<Seq<Seq<usize>>>,
    kids: Ghost<Seq<(Seq<usize>, Seq<usize>)>>,
}

impl View for BvhBuilder {
    type V = BuildState;

    closed spec fn view(&self) -> BuildState {
        BuildState {
            boxes: self.boxes@,
            centroids: self.centroids@,
            epsilon: self.epsilon,
            nodes: self.nodes@,
            pending: task_views(self.pending@),
            stage: self.stage,
            members: self.members@,
            axis: self.axis,
            parts: self.binning.parts(),
        }
    }
}

impl BvhBuilder {
    #[verifier::type_invariant]
    spec fn inv(self) -> bool {
        build_inv(
            self@,
            self.binning.buckets@,
            self.aabb_bounds,
            self.centroid_bounds,
            self.spans@,
            self.kids@,
        )
    }

    /// The names of the shapes below each node laid out so far.
    pub closed spec fn spans(&self) -> Seq<Seq<usize>> {
        self.spans@
    }

    /// Starts the construction of a hierarchy over the shapes whose bounding
    /// boxes are `boxes` and whose centroids are `centroids`. A subset whose
    /// centroids spread over less than `epsilon` on every axis is cut by
    /// position.
    ///
    /// There is no hierarchy over no shapes, and every shape needs its
    /// centroid: `None` where `boxes` is empty or the lengths differ.
    pub fn new(boxes: Vec<AABB>, centroids: Vec<Vec3>, epsilon: Scalar) -> (r: Option<BvhBuilder>)
        ensures
            r is Some <==> boxes@.len() >= 1 && centroids@.len() == boxes@.len(),
            r matches Some(b) ==> b@ == initial_state(boxes@, centroids@, epsilon) && sane(b@),
    {
        let n: usize = boxes.len();
        if n == 0 || centroids.len() != n {
            return None;
        }
        let binning = Binning { buckets: Vec::new(), assignments: Vec::new() };
        let mut nodes: Vec<BvhNode> = Vec::new();
        nodes.push(BvhNode::Leaf { shape_index: 0 });
        let ghost kids = seq![(Seq::<usize>::empty(), Seq::<usize>::empty())];
        assert(binning.parts() =~= Seq::<Seq<usize>>::empty());
        assert(task_views(Seq::<Task>::empty()) =~= Seq::<TaskView>::empty());
        if n == 1 {
            let ghost spans = seq![seq![0usize]];
            proof {
                assert(spans[0] =~= iota(1));
                assert(built_ok(boxes@, nodes@, Seq::empty(), spans, kids, 0));
            }
            let b = BvhBuilder {
                boxes,
                centroids,
                epsilon,
                nodes,
                pending: Vec::new(),
                stage: Stage::Done,
                members: Vec::new(),
                axis: 0,
                binning,
                aabb_bounds: AABB::empty(),
                centroid_bounds: AABB::empty(),
                spans: Ghost(spans),
                kids: Ghost(kids),
            };
            return Some(b);
        }
        let mut members: Vec<usize> = Vec::new();
        let mut i: usize = 0;
        while i < n
            invariant
                i <= n,
                members@ == iota(i as nat),
            decreases n - i,
        {
            members.push(i);
            assert(members@ =~= iota((i + 1) as nat));
            i += 1;
        }
        let aabb_bounds = joint_aabb_of_shapes(members.as_slice(), boxes.as_slice());
        let centroid_bounds = joint_aabb_of_points(members.as_slice(), centroids.as_slice());
        let ghost spans = seq![members@];
        let b = BvhBuilder {
            boxes,
            centroids,
            epsilon,
            nodes,
            pending: Vec::new(),
            stage: Stage::Extents,
            members,
            axis: 0,
            binning,
            aabb_bounds,
            centroid_bounds,
            spans: Ghost(spans),
            kids: Ghost(kids),
        };
        Some(b)
    }

    /// The measurement that is needed next.
    pub fn request(&self) -> (r: Request)
        ensures
            r == request_of(self@),
    {
        proof {
            use_type_invariant(self);
        }
        match self.stage {
            Stage::Extents => Request::Extents { centroid_bounds: self.centroid_bounds },
            Stage::Bins => Request::Bins {
                axis: self.axis,
                low: self.centroid_bounds.min.axis(self.axis),
                high: self.centroid_bounds.max.axis(self.axis),
            },
            Stage::Costs => Request::Costs { whole: self.aabb_bounds },
            Stage::Done => Request::Done,
        }
    }

    /// The members of the open subset, in the order in which their bucket
    /// numbers are expected.
    pub fn members(&self) -> (r: &Vec<usize>)
        ensures
            r@ == self@.members,
    {
        &self.members
    }

    /// Whether the hierarchy is complete.
    pub fn is_done(&self) -> (r: bool)
        ensures
            r == (self@.stage == Stage::Done),
    {
        match self.stage {
            Stage::Done => true,
            _ => false,
        }
    }

    /// The two sides of candidate split `i`, each with the count and the joint
    /// box of its shapes: the buckets up to and including `i`, and the buckets
    /// after it. `None` unless costs are asked for and `i` is one of the
    /// candidates.
    pub fn candidate(&self, i: usize) -> (r: Option<(Bucket, Bucket)>)
        ensures
            r is Some <==> self@.stage == Stage::Costs && i < NUM_SPLITS,
            r matches Some(c) ==> {
                &&& c.0 == Bucket::of(concat_all(self@.parts.take(i + 1)), self@.boxes)
                &&& c.1 == Bucket::of(concat_all(self@.parts.skip(i + 1)), self@.boxes)
            },
    {
        proof {
            use_type_invariant(self);
        }
        match self.stage {
            Stage::Costs => {},
            _ => {
                return None;
            },
        }
        if i >= NUM_SPLITS {
            return None;
        }
        let count: usize = self.members.len();
        let (low, high) = self.binning.buckets.as_slice().split_at(i + 1);
        proof {
            lemma_sides(self@, self.binning.buckets@, i as int);
            assert(low@ == self.binning.buckets@.take(i + 1));
            assert(high@ == self.binning.buckets@.skip(i + 1));
        }
        Some((join_buckets(low), join_buckets(high)))
    }
}

/// The sizes and boxes of the two sides of a candidate split.
proof fn lemma_sides(s: BuildState, buckets: Seq<Bucket>, i: int)
    requires
        binned_ok(s, buckets),
        s.members.len() <= usize::MAX,
        0 <= i < NUM_SPLITS,
    ensures
        joined_size(buckets.take(i + 1)) == concat_all(s.parts.take(i + 1)).len(),
        joined_size(buckets.skip(i + 1)) == concat_all(s.parts.skip(i + 1)).len(),
        crate::split::joined_aabb(buckets.take(i + 1)) == joint_aabb(
            concat_all(s.parts.take(i + 1)),
            s.boxes,
        ),
        crate::split::joined_aabb(buckets.skip(i + 1)) == joint_aabb(
            concat_all(s.parts.skip(i + 1)),
            s.boxes,
        ),
        concat_all(s.parts.take(i + 1)).len() + concat_all(s.parts.skip(i + 1)).len()
            == s.members.len(),
        concat_all(s.parts.take(i + 1)).to_multiset().add(
            concat_all(s.parts.skip(i + 1)).to_multiset(),
        ) == s.members.to_multiset(),
        all_below(concat_all(s.parts.take(i + 1)), s.boxes.len() as int),
        all_below(concat_all(s.parts.skip(i + 1)), s.boxes.len() as int),
{
    broadcast use vstd::seq_lib::group_to_multiset_ensures;

    let left = concat_all(s.parts.take(i + 1));
    let right = concat_all(s.parts.skip(i + 1));
    lemma_concat_split(s.parts, i + 1);
    vstd::seq_lib::lemma_multiset_commutative(left, right);
    assert(concat_all(s.parts).to_multiset().len() == s.members.to_multiset().len());
    assert(concat_all(s.parts).len() == s.members.len());
    assert forall|b: int| 0 <= b < s.parts.len() implies (#[trigger] s.parts[b]).len()
        <= usize::MAX by {
        crate::split::lemma_part_len(s.parts, b);
    }
    assert forall|b: int| 0 <= b < i + 1 implies #[trigger] buckets.take(i + 1)[b] == Bucket::of(
        s.parts.take(i + 1)[b],
        s.boxes,
    ) by {
        assert(buckets.take(i + 1)[b] == buckets[b]);
    }
    assert forall|b: int| 0 <= b < buckets.skip(i + 1).len() implies #[trigger] buckets.skip(
        i + 1,
    )[b] == Bucket::of(s.parts.skip(i + 1)[b], s.boxes) by {
        assert(buckets.skip(i + 1)[b] == buckets[b + i + 1]);
    }
    lemma_joined_is_bucket_of_concat(buckets.take(i + 1), s.parts.take(i + 1), s.boxes);
    lemma_joined_is_bucket_of_concat(buckets.skip(i + 1), s.parts.skip(i + 1), s.boxes);
    crate::split::lemma_concat_below(s.parts.take(i + 1), s.boxes.len() as int);
    crate::split::lemma_concat_below(s.parts.skip(i + 1), s.boxes.len() as int);
}

/// Works through the pending tasks until a measurement is needed or nothing is
/// left, and hands back the builder in the state that [`settle`] names.
fn settle_pending(
    boxes: Vec<AABB>,
    centroids: Vec<Vec3>,
    epsilon: Scalar,
    nodes: Vec<BvhNode>,
    pending: Vec<Task>,
    spans: Ghost<Seq<Seq<usize>>>,
    kids: Ghost<Seq<(Seq<usize>, Seq<usize>)>>,
    Ghost(s0): Ghost<BuildState>,
) -> (r: BvhBuilder)
    requires
        core_inv(boxes@, nodes@, task_views(pending@), spans@, kids@, false),
        centroids@.len() == boxes@.len(),
        s0.boxes == boxes@,
        s0.centroids == centroids@,
        s0.epsilon == epsilon,
        s0.nodes == nodes@,
        s0.pending == task_views(pending@),
        s0.axis == 0,
        s0.parts == Seq::<Seq<usize>>::empty(),
    ensures
        r@ == settle(s0),
{
    let mut nodes = nodes;
    let mut pending = pending;
    let ghost mut sp = spans@;
    let ghost mut kd = kids@;
    loop
        invariant
            core_inv(boxes@, nodes@, task_views(pending@), sp, kd, false),
            centroids@.len() == boxes@.len(),
            s0.boxes == boxes@,
            s0.centroids == centroids@,
            s0.epsilon == epsilon,
            s0.axis == 0,
            s0.parts == Seq::<Seq<usize>>::empty(),
            settle(BuildState { nodes: nodes@, pending: task_views(pending@), ..s0 }) == settle(s0),
        decreases pending@.len(),
    {
        let ghost cur = BuildState { nodes: nodes@, pending: task_views(pending@), ..s0 };
        let ghost before = task_views(pending@);
        let ghost nodes_before = nodes@;
        let k: usize = nodes.len();
        let binning = Binning { buckets: Vec::new(), assignments: Vec::new() };
        assert(binning.parts() =~= Seq::<Seq<usize>>::empty());
        match pending.pop() {
            None => {
                assert(task_views(pending@) =~= Seq::<TaskView>::empty());
                let r = BvhBuilder {
                    boxes,
                    centroids,
                    epsilon,
                    nodes,
                    pending,
                    stage: Stage::Done,
                    members: Vec::new(),
                    axis: 0,
                    binning,
                    aabb_bounds: AABB::empty(),
                    centroid_bounds: AABB::empty(),
                    spans: Ghost(sp),
                    kids: Ghost(kd),
                };
                assert(r@ == settle(cur));
                return r;
            },
            Some(task) => {
                let Task { indices, parent, right } = task;
                proof {
                    assert(task_views(pending@) =~= before.drop_last());
                    assert(before.last() == task@);
                    assert(task_ok(boxes@, nodes_before, before, kd, k as int, before.len() - 1));
                }
                match nodes[parent] {
                    BvhNode::Node { left_index, left_bbox, right_index, right_bbox } => {
                        if right {
                            nodes.set(
                                parent,
                                BvhNode::Node { left_index, left_bbox, right_index: k, right_bbox },
                            );
                        } else {
                            nodes.set(
                                parent,
                                BvhNode::Node { left_index: k, left_bbox, right_index, right_bbox },
                            );
                        }
                    },
                    BvhNode::Leaf { .. } => {},
                }
                assert(nodes@ == patched(nodes_before, parent, right, k));
                if indices.len() == 1 {
                    let leaf = BvhNode::Leaf { shape_index: indices[0] };
                    nodes.push(leaf);
                    proof {
                        lemma_settle_step(boxes@, nodes_before, before, sp, kd, leaf);
                        sp = sp.push(indices@);
                        kd = kd.push((Seq::empty(), Seq::empty()));
                    }
                } else {
                    let node = BvhNode::Leaf { shape_index: 0 };
                    nodes.push(node);
                    proof {
                        lemma_settle_step(boxes@, nodes_before, before, sp, kd, node);
                        sp = sp.push(indices@);
                        kd = kd.push((Seq::empty(), Seq::empty()));
                        assert(span_ok(boxes@, sp, k as int));
                    }
                    let aabb_bounds = joint_aabb_of_shapes(indices.as_slice(), boxes.as_slice());
                    let centroid_bounds = joint_aabb_of_points(
                        indices.as_slice(),
                        centroids.as_slice(),
                    );
                    let r = BvhBuilder {
                        boxes,
                        centroids,
                        epsilon,
                        nodes,
                        pending,
                        stage: Stage::Extents,
                        members: indices,
                        axis: 0,
                        binning,
                        aabb_bounds,
                        centroid_bounds,
                        spans: Ghost(sp),
                        kids: Ghost(kd),
                    };
                    assert(r@ == settle(cur));
                    return r;
                }
            },
        }
    }
}

/// Splits the open subset into `left` and `right`, whose joint boxes are
/// given, and works on until the next measurement is needed.
fn split_open(
    boxes: Vec<AABB>,
    centroids: Vec<Vec3>,
    epsilon: Scalar,
    nodes: Vec<BvhNode>,
    pending: Vec<Task>,
    left: Vec<usize>,
    left_bbox: AABB,
    right: Vec<usize>,
    right_bbox: AABB,
    spans: Ghost<Seq<Seq<usize>>>,
    kids: Ghost<Seq<(Seq<usize>, Seq<usize>)>>,
    Ghost(s): Ghost<BuildState>,
) -> (r: BvhBuilder)
    requires
        core_inv(boxes@, nodes@, task_views(pending@), spans@, kids@, true),
        centroids@.len() == boxes@.len(),
        s.boxes == boxes@,
        s.centroids == centroids@,
        s.epsilon == epsilon,
        s.nodes == nodes@,
        s.pending == task_views(pending@),
        left@.len() >= 1,
        right@.len() >= 1,
        all_below(left@, boxes@.len() as int),
        all_below(right@, boxes@.len() as int),
        spans@[nodes@.len() - 1].to_multiset() == left@.to_multiset().add(right@.to_multiset()),
        left_bbox == joint_aabb(left@, boxes@),
        right_bbox == joint_aabb(right@, boxes@),
    ensures
        r@ == split_into(s, left@, right@),
{
    let mut nodes = nodes;
    let mut pending = pending;
    let node: usize = nodes.len() - 1;
    let ghost before = task_views(pending@);
    proof {
        lemma_split_step(boxes@, nodes@, before, spans@, kids@, left@, right@);
    }
    nodes.set(node, BvhNode::Node { left_index: 0, left_bbox, right_index: 0, right_bbox });
    let ghost left_view = left@;
    let ghost right_view = right@;
    pending.push(Task { indices: right, parent: node, right: true });
    pending.push(Task { indices: left, parent: node, right: false });
    let ghost task_r = TaskView { indices: right_view, parent: node, right: true };
    let ghost task_l = TaskView { indices: left_view, parent: node, right: false };
    assert(task_views(pending@) =~= before.push(task_r).push(task_l));
    let ghost s1 = BuildState {
        nodes: nodes@,
        pending: task_views(pending@),
        axis: 0,
        parts: Seq::empty(),
        ..s
    };
    settle_pending(
        boxes,
        centroids,
        epsilon,
        nodes,
        pending,
        spans,
        Ghost(kids@.update(node as int, (left_view, right_view))),
        Ghost(s1),
    )
}

/// Cuts the open subset in halves by position and works on until the next
/// measurement is needed.
fn halve_open(
    boxes: Vec<AABB>,
    centroids: Vec<Vec3>,
    epsilon: Scalar,
    nodes: Vec<BvhNode>,
    pending: Vec<Task>,
    members: Vec<usize>,
    spans: Ghost<Seq<Seq<usize>>>,
    kids: Ghost<Seq<(Seq<usize>, Seq<usize>)>>,
    Ghost(s): Ghost<BuildState>,
) -> (r: BvhBuilder)
    requires
        core_inv(boxes@, nodes@, task_views(pending@), spans@, kids@, true),
        centroids@.len() == boxes@.len(),
        s.boxes == boxes@,
        s.centroids == centroids@,
        s.epsilon == epsilon,
        s.nodes == nodes@,
        s.pending == task_views(pending@),
        s.members == members@,
        members@ == spans@[nodes@.len() - 1],
        members@.len() >= 2,
    ensures
        r@ == split_in_halves(s),
{
    broadcast use vstd::seq_lib::group_to_multiset_ensures;

    let ghost all = members@;
    let ghost half = all.len() as int / 2;
    let (left, right) = split_in_half(members);
    proof {
        assert(span_ok(boxes@, spans@, nodes@.len() - 1));
        assert(all =~= left@ + right@);
        vstd::seq_lib::lemma_multiset_commutative(left@, right@);
        assert(all_below(left@, boxes@.len() as int)) by {
            assert forall|i: int| 0 <= i < left@.len() implies (#[trigger] left@[i])
                < boxes@.len() by {
                assert(left@[i] == all[i]);
            }
        }
        assert(all_below(right@, boxes@.len() as int)) by {
            assert forall|i: int| 0 <= i < right@.len() implies (#[trigger] right@[i])
                < boxes@.len() by {
                assert(right@[i] == all[i + half]);
            }
        }
    }
    let left_bbox = joint_aabb_of_shapes(left.as_slice(), boxes.as_slice());
    let right_bbox = joint_aabb_of_shapes(right.as_slice(), boxes.as_slice());
    split_open(
        boxes,
        centroids,
        epsilon,
        nodes,
        pending,
        left,
        left_bbox,
        right,
        right_bbox,
        spans,
        kids,
        Ghost(s),
    )
}

impl BvhBuilder {
    /// Whether `answer` is the one that is waited for: of the kind that was
    /// asked for, and of the right length.
    pub fn takes(&self, answer: &Answer) -> (r: bool)
        ensures
            r == accepts(self@, answer@),
    {
        match answer {
            Answer::Extents(_) => match self.stage {
                Stage::Extents => true,
                _ => false,
            },
            Answer::Bins(raw) => match self.stage {
                Stage::Bins => raw.len() == self.members.len(),
                _ => false,
            },
            Answer::Costs(costs) => match self.stage {
                Stage::Costs => costs.len() == NUM_SPLITS,
                _ => false,
            },
        }
    }

    /// Takes a measurement and works on until the next one is needed.
    ///
    /// An answer of another kind than the one asked for, or of the wrong
    /// length, leaves the builder as it is. Otherwise the builder moves to the
    /// state that [`next_state`] names, and is closer to its end by at least
    /// one answer, as [`crate::progress::lemma_answer_makes_progress`] shows.
    pub fn advance(self, answer: Answer) -> (r: BvhBuilder)
        ensures
            r@ == next_state(self@, answer@),
            sane(r@),
    {
        let r = self.step(answer);
        proof {
            use_type_invariant(&r);
            lemma_inv_is_sane(
                r@,
                r.binning.buckets@,
                r.aabb_bounds,
                r.centroid_bounds,
                r.spans@,
                r.kids@,
            );
        }
        r
    }

    /// Takes a measurement and works on until the next one is needed.
    fn step(self, answer: Answer) -> (r: BvhBuilder)
        ensures
            r@ == next_state(self@, answer@),
    {
        proof {
            use_type_invariant(&self);
        }
        if !self.takes(&answer) {
            return self;
        }
        let ghost s = self@;
        match answer {
            Answer::Extents(size) => {
                let axis: usize = AABB::largest_axis(&size);
                let BvhBuilder {
                    boxes,
                    centroids,
                    epsilon,
                    nodes,
                    pending,
                    stage,
                    members,
                    axis: _,
                    binning,
                    aabb_bounds,
                    centroid_bounds,
                    spans,
                    kids,
                } = self;
                if size.axis(axis) < epsilon {
                    halve_open(
                        boxes,
                        centroids,
                        epsilon,
                        nodes,
                        pending,
                        members,
                        spans,
                        kids,
                        Ghost(s),
                    )
                } else {
                    BvhBuilder {
                        boxes,
                        centroids,
                        epsilon,
                        nodes,
                        pending,
                        stage: Stage::Bins,
                        members,
                        axis,
                        binning,
                        aabb_bounds,
                        centroid_bounds,
                        spans,
                        kids,
                    }
                }
            },
            Answer::Bins(raw) => {
                let BvhBuilder {
                    boxes,
                    centroids,
                    epsilon,
                    nodes,
                    pending,
                    stage,
                    members,
                    axis,
                    binning: _,
                    aabb_bounds,
                    centroid_bounds,
                    spans,
                    kids,
                } = self;
                proof {
                    assert(span_ok(boxes@, spans@, nodes@.len() - 1));
                }
                let binning = assign_buckets(members.as_slice(), raw.as_slice(), boxes.as_slice());
                proof {
                    assert(binning.parts() =~= all_members(members@, raw@));
                    lemma_bins_partition(members@, raw@);
                    assert forall|b: int| 0 <= b < NUM_BUCKETS implies all_below(
                        #[trigger] binning.parts()[b],
                        boxes@.len() as int,
                    ) by {
                        lemma_members_below(members@, raw@, b, boxes@.len() as int);
                    }
                }
                BvhBuilder {
                    boxes,
                    centroids,
                    epsilon,
                    nodes,
                    pending,
                    stage: Stage::Costs,
                    members,
                    axis,
                    binning,
                    aabb_bounds,
                    centroid_bounds,
                    spans,
                    kids,
                }
            },
            Answer::Costs(costs) => {
                let m: usize = cheapest(costs.as_slice());
                let sides = self.candidate(m);
                let count: usize = self.members.len();
                let BvhBuilder {
                    boxes,
                    centroids,
                    epsilon,
                    nodes,
                    pending,
                    stage,
                    members,
                    axis,
                    binning,
                    aabb_bounds,
                    centroid_bounds,
                    spans,
                    kids,
                } = self;
                let Binning { buckets, assignments } = binning;
                let mut assignments = assignments;
                let ghost parts = contents(assignments@);
                proof {
                    lemma_sides(s, buckets@, m as int);
                }
                let mut tail = assignments.split_off(m + 1);
                proof {
                    assert(contents(assignments@) =~= parts.take(m + 1));
                    assert(contents(tail@) =~= parts.skip(m + 1));
                }
                let left = concatenate_vectors(assignments.as_mut_slice());
                let right = concatenate_vectors(tail.as_mut_slice());
                if left.len() == 0 || right.len() == 0 {
                    halve_open(
                        boxes,
                        centroids,
                        epsilon,
                        nodes,
                        pending,
                        members,
                        spans,
                        kids,
                        Ghost(s),
                    )
                } else {
                    match sides {
                        Some((low, high)) => split_open(
                            boxes,
                            centroids,
                            epsilon,
                            nodes,
                            pending,
                            left,
                            low.aabb,
                            right,
                            high.aabb,
                            spans,
                            kids,
                            Ghost(s),
                        ),
                        None => halve_open(
                            boxes,
                            centroids,
                            epsilon,
                            nodes,
                            pending,
                            members,
                            spans,
                            kids,
                            Ghost(s),
                        ),
                    }
                }
            },
        }
    }
}

impl Bvh {
    /// The hierarchy that a finished construction has built; `None` while the
    /// construction still waits for a measurement.
    pub fn new(builder: BvhBuilder) -> (r: Option<Bvh>)
        ensures
            r is Some <==> builder@.stage == Stage::Done,
            r matches Some(bvh) ==> {
                &&& bvh.tree() == builder@.nodes
                &&& bvh.shapes() == builder@.boxes
                &&& bvh.spans() == builder.spans()
                &&& bvh.wf()
            },
    {
        proof {
            use_type_invariant(&builder);
        }
        let shapes: usize = builder.boxes.len();
        match builder.stage {
            Stage::Done => {
                proof {
                    assert(builder@.pending =~= Seq::<TaskView>::empty());
                    lemma_complete(builder.boxes@, builder.nodes@, builder.spans@, builder.kids@);
                }
                let BvhBuilder { boxes, nodes, spans, .. } = builder;
                Some(Bvh::from_parts(nodes, boxes, spans))
            },
            _ => None,
        }
    }
}

/// A construction is always in a state that it can be in.
proof fn lemma_inv_is_sane(
    s: BuildState,
    buckets: Seq<Bucket>,
    aabb_bounds: AABB,
    centroid_bounds: AABB,
    spans: Seq<Seq<usize>>,
    kids: Seq<(Seq<usize>, Seq<usize>)>,
)
    requires
        build_inv(s, buckets, aabb_bounds, centroid_bounds, spans, kids),
    ensures
        sane(s),
{
    assert forall|j: int| 0 <= j < s.pending.len() implies (#[trigger] s.pending[j]).indices.len()
        >= 1 by {
        assert(task_ok(
            s.boxes,
            s.nodes,
            s.pending,
            kids,
            built_count(s.nodes, s.stage != Stage::Done),
            j,
        ));
    }
    if s.stage == Stage::Costs {
        vstd::seq_lib::to_multiset_len(concat_all(s.parts));
        vstd::seq_lib::to_multiset_len(s.members);
    }
}

} // verus!
