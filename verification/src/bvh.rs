//! The bounding volume hierarchy: its nodes, and the pieces from which it is
//! built.

use vstd::prelude::*;
use crate::aabb::AABB;
use crate::vectors::Vec3;

verus! {

/// A node of the hierarchy. Nodes live in one flat array and name their
/// children by position in it.
#[derive(Clone, Copy, Debug, PartialEq, Eq, Structural)]
pub enum BvhNode {
    /// A single shape.
    Leaf { shape_index: usize },
    /// Two subtrees, each with the joint box of the shapes below it.
    Node { left_index: usize, left_bbox: AABB, right_index: usize, right_bbox: AABB },
}

/// The indices `0, 1, .., n - 1`.
pub open spec fn iota(n: nat) -> Seq<usize> {
    Seq::new(n, |i: int| i as usize)
}

/// Whether node `k` is sound: `spans[k]` names the shapes below it, a leaf
/// holds its one shape, and an inner node points forward to two children
/// which share its shapes between them and whose joint boxes it stores.
pub open spec fn node_ok(
    nodes: Seq<BvhNode>,
    boxes: Seq<AABB>,
    spans: Seq<Seq<usize>>,
    k: int,
) -> bool {
    &&& spans[k].len() >= 1
    &&& all_below(spans[k], boxes.len() as int)
    &&& match nodes[k] {
        BvhNode::Leaf { shape_index } => spans[k] == seq![shape_index],
        BvhNode::Node { left_index, left_bbox, right_index, right_bbox } => {
            &&& k < left_index < nodes.len()
            &&& k < right_index < nodes.len()
            &&& spans[k].to_multiset() == spans[left_index as int].to_multiset().add(
                spans[right_index as int].to_multiset(),
            )
            &&& left_bbox == joint_aabb(spans[left_index as int], boxes)
            &&& right_bbox == joint_aabb(spans[right_index as int], boxes)
        },
    }
}

/// Whether `nodes` is a hierarchy over the shapes whose boxes are `boxes`:
/// the root is node 0, it spans all the shapes, every node is sound, and
/// there is one leaf for each shape and one inner node less.
pub open spec fn tree_ok(nodes: Seq<BvhNode>, boxes: Seq<AABB>, spans: Seq<Seq<usize>>) -> bool {
    &&& 1 <= boxes.len() <= usize::MAX
    &&& nodes.len() == 2 * boxes.len() - 1
    &&& spans.len() == nodes.len()
    &&& spans[0] == iota(boxes.len())
    &&& forall|k: int| 0 <= k < nodes.len() ==> node_ok(nodes, boxes, spans, k)
}

/// A bounding volume hierarchy over a fixed set of shapes.
///
/// The hierarchy knows each shape by its index and its bounding box only; the
/// shapes themselves stay with the caller. Node 0 is the root. Every value of
/// this type is a sound tree, as [`Bvh::wf`] says: it is made by
/// [`Bvh::new`] from a finished construction and never changes.
pub struct Bvh {
    pub(crate) nodes: Vec<BvhNode>,
    pub(crate) boxes: Vec<AABB>,
    pub(crate) spans: Ghost<Seq<Seq<usize>>>,
}

impl Bvh {
    #[verifier::type_invariant]
    pub(crate) closed spec fn inv(self) -> bool {
        tree_ok(self.nodes@, self.boxes@, self.spans@)
    }

    /// The nodes, the root first.
    pub closed spec fn tree(&self) -> Seq<BvhNode> {
        self.nodes@
    }

    /// The bounding box of every shape.
    pub closed spec fn shapes(&self) -> Seq<AABB> {
        self.boxes@
    }

    /// For every node, the shapes in the leaves below it.
    pub closed spec fn spans(&self) -> Seq<Seq<usize>> {
        self.spans@
    }

    /// Whether the hierarchy is a sound tree over its shapes.
    pub open spec fn wf(&self) -> bool {
        tree_ok(self.tree(), self.shapes(), self.spans())
    }

    /// The hierarchy with the given nodes over the given shapes.
    pub(crate) fn from_parts(
        nodes: Vec<BvhNode>,
        boxes: Vec<AABB>,
        spans: Ghost<Seq<Seq<usize>>>,
    ) -> (r: Bvh)
        requires
            tree_ok(nodes@, boxes@, spans@),
        ensures
            r.tree() == nodes@,
            r.shapes() == boxes@,
            r.spans() == spans@,
            r.wf(),
    {
        Bvh { nodes, boxes, spans }
    }

    /// The nodes of the hierarchy, the root first.
    pub fn nodes(&self) -> (r: &Vec<BvhNode>)
        ensures
            r@ == self.tree(),
            self.wf(),
    {
        proof {
            use_type_invariant(self);
        }
        &self.nodes
    }

    /// The bounding boxes of the shapes, by shape index.
    pub fn boxes(&self) -> (r: &Vec<AABB>)
        ensures
            r@ == self.shapes(),
            self.wf(),
    {
        proof {
            use_type_invariant(self);
        }
        &self.boxes
    }
}

/// The sequences of `parts`, one after the other.
pub open spec fn concat_all<T>(parts: Seq<Seq<T>>) -> Seq<T>
    decreases parts.len(),
{
    if parts.len() == 0 {
        Seq::empty()
    } else {
        concat_all(parts.drop_last()) + parts.last()
    }
}

/// The contents of each vector of a slice.
pub open spec fn contents<T>(vectors: Seq<Vec<T>>) -> Seq<Seq<T>> {
    Seq::new(vectors.len(), |i: int| vectors[i]@)
}

/// Moves the items of all the vectors into one, in order, and leaves every
/// vector empty.
pub fn concatenate_vectors<T: Sized>(vectors: &mut [Vec<T>]) -> (r: Vec<T>)
    ensures
        r@ == concat_all(contents(old(vectors)@)),
        final(vectors)@.len() == old(vectors)@.len(),
        forall|i: int| 0 <= i < final(vectors)@.len() ==> (#[trigger] final(vectors)@[i])@.len() == 0,
{
    let mut result: Vec<T> = Vec::new();
    let n: usize = vectors.len();
    let mut i: usize = 0;
    while i < n
        invariant
            i <= n,
            n == vectors@.len(),
            n == old(vectors)@.len(),
            result@ == concat_all(contents(old(vectors)@).take(i as int)),
            forall|j: int| 0 <= j < i ==> (#[trigger] vectors@[j])@.len() == 0,
            forall|j: int| i <= j < n ==> vectors@[j] == old(vectors)@[j],
        decreases n - i,
    {
        proof {
            let c = contents(old(vectors)@);
            assert(c.take(i as int + 1).drop_last() == c.take(i as int));
            assert(c.take(i as int + 1).last() == c[i as int]);
        }
        result.append(&mut vectors[i]);
        i += 1;
    }
    proof {
        let c = contents(old(vectors)@);
        assert(c.take(n as int) == c);
    }
    result
}

/// The smallest box that holds the boxes of all the shapes that `indices`
/// names; the empty box where it names none.
pub open spec fn joint_aabb(indices: Seq<usize>, boxes: Seq<AABB>) -> AABB
    decreases indices.len(),
{
    if indices.len() == 0 {
        AABB::empty_spec()
    } else {
        joint_aabb(indices.drop_last(), boxes).merge_spec(boxes[indices.last() as int])
    }
}

/// The smallest box that holds the points of all the shapes that `indices`
/// names.
pub open spec fn joint_points(indices: Seq<usize>, points: Seq<Vec3>) -> AABB
    decreases indices.len(),
{
    if indices.len() == 0 {
        AABB::empty_spec()
    } else {
        joint_points(indices.drop_last(), points).grow_spec(points[indices.last() as int])
    }
}

/// Whether every index of `indices` is below `n`.
pub open spec fn all_below(indices: Seq<usize>, n: int) -> bool {
    forall|i: int| 0 <= i < indices.len() ==> (#[trigger] indices[i]) < n
}

/// The joint box of a concatenation is the merge of the joint boxes.
pub proof fn lemma_joint_concat(a: Seq<usize>, b: Seq<usize>, boxes: Seq<AABB>)
    ensures
        joint_aabb(a + b, boxes) == joint_aabb(a, boxes).merge_spec(joint_aabb(b, boxes)),
    decreases b.len(),
{
    if b.len() == 0 {
        assert(a + b == a);
    } else {
        assert((a + b).drop_last() == a + b.drop_last());
        assert((a + b).last() == b.last());
        lemma_joint_concat(a, b.drop_last(), boxes);
    }
}

/// The joint box encloses the box of every shape that went into it.
pub proof fn lemma_joint_encloses(indices: Seq<usize>, boxes: Seq<AABB>, j: int)
    requires
        0 <= j < indices.len(),
    ensures
        joint_aabb(indices, boxes).encloses(boxes[indices[j] as int]),
    decreases indices.len(),
{
    if j < indices.len() - 1 {
        lemma_joint_encloses(indices.drop_last(), boxes, j);
    }
}

/// The joint box of valid boxes, of at least one, is valid.
pub proof fn lemma_joint_valid(indices: Seq<usize>, boxes: Seq<AABB>)
    requires
        indices.len() > 0,
        forall|i: int| 0 <= i < indices.len() ==> (#[trigger] boxes[indices[i] as int]).valid(),
    ensures
        joint_aabb(indices, boxes).valid(),
        !joint_aabb(indices, boxes).is_empty_spec(),
    decreases indices.len(),
{
    assert(boxes[indices[indices.len() - 1] as int].valid());
    if indices.len() > 1 {
        assert forall|i: int| 0 <= i < indices.drop_last().len() implies (
        #[trigger] boxes[indices.drop_last()[i] as int]).valid() by {
            assert(indices.drop_last()[i] == indices[i]);
        }
        lemma_joint_valid(indices.drop_last(), boxes);
    }
}

/// The joint box of the shapes that `indices` names, where `shapes` holds the
/// bounding box of each shape.
pub fn joint_aabb_of_shapes(indices: &[usize], shapes: &[AABB]) -> (r: AABB)
    requires
        all_below(indices@, shapes@.len() as int),
    ensures
        r == joint_aabb(indices@, shapes@),
{
    let mut aabb = AABB::empty();
    let mut i: usize = 0;
    while i < indices.len()
        invariant
            i <= indices@.len(),
            all_below(indices@, shapes@.len() as int),
            aabb == joint_aabb(indices@.take(i as int), shapes@),
        decreases indices@.len() - i,
    {
        proof {
            assert(indices@.take(i as int + 1).drop_last() == indices@.take(i as int));
        }
        aabb = aabb.merge(&shapes[indices[i]]);
        i += 1;
    }
    proof {
        assert(indices@.take(indices@.len() as int) == indices@);
    }
    aabb
}

/// The box that holds the points of the shapes that `indices` names.
pub fn joint_aabb_of_points(indices: &[usize], points: &[Vec3]) -> (r: AABB)
    requires
        all_below(indices@, points@.len() as int),
    ensures
        r == joint_points(indices@, points@),
{
    let mut aabb = AABB::empty();
    let mut i: usize = 0;
    while i < indices.len()
        invariant
            i <= indices@.len(),
            all_below(indices@, points@.len() as int),
            aabb == joint_points(indices@.take(i as int), points@),
        decreases indices@.len() - i,
    {
        proof {
            assert(indices@.take(i as int + 1).drop_last() == indices@.take(i as int));
        }
        aabb = aabb.grow(points[indices[i]]);
        i += 1;
    }
    proof {
        assert(indices@.take(indices@.len() as int) == indices@);
    }
    aabb
}

/// A count of shapes together with their joint box.
#[derive(Clone, Copy, Debug)]
pub struct Bucket {
    /// The number of shapes in this bucket.
    pub size: usize,
    /// The joint box of the shapes in this bucket.
    pub aabb: AABB,
}

impl Bucket {
    /// The bucket that holds exactly the shapes that `indices` names.
    pub open spec fn of(indices: Seq<usize>, boxes: Seq<AABB>) -> Bucket {
        Bucket { size: indices.len() as usize, aabb: joint_aabb(indices, boxes) }
    }

    /// The bucket with no shape in it.
    pub fn empty() -> (r: Bucket)
        ensures
            r == (Bucket { size: 0, aabb: AABB::empty_spec() }),
    {
        Bucket { size: 0, aabb: AABB::default() }
    }

    /// Adds one shape, whose box is `aabb`, to the bucket.
    pub fn add_aabb(&mut self, aabb: &AABB)
        requires
            old(self).size < usize::MAX,
        ensures
            final(self).size == old(self).size + 1,
            final(self).aabb == old(self).aabb.merge_spec(*aabb),
    {
        self.size += 1;
        self.aabb = self.aabb.merge(aabb);
    }

    /// The bucket that holds the shapes of both.
    pub fn join_bucket(a: Bucket, b: &Bucket) -> (r: Bucket)
        requires
            a.size + b.size <= usize::MAX,
        ensures
            r == (Bucket { size: (a.size + b.size) as usize, aabb: a.aabb.merge_spec(b.aabb) }),
    {
        Bucket { size: a.size + b.size, aabb: a.aabb.merge(&b.aabb) }
    }
}

impl Default for Bucket {
    fn default() -> (r: Bucket)
        ensures
            r == (Bucket { size: 0, aabb: AABB::empty_spec() }),
    {
        Bucket::empty()
    }
}

/// Taking one shape out of a subset and merging its box back in gives the
/// joint box of the subset.
pub proof fn lemma_joint_remove(indices: Seq<usize>, boxes: Seq<AABB>, i: int)
    requires
        0 <= i < indices.len(),
    ensures
        joint_aabb(indices, boxes) == joint_aabb(indices.remove(i), boxes).merge_spec(
            boxes[indices[i] as int],
        ),
    decreases indices.len(),
{
    if i == indices.len() - 1 {
        assert(indices.remove(i) == indices.drop_last());
    } else {
        lemma_joint_remove(indices.drop_last(), boxes, i);
        assert(indices.remove(i).drop_last() == indices.drop_last().remove(i));
        assert(indices.remove(i).last() == indices.last());
        assert(indices.drop_last()[i] == indices[i]);
    }
}

/// The joint box of a subset does not depend on the order of its shapes.
pub proof fn lemma_joint_any_order(a: Seq<usize>, b: Seq<usize>, boxes: Seq<AABB>)
    requires
        a.to_multiset() == b.to_multiset(),
    ensures
        joint_aabb(a, boxes) == joint_aabb(b, boxes),
    decreases a.len(),
{
    broadcast use vstd::seq_lib::group_to_multiset_ensures;

    assert(a.len() == b.len()) by {
        vstd::seq_lib::to_multiset_len(a);
        vstd::seq_lib::to_multiset_len(b);
    }
    if a.len() > 0 {
        let x = a.last();
        assert(a.contains(x)) by {
            assert(a[a.len() - 1] == x);
        }
        assert(b.to_multiset().count(x) > 0);
        assert(b.contains(x));
        let i = choose|i: int| 0 <= i < b.len() && b[i] == x;
        assert(a.drop_last() == a.remove(a.len() - 1));
        assert(a.drop_last().to_multiset() == b.remove(i).to_multiset());
        lemma_joint_any_order(a.drop_last(), b.remove(i), boxes);
        lemma_joint_remove(b, boxes, i);
    }
}

/// The box of the shapes below a node, as the node itself tells it: the box
/// of its shape for a leaf, the merge of its two stored boxes for an inner
/// node.
pub open spec fn node_box(nodes: Seq<BvhNode>, boxes: Seq<AABB>, k: int) -> AABB {
    match nodes[k] {
        BvhNode::Leaf { shape_index } => boxes[shape_index as int],
        BvhNode::Node { left_bbox, right_bbox, .. } => left_bbox.merge_spec(right_bbox),
    }
}

/// The shapes in the leaves below node `k`, from left to right.
pub open spec fn leaves_below(nodes: Seq<BvhNode>, k: int) -> Seq<usize>
    decreases nodes.len() - k,
{
    if 0 <= k < nodes.len() {
        match nodes[k] {
            BvhNode::Leaf { shape_index } => seq![shape_index],
            BvhNode::Node { left_index, right_index, .. } => if k < left_index < nodes.len() && k
                < right_index < nodes.len() {
                leaves_below(nodes, left_index as int) + leaves_below(nodes, right_index as int)
            } else {
                Seq::empty()
            },
        }
    } else {
        Seq::empty()
    }
}

/// In a sound tree, the span of a node holds exactly the shapes in the leaves
/// below it, each once for each leaf that holds it.
pub proof fn lemma_span_is_leaves(
    nodes: Seq<BvhNode>,
    boxes: Seq<AABB>,
    spans: Seq<Seq<usize>>,
    k: int,
)
    requires
        tree_ok(nodes, boxes, spans),
        0 <= k < nodes.len(),
    ensures
        leaves_below(nodes, k).to_multiset() == spans[k].to_multiset(),
    decreases nodes.len() - k,
{
    assert(node_ok(nodes, boxes, spans, k));
    match nodes[k] {
        BvhNode::Leaf { shape_index } => {},
        BvhNode::Node { left_index, right_index, .. } => {
            lemma_span_is_leaves(nodes, boxes, spans, left_index as int);
            lemma_span_is_leaves(nodes, boxes, spans, right_index as int);
            vstd::seq_lib::lemma_multiset_commutative(
                leaves_below(nodes, left_index as int),
                leaves_below(nodes, right_index as int),
            );
        },
    }
}

/// In a sound tree every shape sits in exactly one leaf: the leaves, from
/// left to right, hold the shapes `0, 1, .., n - 1` in some order.
pub proof fn lemma_every_shape_in_one_leaf(
    nodes: Seq<BvhNode>,
    boxes: Seq<AABB>,
    spans: Seq<Seq<usize>>,
    shape: usize,
)
    requires
        tree_ok(nodes, boxes, spans),
    ensures
        leaves_below(nodes, 0).len() == boxes.len(),
        leaves_below(nodes, 0).to_multiset().count(shape) == if shape < boxes.len() {
            1nat
        } else {
            0nat
        },
{
    broadcast use vstd::seq_lib::group_to_multiset_ensures;

    lemma_span_is_leaves(nodes, boxes, spans, 0);
    assert(leaves_below(nodes, 0).to_multiset().len() == spans[0].to_multiset().len());
    lemma_iota_counts(boxes.len(), shape);
}

/// Among the indices `0, 1, .., n - 1` each one below `n` occurs once, and no
/// other occurs at all.
pub proof fn lemma_iota_counts(n: nat, shape: usize)
    requires
        n <= usize::MAX,
    ensures
        iota(n).to_multiset().count(shape) == if shape < n {
            1nat
        } else {
            0nat
        },
    decreases n,
{
    broadcast use vstd::seq_lib::group_to_multiset_ensures;

    if n == 0 {
        assert(iota(0).to_multiset() =~= vstd::multiset::Multiset::<usize>::empty());
    } else {
        lemma_iota_counts((n - 1) as nat, shape);
        assert(iota(n) =~= iota((n - 1) as nat).push((n - 1) as usize));
    }
}

/// In a sound tree the box that an inner node stores for a child is the box
/// that the child tells of itself: the merge of the child's two stored boxes,
/// or the bounding box of the child's shape. The stored boxes are the exact
/// joint boxes of the leaves below, and enclose the box of each of them.
pub proof fn lemma_stored_boxes_are_merges(
    nodes: Seq<BvhNode>,
    boxes: Seq<AABB>,
    spans: Seq<Seq<usize>>,
    k: int,
)
    requires
        tree_ok(nodes, boxes, spans),
        0 <= k < nodes.len(),
    ensures
        nodes[k] matches BvhNode::Node { left_index, left_bbox, right_index, right_bbox } ==> {
            &&& left_bbox == node_box(nodes, boxes, left_index as int)
            &&& right_bbox == node_box(nodes, boxes, right_index as int)
            &&& left_bbox == joint_aabb(leaves_below(nodes, left_index as int), boxes)
            &&& right_bbox == joint_aabb(leaves_below(nodes, right_index as int), boxes)
        },
{
    assert(node_ok(nodes, boxes, spans, k));
    match nodes[k] {
        BvhNode::Leaf { .. } => {},
        BvhNode::Node { left_index, right_index, .. } => {
            lemma_node_box(nodes, boxes, spans, left_index as int);
            lemma_node_box(nodes, boxes, spans, right_index as int);
            lemma_span_is_leaves(nodes, boxes, spans, left_index as int);
            lemma_span_is_leaves(nodes, boxes, spans, right_index as int);
            lemma_joint_any_order(
                leaves_below(nodes, left_index as int),
                spans[left_index as int],
                boxes,
            );
            lemma_joint_any_order(
                leaves_below(nodes, right_index as int),
                spans[right_index as int],
                boxes,
            );
        },
    }
}

/// In a sound tree the box that a node tells of itself is the joint box of
/// its span.
pub proof fn lemma_node_box(nodes: Seq<BvhNode>, boxes: Seq<AABB>, spans: Seq<Seq<usize>>, k: int)
    requires
        tree_ok(nodes, boxes, spans),
        0 <= k < nodes.len(),
    ensures
        node_box(nodes, boxes, k) == joint_aabb(spans[k], boxes),
{
    assert(node_ok(nodes, boxes, spans, k));
    match nodes[k] {
        BvhNode::Leaf { shape_index } => {
            assert(spans[k].drop_last() =~= Seq::<usize>::empty());
            assert(spans[k].last() == shape_index);
            assert(joint_aabb(spans[k].drop_last(), boxes) == AABB::empty_spec());
        },
        BvhNode::Node { left_index, right_index, .. } => {
            let l = spans[left_index as int];
            let r = spans[right_index as int];
            lemma_joint_concat(l, r, boxes);
            vstd::seq_lib::lemma_multiset_commutative(l, r);
            assert(spans[k].to_multiset() == (l + r).to_multiset());
            lemma_joint_any_order(spans[k], l + r, boxes);
        },
    }
}

} // verus!
