//! Why the traversal of a hierarchy finds the nearest hit: the same one, up
//! to ties, as a scan over all the shapes.

use vstd::prelude::*;
use crate::aabb::AABB;
use crate::bvh::{joint_aabb, lemma_joint_encloses, node_ok, tree_ok, Bvh, BvhNode};
use crate::hittable::{Closest, HitRecord, Interval};
use crate::traverse::{
    child, child_box, enter, initial, is_inner, next, probe_of, resume, state_ok, Probe, Reply,
    TraversalState, Waiting,
};
use crate::vectors::Scalar;

verus! {

/// The outcome of every test that a caller can be asked to make for one ray.
pub struct RayTests {
    /// Whether the ray meets a box within an interval.
    pub box_test: spec_fn(AABB, Interval) -> bool,
    /// The hit of the ray on a shape within an interval, if there is one.
    pub shape_test: spec_fn(usize, Interval) -> Option<HitRecord>,
}

/// `within`, cut off at `end`.
pub open spec fn narrowed(within: Interval, end: Scalar) -> Interval {
    Interval { start: within.start, end }
}

/// `hit`, unless it lies at or beyond `end`.
pub open spec fn trimmed(hit: Option<HitRecord>, end: Scalar) -> Option<HitRecord> {
    match hit {
        Some(h) => if h.t < end {
            Some(h)
        } else {
            None
        },
        None => None,
    }
}

/// Whether every shape answers a narrower query consistently: with the hit
/// that it reports within `within`, as long as that hit lies in the narrower
/// interval, and with no hit otherwise.
pub open spec fn shapes_lawful(tests: RayTests, shapes: int, within: Interval) -> bool {
    forall|i: usize, end: Scalar|
        i < shapes && end <= within.end ==> #[trigger] (tests.shape_test)(i, narrowed(within, end))
            == trimmed((tests.shape_test)(i, within), end)
}

/// Whether the box test is conservative: the ray meets, within an interval,
/// every box that encloses the bounding box of a shape which it hits within
/// that interval.
pub open spec fn boxes_lawful(tests: RayTests, boxes: Seq<AABB>, within: Interval) -> bool {
    forall|bbox: AABB, i: usize, end: Scalar|
        #![trigger (tests.box_test)(bbox, narrowed(within, end)), boxes[i as int]]
        i < boxes.len() && end <= within.end && bbox.encloses(boxes[i as int]) && trimmed(
            (tests.shape_test)(i, within),
            end,
        ) is Some ==> (tests.box_test)(bbox, narrowed(within, end))
}

/// The reply that the tests give to a probe.
pub open spec fn reply_to(tests: RayTests, probe: Probe) -> Reply {
    match probe {
        Probe::Box { bbox, interval } => Reply::Box((tests.box_test)(bbox, interval)),
        Probe::Shape { shape_index, interval } => Reply::Shape(
            (tests.shape_test)(shape_index, interval),
        ),
        Probe::Done => Reply::Box(false),
    }
}

/// The state of a traversal after at most `fuel` tests, each answered by
/// `tests`.
pub open spec fn run(nodes: Seq<BvhNode>, tests: RayTests, s: TraversalState, fuel: nat) -> TraversalState
    decreases fuel,
{
    if fuel == 0 || s.waiting == Waiting::Done {
        s
    } else {
        run(nodes, tests, next(nodes, s, reply_to(tests, probe_of(nodes, s))), (fuel - 1) as nat)
    }
}

/// The closest hit that the traversal of `nodes` finds within `within`, where
/// `tests` answers its probes. A hierarchy over `shapes` shapes needs fewer
/// than `3 * shapes` tests.
pub open spec fn traversal_hit(
    nodes: Seq<BvhNode>,
    shapes: nat,
    tests: RayTests,
    within: Interval,
) -> Option<HitRecord> {
    run(nodes, tests, initial(nodes, within), 3 * shapes).closest.hit
}

/// The search after a scan over the first `count` shapes, each asked within
/// the interval that ends at the closest hit before it.
pub open spec fn scan(tests: RayTests, count: nat, within: Interval) -> Closest
    decreases count,
{
    if count == 0 {
        Closest { start: within.start, end: within.end, hit: None }
    } else {
        let before = scan(tests, (count - 1) as nat, within);
        before.offer_spec(
            (tests.shape_test)(
                (count - 1) as usize,
                Interval { start: before.start, end: before.end },
            ),
        )
    }
}

/// Whether what `c` has found is a hit that one of the first `count` shapes
/// reports within `within`, and its interval ends there.
pub open spec fn settled(tests: RayTests, count: int, within: Interval, c: Closest) -> bool {
    &&& c.start == within.start
    &&& c.end <= within.end
    &&& match c.hit {
        Some(h) => h.t == c.end && exists|j: usize|
            j < count && #[trigger] (tests.shape_test)(j, within) == Some(h),
        None => c.end == within.end,
    }
}

/// Whether `c` has found a nearest hit among the first `count` shapes: none of
/// them reports a hit before the one that `c` holds, or any hit at all where
/// `c` holds none.
pub open spec fn is_nearest(tests: RayTests, count: int, within: Interval, c: Closest) -> bool {
    &&& settled(tests, count, within, c)
    &&& forall|i: usize|
        i < count ==> trimmed(#[trigger] (tests.shape_test)(i, within), c.end) is None
}

/// A search that has found a hit ends before the end of the query interval.
pub proof fn lemma_found_is_inside(tests: RayTests, count: int, within: Interval, c: Closest)
    requires
        settled(tests, count, within, c),
        shapes_lawful(tests, count, within),
    ensures
        c.hit is Some ==> c.end < within.end,
        c.hit is None ==> c.end == within.end,
{
    if c.hit is Some {
        let j = choose|j: usize| j < count && #[trigger] (tests.shape_test)(j, within) == c.hit;
        assert((tests.shape_test)(j, narrowed(within, within.end)) == trimmed(
            (tests.shape_test)(j, within),
            within.end,
        ));
        assert(narrowed(within, within.end) == within);
    }
}

/// Two searches that have both found a nearest hit have found hits at the
/// same ray parameter, or both none.
pub proof fn lemma_nearest_unique(
    tests: RayTests,
    count: int,
    within: Interval,
    a: Closest,
    b: Closest,
)
    requires
        is_nearest(tests, count, within, a),
        is_nearest(tests, count, within, b),
        shapes_lawful(tests, count, within),
    ensures
        a.end == b.end,
        a.hit is None <==> b.hit is None,
        a.hit matches Some(x) ==> b.hit matches Some(y) && x.t == y.t,
{
    lemma_found_is_inside(tests, count, within, a);
    lemma_found_is_inside(tests, count, within, b);
    if a.end < b.end {
        let j = choose|j: usize| j < count && #[trigger] (tests.shape_test)(j, within) == a.hit;
        assert(trimmed((tests.shape_test)(j, within), b.end) is None);
    }
    if b.end < a.end {
        let j = choose|j: usize| j < count && #[trigger] (tests.shape_test)(j, within) == b.hit;
        assert(trimmed((tests.shape_test)(j, within), a.end) is None);
    }
}

/// A scan over the shapes finds a nearest hit.
pub proof fn lemma_scan_finds_nearest(tests: RayTests, count: nat, within: Interval)
    requires
        count <= usize::MAX,
        shapes_lawful(tests, count as int, within),
    ensures
        is_nearest(tests, count as int, within, scan(tests, count, within)),
    decreases count,
{
    if count > 0 {
        let last = (count - 1) as usize;
        let before = scan(tests, (count - 1) as nat, within);
        lemma_scan_finds_nearest(tests, (count - 1) as nat, within);
        let reply = (tests.shape_test)(last, Interval { start: before.start, end: before.end });
        let after = before.offer_spec(reply);
        assert(Interval { start: before.start, end: before.end } == narrowed(within, before.end));
        assert(reply == trimmed((tests.shape_test)(last, within), before.end));
        match reply {
            Some(h) => {
                assert((tests.shape_test)(last, within) == Some(h));
                assert forall|i: usize| i < count implies trimmed(
                    #[trigger] (tests.shape_test)(i, within),
                    after.end,
                ) is None by {
                    if i < count - 1 {
                        assert(trimmed((tests.shape_test)(i, within), before.end) is None);
                    }
                }
            },
            None => {
                if before.hit is Some {
                    let j = choose|j: usize|
                        j < count - 1 && #[trigger] (tests.shape_test)(j, within) == before.hit;
                    assert(j < count);
                }
                assert forall|i: usize| i < count implies trimmed(
                    #[trigger] (tests.shape_test)(i, within),
                    after.end,
                ) is None by {
                    if i < count - 1 {
                        assert(trimmed((tests.shape_test)(i, within), before.end) is None);
                    }
                }
            },
        }
    }
}

/// Whether shape `i` is still to come: it lies below a right subtree that was
/// put off, or below the subtree whose box is being tested, or it is the
/// shape that is being tested.
pub open spec fn ahead(
    nodes: Seq<BvhNode>,
    spans: Seq<Seq<usize>>,
    s: TraversalState,
    i: usize,
) -> bool {
    ||| put_off(nodes, spans, s.stack, i)
    ||| match s.waiting {
        Waiting::Left(k) => spans[child(nodes, k, false) as int].contains(i),
        Waiting::Right(k) => spans[child(nodes, k, true) as int].contains(i),
        Waiting::Shape(shape_index) => shape_index == i,
        Waiting::Done => false,
    }
}

/// Whether shape `i` lies below a right subtree that was put off.
pub open spec fn put_off(
    nodes: Seq<BvhNode>,
    spans: Seq<Seq<usize>>,
    stack: Seq<usize>,
    i: usize,
) -> bool {
    exists|at: int|
        0 <= at < stack.len() && spans[child(nodes, #[trigger] stack[at], true) as int].contains(i)
}

/// Whether a traversal is on its way to a nearest hit: what it has found is
/// a hit that a shape reports, and every shape that reports a closer one is
/// still to come.
pub open spec fn on_track(
    nodes: Seq<BvhNode>,
    boxes: Seq<AABB>,
    spans: Seq<Seq<usize>>,
    tests: RayTests,
    within: Interval,
    s: TraversalState,
) -> bool {
    &&& state_ok(nodes, boxes.len() as int, s)
    &&& settled(tests, boxes.len() as int, within, s.closest)
    &&& forall|i: usize|
        i < boxes.len() && trimmed(#[trigger] (tests.shape_test)(i, within), s.closest.end) is Some
            ==> ahead(nodes, spans, s, i)
}

/// The shapes below an inner node are those below its two children.
pub proof fn lemma_span_split(
    nodes: Seq<BvhNode>,
    boxes: Seq<AABB>,
    spans: Seq<Seq<usize>>,
    k: usize,
    i: usize,
)
    requires
        tree_ok(nodes, boxes, spans),
        is_inner(nodes, k),
    ensures
        spans[k as int].contains(i) <==> spans[child(nodes, k, false) as int].contains(i)
            || spans[child(nodes, k, true) as int].contains(i),
        spans[k as int].len() == spans[child(nodes, k, false) as int].len() + spans[child(
            nodes,
            k,
            true,
        ) as int].len(),
        k < child(nodes, k, false) < nodes.len(),
        k < child(nodes, k, true) < nodes.len(),
{
    broadcast use vstd::seq_lib::group_to_multiset_ensures;

    assert(node_ok(nodes, boxes, spans, k as int));
    let l = spans[child(nodes, k, false) as int];
    let r = spans[child(nodes, k, true) as int];
    assert(spans[k as int].to_multiset().count(i) == l.to_multiset().count(i) + r.to_multiset().count(
        i,
    ));
    assert(spans[k as int].to_multiset().len() == l.to_multiset().len() + r.to_multiset().len());
}

/// What was put off stays to come when the traversal turns back to it.
proof fn lemma_resume_ahead(
    nodes: Seq<BvhNode>,
    spans: Seq<Seq<usize>>,
    s: TraversalState,
    i: usize,
)
    requires
        put_off(nodes, spans, s.stack, i),
    ensures
        ahead(nodes, spans, resume(s), i),
{
    let at = choose|at: int|
        0 <= at < s.stack.len() && spans[child(nodes, #[trigger] s.stack[at], true) as int].contains(
            i,
        );
    if at < s.stack.len() - 1 {
        assert(s.stack.drop_last()[at] == s.stack[at]);
        assert(put_off(nodes, spans, resume(s).stack, i));
    }
}

/// Stepping into a node keeps to come what was put off and what lies below
/// that node.
proof fn lemma_enter_ahead(
    nodes: Seq<BvhNode>,
    boxes: Seq<AABB>,
    spans: Seq<Seq<usize>>,
    s: TraversalState,
    c: usize,
    i: usize,
)
    requires
        tree_ok(nodes, boxes, spans),
        c < nodes.len(),
        put_off(nodes, spans, s.stack, i) || spans[c as int].contains(i),
    ensures
        ahead(nodes, spans, enter(nodes, s, c), i),
{
    let after = enter(nodes, s, c);
    assert(node_ok(nodes, boxes, spans, c as int));
    if put_off(nodes, spans, s.stack, i) {
        let at = choose|at: int|
            0 <= at < s.stack.len() && spans[child(
                nodes,
                #[trigger] s.stack[at],
                true,
            ) as int].contains(i);
        assert(after.stack[at] == s.stack[at]);
        assert(put_off(nodes, spans, after.stack, i));
    } else {
        match nodes[c as int] {
            BvhNode::Leaf { shape_index } => {
                assert(spans[c as int][0] == shape_index);
            },
            BvhNode::Node { .. } => {
                lemma_span_split(nodes, boxes, spans, c, i);
                if spans[child(nodes, c, true) as int].contains(i) {
                    assert(after.stack[s.stack.len() as int] == c);
                    assert(put_off(nodes, spans, after.stack, i));
                }
            },
        }
    }
}

/// Stepping into a node keeps the state in order.
proof fn lemma_enter_ok(
    nodes: Seq<BvhNode>,
    boxes: Seq<AABB>,
    spans: Seq<Seq<usize>>,
    s: TraversalState,
    c: usize,
)
    requires
        tree_ok(nodes, boxes, spans),
        c < nodes.len(),
        forall|i: int| 0 <= i < s.stack.len() ==> is_inner(nodes, #[trigger] s.stack[i]),
    ensures
        state_ok(nodes, boxes.len() as int, enter(nodes, s, c)),
{
    assert(node_ok(nodes, boxes, spans, c as int));
    match nodes[c as int] {
        BvhNode::Leaf { shape_index } => {
            assert(spans[c as int][0] == shape_index);
        },
        BvhNode::Node { .. } => {},
    }
}

/// A traversal starts on track.
pub proof fn lemma_start_on_track(
    nodes: Seq<BvhNode>,
    boxes: Seq<AABB>,
    spans: Seq<Seq<usize>>,
    tests: RayTests,
    within: Interval,
)
    requires
        tree_ok(nodes, boxes, spans),
    ensures
        on_track(nodes, boxes, spans, tests, within, initial(nodes, within)),
{
    let s0 = TraversalState {
        stack: Seq::empty(),
        waiting: Waiting::Done,
        closest: Closest { start: within.start, end: within.end, hit: None },
    };
    lemma_enter_ok(nodes, boxes, spans, s0, 0);
    assert forall|i: usize|
        i < boxes.len() && trimmed(
            #[trigger] (tests.shape_test)(i, within),
            within.end,
        ) is Some implies ahead(nodes, spans, initial(nodes, within), i) by {
        assert(spans[0][i as int] == i);
        lemma_enter_ahead(nodes, boxes, spans, s0, 0, i);
    }
}

/// One test, answered by lawful tests, keeps a traversal on track.
pub proof fn lemma_step_on_track(
    nodes: Seq<BvhNode>,
    boxes: Seq<AABB>,
    spans: Seq<Seq<usize>>,
    tests: RayTests,
    within: Interval,
    s: TraversalState,
)
    requires
        tree_ok(nodes, boxes, spans),
        shapes_lawful(tests, boxes.len() as int, within),
        boxes_lawful(tests, boxes, within),
        on_track(nodes, boxes, spans, tests, within, s),
    ensures
        on_track(
            nodes,
            boxes,
            spans,
            tests,
            within,
            next(nodes, s, reply_to(tests, probe_of(nodes, s))),
        ),
{
    let after = next(nodes, s, reply_to(tests, probe_of(nodes, s)));
    let end = s.closest.end;
    assert(Interval { start: s.closest.start, end } == narrowed(within, end));
    match s.waiting {
        Waiting::Done => {},
        Waiting::Shape(shape_index) => {
            let reply = (tests.shape_test)(shape_index, narrowed(within, end));
            assert(reply == trimmed((tests.shape_test)(shape_index, within), end));
            assert(after == resume(
                TraversalState { closest: s.closest.offer_spec(reply), ..s },
            ));
            assert forall|i: usize|
                i < boxes.len() && trimmed(
                    #[trigger] (tests.shape_test)(i, within),
                    after.closest.end,
                ) is Some implies ahead(nodes, spans, after, i) by {
                assert(trimmed((tests.shape_test)(i, within), end) is Some);
                assert(ahead(nodes, spans, s, i));
                lemma_resume_ahead(
                    nodes,
                    spans,
                    TraversalState { closest: s.closest.offer_spec(reply), ..s },
                    i,
                );
            }
            if reply is None && s.closest.hit is Some {
                let j = choose|j: usize|
                    j < boxes.len() && #[trigger] (tests.shape_test)(j, within) == s.closest.hit;
            }
        },
        Waiting::Left(k) => {
            lemma_link_on_track(nodes, boxes, spans, tests, within, s, k, false);
        },
        Waiting::Right(k) => {
            lemma_link_on_track(nodes, boxes, spans, tests, within, s, k, true);
        },
    }
}

/// The test of a box keeps a traversal on track.
proof fn lemma_link_on_track(
    nodes: Seq<BvhNode>,
    boxes: Seq<AABB>,
    spans: Seq<Seq<usize>>,
    tests: RayTests,
    within: Interval,
    s: TraversalState,
    k: usize,
    right: bool,
)
    requires
        tree_ok(nodes, boxes, spans),
        shapes_lawful(tests, boxes.len() as int, within),
        boxes_lawful(tests, boxes, within),
        on_track(nodes, boxes, spans, tests, within, s),
        s.waiting == (if right {
            Waiting::Right(k)
        } else {
            Waiting::Left(k)
        }),
    ensures
        on_track(
            nodes,
            boxes,
            spans,
            tests,
            within,
            next(nodes, s, reply_to(tests, probe_of(nodes, s))),
        ),
{
    let after = next(nodes, s, reply_to(tests, probe_of(nodes, s)));
    let end = s.closest.end;
    let c = child(nodes, k, right);
    let bbox = child_box(nodes, k, right);
    assert(Interval { start: s.closest.start, end } == narrowed(within, end));
    let met = (tests.box_test)(bbox, narrowed(within, end));
    assert(node_ok(nodes, boxes, spans, k as int));
    assert(bbox == joint_aabb(spans[c as int], boxes));
    assert(node_ok(nodes, boxes, spans, c as int));
    if met {
        assert(after == enter(nodes, s, c));
        lemma_enter_ok(nodes, boxes, spans, s, c);
        assert forall|i: usize|
            i < boxes.len() && trimmed(
                #[trigger] (tests.shape_test)(i, within),
                after.closest.end,
            ) is Some implies ahead(nodes, spans, after, i) by {
            assert(ahead(nodes, spans, s, i));
            lemma_enter_ahead(nodes, boxes, spans, s, c, i);
        }
    } else {
        assert(after == resume(s));
        assert forall|i: usize|
            i < boxes.len() && trimmed(
                #[trigger] (tests.shape_test)(i, within),
                after.closest.end,
            ) is Some implies ahead(nodes, spans, after, i) by {
            assert(ahead(nodes, spans, s, i));
            if spans[c as int].contains(i) {
                let at = choose|at: int| 0 <= at < spans[c as int].len() && spans[c as int][at] == i;
                lemma_joint_encloses(spans[c as int], boxes, at);
                assert(bbox.encloses(boxes[i as int]));
                assert((tests.box_test)(bbox, narrowed(within, end)));
            }
            lemma_resume_ahead(nodes, spans, s, i);
        }
    }
}

/// A bound on the tests that a subtree can take, its own box included: one
/// for the box, one for each shape below it, and two for the boxes of every
/// inner node below it.
pub open spec fn link_weight(
    nodes: Seq<BvhNode>,
    spans: Seq<Seq<usize>>,
    k: usize,
    right: bool,
) -> int {
    3 * spans[child(nodes, k, right) as int].len() - 1
}

/// A bound on the tests that the subtrees that were put off can take.
pub open spec fn stack_weight(nodes: Seq<BvhNode>, spans: Seq<Seq<usize>>, stack: Seq<usize>) -> int
    decreases stack.len(),
{
    if stack.len() == 0 {
        0
    } else {
        stack_weight(nodes, spans, stack.drop_last()) + link_weight(
            nodes,
            spans,
            stack.last(),
            true,
        )
    }
}

/// A bound on the tests that a traversal can still ask for.
pub open spec fn tests_left(nodes: Seq<BvhNode>, spans: Seq<Seq<usize>>, s: TraversalState) -> int {
    stack_weight(nodes, spans, s.stack) + match s.waiting {
        Waiting::Left(k) => link_weight(nodes, spans, k, false),
        Waiting::Right(k) => link_weight(nodes, spans, k, true),
        Waiting::Shape(_) => 1,
        Waiting::Done => 0,
    }
}

/// Every subtree below an inner node may take at least two tests.
proof fn lemma_link_weight(
    nodes: Seq<BvhNode>,
    boxes: Seq<AABB>,
    spans: Seq<Seq<usize>>,
    k: usize,
    right: bool,
)
    requires
        tree_ok(nodes, boxes, spans),
        is_inner(nodes, k),
    ensures
        link_weight(nodes, spans, k, right) >= 2,
{
    assert(node_ok(nodes, boxes, spans, k as int));
    assert(node_ok(nodes, boxes, spans, child(nodes, k, right) as int));
}

/// What was put off takes no fewer than zero tests.
proof fn lemma_stack_weight(
    nodes: Seq<BvhNode>,
    boxes: Seq<AABB>,
    spans: Seq<Seq<usize>>,
    stack: Seq<usize>,
)
    requires
        tree_ok(nodes, boxes, spans),
        forall|i: int| 0 <= i < stack.len() ==> is_inner(nodes, #[trigger] stack[i]),
    ensures
        stack_weight(nodes, spans, stack) >= 0,
    decreases stack.len(),
{
    if stack.len() > 0 {
        assert forall|i: int| 0 <= i < stack.drop_last().len() implies is_inner(
            nodes,
            #[trigger] stack.drop_last()[i],
        ) by {
            assert(stack.drop_last()[i] == stack[i]);
        }
        lemma_stack_weight(nodes, boxes, spans, stack.drop_last());
        assert(is_inner(nodes, stack[stack.len() - 1]));
        lemma_link_weight(nodes, boxes, spans, stack.last(), true);
    }
}

/// Stepping into a node of `m` shapes leaves at most `3 * m - 2` more tests
/// than there were put off.
proof fn lemma_enter_weight(
    nodes: Seq<BvhNode>,
    boxes: Seq<AABB>,
    spans: Seq<Seq<usize>>,
    s: TraversalState,
    c: usize,
)
    requires
        tree_ok(nodes, boxes, spans),
        c < nodes.len(),
    ensures
        tests_left(nodes, spans, enter(nodes, s, c)) == stack_weight(nodes, spans, s.stack) + 3
            * spans[c as int].len() - 2,
{
    assert(node_ok(nodes, boxes, spans, c as int));
    match nodes[c as int] {
        BvhNode::Leaf { .. } => {},
        BvhNode::Node { .. } => {
            lemma_span_split(nodes, boxes, spans, c, 0);
            assert(s.stack.push(c).drop_last() == s.stack);
        },
    }
}

/// Every test brings a traversal closer to its end.
pub proof fn lemma_step_fewer_left(
    nodes: Seq<BvhNode>,
    boxes: Seq<AABB>,
    spans: Seq<Seq<usize>>,
    tests: RayTests,
    s: TraversalState,
)
    requires
        tree_ok(nodes, boxes, spans),
        state_ok(nodes, boxes.len() as int, s),
        s.waiting != Waiting::Done,
    ensures
        0 <= tests_left(nodes, spans, next(nodes, s, reply_to(tests, probe_of(nodes, s))))
            < tests_left(nodes, spans, s),
{
    let after = next(nodes, s, reply_to(tests, probe_of(nodes, s)));
    lemma_stack_weight(nodes, boxes, spans, s.stack);
    if s.stack.len() > 0 {
        assert(is_inner(nodes, s.stack[s.stack.len() - 1]));
        lemma_link_weight(nodes, boxes, spans, s.stack.last(), true);
        assert forall|i: int| 0 <= i < s.stack.drop_last().len() implies is_inner(
            nodes,
            #[trigger] s.stack.drop_last()[i],
        ) by {
            assert(s.stack.drop_last()[i] == s.stack[i]);
        }
        lemma_stack_weight(nodes, boxes, spans, s.stack.drop_last());
    }
    match s.waiting {
        Waiting::Left(k) => {
            lemma_link_weight(nodes, boxes, spans, k, false);
            lemma_span_split(nodes, boxes, spans, k, 0);
            lemma_enter_weight(nodes, boxes, spans, s, child(nodes, k, false));
            assert(node_ok(nodes, boxes, spans, child(nodes, k, false) as int));
        },
        Waiting::Right(k) => {
            lemma_link_weight(nodes, boxes, spans, k, true);
            lemma_span_split(nodes, boxes, spans, k, 0);
            lemma_enter_weight(nodes, boxes, spans, s, child(nodes, k, true));
            assert(node_ok(nodes, boxes, spans, child(nodes, k, true) as int));
        },
        _ => {},
    }
}

/// A traversal that is on track, given enough tests, ends with a nearest hit.
pub proof fn lemma_run_finds_nearest(
    nodes: Seq<BvhNode>,
    boxes: Seq<AABB>,
    spans: Seq<Seq<usize>>,
    tests: RayTests,
    within: Interval,
    s: TraversalState,
    fuel: nat,
)
    requires
        tree_ok(nodes, boxes, spans),
        shapes_lawful(tests, boxes.len() as int, within),
        boxes_lawful(tests, boxes, within),
        on_track(nodes, boxes, spans, tests, within, s),
        fuel >= tests_left(nodes, spans, s),
    ensures
        run(nodes, tests, s, fuel).waiting == Waiting::Done,
        is_nearest(tests, boxes.len() as int, within, run(nodes, tests, s, fuel).closest),
    decreases fuel,
{
    if s.waiting == Waiting::Done {
        assert forall|i: usize| i < boxes.len() implies trimmed(
            #[trigger] (tests.shape_test)(i, within),
            s.closest.end,
        ) is None by {
            if trimmed((tests.shape_test)(i, within), s.closest.end) is Some {
                assert(ahead(nodes, spans, s, i));
            }
        }
    } else {
        lemma_step_fewer_left(nodes, boxes, spans, tests, s);
        lemma_step_on_track(nodes, boxes, spans, tests, within, s);
        lemma_run_finds_nearest(
            nodes,
            boxes,
            spans,
            tests,
            within,
            next(nodes, s, reply_to(tests, probe_of(nodes, s))),
            (fuel - 1) as nat,
        );
    }
}

/// The traversal of a sound hierarchy and a scan over all its shapes find
/// hits at the same ray parameter, or both none, whenever the tests are
/// lawful: every shape answers a narrower query consistently, and the box
/// test is conservative. The traversal is done after fewer tests than three
/// times the number of shapes.
pub proof fn lemma_traversal_matches_scan(bvh: &Bvh, tests: RayTests, within: Interval)
    requires
        bvh.wf(),
        shapes_lawful(tests, bvh.shapes().len() as int, within),
        boxes_lawful(tests, bvh.shapes(), within),
    ensures
        run(
            bvh.tree(),
            tests,
            initial(bvh.tree(), within),
            3 * bvh.shapes().len(),
        ).waiting == Waiting::Done,
        traversal_hit(bvh.tree(), bvh.shapes().len(), tests, within) is None <==> scan(
            tests,
            bvh.shapes().len(),
            within,
        ).hit is None,
        traversal_hit(bvh.tree(), bvh.shapes().len(), tests, within) matches Some(found) ==> scan(
            tests,
            bvh.shapes().len(),
            within,
        ).hit matches Some(scanned) && found.t == scanned.t,
{
    let nodes = bvh.tree();
    let boxes = bvh.shapes();
    let spans = bvh.spans();
    let s0 = TraversalState {
        stack: Seq::empty(),
        waiting: Waiting::Done,
        closest: Closest { start: within.start, end: within.end, hit: None },
    };
    lemma_start_on_track(nodes, boxes, spans, tests, within);
    lemma_enter_weight(nodes, boxes, spans, s0, 0);
    assert(spans[0].len() == boxes.len());
    lemma_run_finds_nearest(
        nodes,
        boxes,
        spans,
        tests,
        within,
        initial(nodes, within),
        3 * boxes.len(),
    );
    lemma_scan_finds_nearest(tests, boxes.len(), within);
    lemma_nearest_unique(
        tests,
        boxes.len() as int,
        within,
        run(nodes, tests, initial(nodes, within), 3 * boxes.len()).closest,
        scan(tests, boxes.len(), within),
    );
}

} // verus!
