//! Why a construction comes to an end, and why it is repeatable.

use vstd::prelude::*;
use crate::aabb::AABB;
use crate::builder::{
    accepts, initial_state, next_state, request_of, settle, split_into, AnswerView, BuildState,
    Stage, TaskView,
};
use crate::bvh::concat_all;
use crate::split::{cheapest_place, is_cheapest, lemma_concat_split, NUM_BUCKETS};
use crate::vectors::{Scalar, Vec3};

verus! {

/// Whether a state is one that a construction can be in: every pending
/// subset holds a shape, the open subset holds at least two, and where it has
/// been binned its buckets hold as many shapes as it has members.
pub open spec fn sane(s: BuildState) -> bool {
    &&& forall|j: int| 0 <= j < s.pending.len() ==> (#[trigger] s.pending[j]).indices.len() >= 1
    &&& s.stage != Stage::Done ==> s.members.len() >= 2
    &&& s.stage == Stage::Costs ==> s.parts.len() == NUM_BUCKETS && concat_all(s.parts).len()
        == s.members.len()
}

/// A bound on the answers that the pending subsets can take: three for every
/// split, and a subset of `m` shapes is split `m - 1` times.
pub open spec fn pending_cost(pending: Seq<TaskView>) -> int
    decreases pending.len(),
{
    if pending.len() == 0 {
        0
    } else {
        pending_cost(pending.drop_last()) + 3 * (pending.last().indices.len() - 1)
    }
}

/// A bound on the answers that a construction can still take.
pub open spec fn answers_left(s: BuildState) -> int {
    pending_cost(s.pending) + match s.stage {
        Stage::Extents => 3 * (s.members.len() - 1),
        Stage::Bins => 3 * (s.members.len() - 1) - 1,
        Stage::Costs => 3 * (s.members.len() - 1) - 2,
        Stage::Done => 0,
    }
}

/// The state after each of `answers` in turn.
pub open spec fn replay(s: BuildState, answers: Seq<AnswerView>) -> BuildState
    decreases answers.len(),
{
    if answers.len() == 0 {
        s
    } else {
        next_state(replay(s, answers.drop_last()), answers.last())
    }
}

/// Among costs, of which there is at least one, one place is the cheapest.
pub proof fn lemma_cheapest_exists(costs: Seq<Scalar>)
    requires
        costs.len() > 0,
    ensures
        is_cheapest(costs, cheapest_place(costs)),
    decreases costs.len(),
{
    if costs.len() == 1 {
        assert(is_cheapest(costs, 0));
    } else {
        let front = costs.drop_last();
        lemma_cheapest_exists(front);
        let m = cheapest_place(front);
        assert forall|j: int| 0 <= j < front.len() implies front[j] == costs[j] by {}
        if costs.last() < front[m] {
            assert(is_cheapest(costs, costs.len() - 1)) by {
                assert forall|j: int| 0 <= j < costs.len() - 1 implies (#[trigger] costs[j])
                    > costs[costs.len() - 1] by {
                    assert(front[m] <= front[j]);
                }
            }
        } else {
            assert(is_cheapest(costs, m)) by {
                assert forall|j: int| 0 <= j < costs.len() implies costs[m] <= #[trigger] costs[j] by {
                    if j < front.len() {
                        assert(front[m] <= front[j]);
                    }
                }
                assert forall|j: int| 0 <= j < m implies (#[trigger] costs[j]) > costs[m] by {
                    assert(front[j] > front[m]);
                }
            }
        }
    }
}

/// What is pending takes no fewer than zero answers.
proof fn lemma_pending_cost(pending: Seq<TaskView>)
    requires
        forall|j: int| 0 <= j < pending.len() ==> (#[trigger] pending[j]).indices.len() >= 1,
    ensures
        pending_cost(pending) >= 0,
    decreases pending.len(),
{
    if pending.len() > 0 {
        assert forall|j: int| 0 <= j < pending.drop_last().len() implies (
        #[trigger] pending.drop_last()[j]).indices.len() >= 1 by {
            assert(pending.drop_last()[j] == pending[j]);
        }
        lemma_pending_cost(pending.drop_last());
        assert(pending[pending.len() - 1].indices.len() >= 1);
    }
}

/// Working through the pending subsets takes no answer: afterwards as many
/// are left as the pending subsets could take before.
proof fn lemma_settle_cost(s: BuildState)
    requires
        forall|j: int| 0 <= j < s.pending.len() ==> (#[trigger] s.pending[j]).indices.len() >= 1,
    ensures
        answers_left(settle(s)) == pending_cost(s.pending),
        sane(settle(s)),
        settle(s).stage == Stage::Done || settle(s).stage == Stage::Extents,
    decreases s.pending.len(),
{
    if s.pending.len() > 0 {
        let task = s.pending.last();
        assert(s.pending[s.pending.len() - 1].indices.len() >= 1);
        assert forall|j: int| 0 <= j < s.pending.drop_last().len() implies (
        #[trigger] s.pending.drop_last()[j]).indices.len() >= 1 by {
            assert(s.pending.drop_last()[j] == s.pending[j]);
        }
        if task.indices.len() == 1 {
            let nodes = crate::builder::patched(
                s.nodes,
                task.parent,
                task.right,
                s.nodes.len() as usize,
            );
            lemma_settle_cost(
                BuildState {
                    nodes: nodes.push(
                        crate::bvh::BvhNode::Leaf { shape_index: task.indices[0] },
                    ),
                    pending: s.pending.drop_last(),
                    ..s
                },
            );
        }
    }
}

/// Splitting a subset of `m` shapes leaves `3 * (m - 2)` answers for its two
/// sides, besides what was pending.
proof fn lemma_split_cost(s: BuildState, left: Seq<usize>, right: Seq<usize>)
    requires
        forall|j: int| 0 <= j < s.pending.len() ==> (#[trigger] s.pending[j]).indices.len() >= 1,
        left.len() >= 1,
        right.len() >= 1,
    ensures
        answers_left(split_into(s, left, right)) == pending_cost(s.pending) + 3 * (left.len()
            + right.len() - 2),
        sane(split_into(s, left, right)),
{
    let node = (s.nodes.len() - 1) as usize;
    let task_r = TaskView { indices: right, parent: node, right: true };
    let task_l = TaskView { indices: left, parent: node, right: false };
    let pending = s.pending.push(task_r).push(task_l);
    assert(pending.drop_last() == s.pending.push(task_r));
    assert(s.pending.push(task_r).drop_last() == s.pending);
    assert(pending.last() == task_l);
    assert(s.pending.push(task_r).last() == task_r);
    assert(pending_cost(s.pending.push(task_r)) == pending_cost(s.pending) + 3 * (right.len() - 1));
    assert(pending_cost(pending) == pending_cost(s.pending) + 3 * (right.len() - 1) + 3 * (
    left.len() - 1));
    let inner = crate::bvh::BvhNode::Node {
        left_index: 0,
        left_bbox: crate::bvh::joint_aabb(left, s.boxes),
        right_index: 0,
        right_bbox: crate::bvh::joint_aabb(right, s.boxes),
    };
    let before = BuildState {
        nodes: s.nodes.update(node as int, inner),
        pending,
        axis: 0,
        parts: Seq::empty(),
        ..s
    };
    assert forall|j: int| 0 <= j < pending.len() implies (#[trigger] pending[j]).indices.len()
        >= 1 by {
        if j < s.pending.len() {
            assert(pending[j] == s.pending[j]);
        }
    }
    lemma_settle_cost(before);
    assert(split_into(s, left, right) == settle(before));
}

/// Every answer that is accepted brings a construction closer to its end.
pub proof fn lemma_answer_makes_progress(s: BuildState, answer: AnswerView)
    requires
        sane(s),
        accepts(s, answer),
    ensures
        sane(next_state(s, answer)),
        0 <= answers_left(next_state(s, answer)) < answers_left(s),
{
    lemma_pending_cost(s.pending);
    let m = s.members.len() as int;
    let half = m / 2;
    assert(s.members.take(half).len() + s.members.skip(half).len() == m);
    lemma_split_cost(s, s.members.take(half), s.members.skip(half));
    match answer {
        AnswerView::Extents(size) => {},
        AnswerView::Bins(raw) => {
            crate::split::lemma_bins_partition(s.members, raw);
            vstd::seq_lib::to_multiset_len(concat_all(crate::split::all_members(s.members, raw)));
            vstd::seq_lib::to_multiset_len(s.members);
        },
        AnswerView::Costs(costs) => {
            lemma_cheapest_exists(costs);
            let place = cheapest_place(costs);
            let left = concat_all(s.parts.take(place + 1));
            let right = concat_all(s.parts.skip(place + 1));
            lemma_concat_split(s.parts, place + 1);
            if left.len() >= 1 && right.len() >= 1 {
                lemma_split_cost(s, left, right);
            }
        },
    }
}

/// A construction over `n` shapes starts with at most `3 * (n - 1)` answers
/// to take: three for each of its `n - 1` splits.
pub proof fn lemma_initial_cost(boxes: Seq<AABB>, centroids: Seq<Vec3>, epsilon: Scalar)
    requires
        boxes.len() >= 1,
    ensures
        sane(initial_state(boxes, centroids, epsilon)),
        answers_left(initial_state(boxes, centroids, epsilon)) == 3 * (boxes.len() - 1),
{
}

/// A construction is done exactly when no answer is left to take.
pub proof fn lemma_done_means_nothing_left(s: BuildState)
    requires
        sane(s),
    ensures
        s.stage != Stage::Done ==> answers_left(s) >= 1,
        s.stage == Stage::Done ==> request_of(s) == crate::builder::Request::Done,
{
    lemma_pending_cost(s.pending);
}

/// A construction is repeatable: from equal states, equal answers lead to
/// equal states, and so to equal requests and in the end to equal nodes.
pub proof fn lemma_construction_is_repeatable(
    first: BuildState,
    second: BuildState,
    answers: Seq<AnswerView>,
)
    requires
        first == second,
    ensures
        replay(first, answers) == replay(second, answers),
        request_of(replay(first, answers)) == request_of(replay(second, answers)),
        replay(first, answers).nodes == replay(second, answers).nodes,
{
}

} // verus!
