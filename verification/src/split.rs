//! The decisions of a binned split: which bucket a shape falls into, what each
//! candidate split holds, and which candidate is the cheapest.

use vstd::prelude::*;
use crate::aabb::AABB;
use crate::bvh::{all_below, concat_all, contents, joint_aabb, lemma_joint_concat, Bucket};
use crate::vectors::Scalar;

verus! {

/// The number of buckets along the split axis.
pub const NUM_BUCKETS: usize = 6;

/// The number of places at which the row of buckets can be cut in two.
pub const NUM_SPLITS: usize = 5;

/// The bucket for a raw bucket number: the number itself, or the last bucket
/// where the number lies beyond it.
pub open spec fn bucket_of(raw: usize) -> int {
    if raw < NUM_BUCKETS {
        raw as int
    } else {
        NUM_BUCKETS - 1
    }
}

/// Clamps a raw bucket number to the last bucket.
pub fn bucket_index(raw: usize) -> (r: usize)
    ensures
        r == bucket_of(raw),
        r < NUM_BUCKETS,
{
    if raw < NUM_BUCKETS {
        raw
    } else {
        NUM_BUCKETS - 1
    }
}

/// The shapes of `indices` whose raw bucket number falls into bucket `b`, in
/// the order in which `indices` names them. `raw` holds one number for each
/// index.
pub open spec fn members_of(indices: Seq<usize>, raw: Seq<usize>, b: int) -> Seq<usize>
    decreases indices.len(),
{
    if indices.len() == 0 || raw.len() == 0 {
        Seq::empty()
    } else {
        let rest = members_of(indices.drop_last(), raw.drop_last(), b);
        if bucket_of(raw.last()) == b {
            rest.push(indices.last())
        } else {
            rest
        }
    }
}

/// No bucket holds more shapes than there are.
pub proof fn lemma_members_len(indices: Seq<usize>, raw: Seq<usize>, b: int)
    ensures
        members_of(indices, raw, b).len() <= indices.len(),
    decreases indices.len(),
{
    if indices.len() != 0 && raw.len() != 0 {
        lemma_members_len(indices.drop_last(), raw.drop_last(), b);
    }
}

/// Every member of a bucket is one of the shapes that were binned.
pub proof fn lemma_members_below(indices: Seq<usize>, raw: Seq<usize>, b: int, n: int)
    requires
        all_below(indices, n),
    ensures
        all_below(members_of(indices, raw, b), n),
    decreases indices.len(),
{
    if indices.len() != 0 && raw.len() != 0 {
        assert(all_below(indices.drop_last(), n)) by {
            assert forall|i: int| 0 <= i < indices.drop_last().len() implies (
            #[trigger] indices.drop_last()[i]) < n by {
                assert(indices.drop_last()[i] == indices[i]);
            }
        }
        lemma_members_below(indices.drop_last(), raw.drop_last(), b, n);
    }
}

/// The shapes of every bucket, bucket by bucket.
pub open spec fn all_members(indices: Seq<usize>, raw: Seq<usize>) -> Seq<Seq<usize>> {
    Seq::new(NUM_BUCKETS as nat, |b: int| members_of(indices, raw, b))
}

/// Adding a shape to one part adds it to the whole.
pub proof fn lemma_concat_push(parts: Seq<Seq<usize>>, b: int, x: usize)
    requires
        0 <= b < parts.len(),
    ensures
        concat_all(parts.update(b, parts[b].push(x))).to_multiset() == concat_all(
            parts,
        ).to_multiset().insert(x),
    decreases parts.len(),
{
    broadcast use vstd::seq_lib::group_to_multiset_ensures;

    let updated = parts.update(b, parts[b].push(x));
    if b == parts.len() - 1 {
        assert(updated.drop_last() == parts.drop_last());
        assert(concat_all(updated) == concat_all(parts).push(x));
    } else {
        assert(updated.drop_last() == parts.drop_last().update(b, parts[b].push(x)));
        assert(parts.drop_last()[b] == parts[b]);
        lemma_concat_push(parts.drop_last(), b, x);
        vstd::seq_lib::lemma_multiset_commutative(concat_all(updated.drop_last()), parts.last());
        vstd::seq_lib::lemma_multiset_commutative(concat_all(parts.drop_last()), parts.last());
        assert(concat_all(updated).to_multiset() =~= concat_all(parts).to_multiset().insert(x));
    }
}

/// Parts that are all empty hold nothing.
pub proof fn lemma_concat_of_empties(parts: Seq<Seq<usize>>)
    requires
        forall|b: int| 0 <= b < parts.len() ==> (#[trigger] parts[b]).len() == 0,
    ensures
        concat_all(parts) == Seq::<usize>::empty(),
    decreases parts.len(),
{
    if parts.len() > 0 {
        assert forall|b: int| 0 <= b < parts.drop_last().len() implies (
        #[trigger] parts.drop_last()[b]).len() == 0 by {
            assert(parts.drop_last()[b] == parts[b]);
        }
        lemma_concat_of_empties(parts.drop_last());
        assert(parts.last().len() == 0);
        assert(concat_all(parts) =~= Seq::<usize>::empty());
    }
}

/// Binning loses no shape and invents none: the buckets together hold exactly
/// the shapes that were binned, each as often as it was named.
pub proof fn lemma_bins_partition(indices: Seq<usize>, raw: Seq<usize>)
    requires
        raw.len() == indices.len(),
    ensures
        concat_all(all_members(indices, raw)).to_multiset() == indices.to_multiset(),
    decreases indices.len(),
{
    broadcast use vstd::seq_lib::group_to_multiset_ensures;

    let parts = all_members(indices, raw);
    if indices.len() == 0 {
        lemma_concat_of_empties(parts);
        assert(indices.to_multiset() =~= concat_all(parts).to_multiset());
    } else {
        let before = all_members(indices.drop_last(), raw.drop_last());
        let b = bucket_of(raw.last());
        lemma_bins_partition(indices.drop_last(), raw.drop_last());
        assert(parts == before.update(b, before[b].push(indices.last())));
        lemma_concat_push(before, b, indices.last());
        assert(indices == indices.drop_last().push(indices.last()));
    }
}

/// No part is longer than the whole.
pub proof fn lemma_part_len(parts: Seq<Seq<usize>>, b: int)
    requires
        0 <= b < parts.len(),
    ensures
        parts[b].len() <= concat_all(parts).len(),
    decreases parts.len(),
{
    if b < parts.len() - 1 {
        lemma_part_len(parts.drop_last(), b);
    }
}

/// Where every part names only shapes below `n`, so does the whole.
pub proof fn lemma_concat_below(parts: Seq<Seq<usize>>, n: int)
    requires
        forall|b: int| 0 <= b < parts.len() ==> all_below(#[trigger] parts[b], n),
    ensures
        all_below(concat_all(parts), n),
    decreases parts.len(),
{
    if parts.len() > 0 {
        assert forall|b: int| 0 <= b < parts.drop_last().len() implies all_below(
            #[trigger] parts.drop_last()[b],
            n,
        ) by {
            assert(parts.drop_last()[b] == parts[b]);
        }
        lemma_concat_below(parts.drop_last(), n);
        assert(all_below(parts.last(), n));
    }
}

/// The whole is its first parts followed by its last parts.
pub proof fn lemma_concat_split(parts: Seq<Seq<usize>>, at: int)
    requires
        0 <= at <= parts.len(),
    ensures
        concat_all(parts) == concat_all(parts.take(at)) + concat_all(parts.skip(at)),
    decreases parts.len(),
{
    if at == parts.len() {
        assert(parts.take(at) == parts);
        assert(parts.skip(at).len() == 0);
        assert(concat_all(parts) =~= concat_all(parts) + Seq::<usize>::empty());
    } else {
        assert(parts.drop_last().take(at) == parts.take(at));
        assert(parts.drop_last().skip(at) == parts.skip(at).drop_last());
        assert(parts.skip(at).last() == parts.last());
        lemma_concat_split(parts.drop_last(), at);
        assert(concat_all(parts) =~= concat_all(parts.take(at)) + concat_all(parts.skip(at)));
    }
}

/// The shapes of a subset sorted into buckets: for each bucket the shapes in
/// it, and their count and joint box.
pub struct Binning {
    pub buckets: Vec<Bucket>,
    pub assignments: Vec<Vec<usize>>,
}

impl Binning {
    /// The shapes of each bucket.
    pub open spec fn parts(&self) -> Seq<Seq<usize>> {
        contents(self.assignments@)
    }

    /// Whether there are `NUM_BUCKETS` buckets, each with the count and the
    /// joint box of the shapes assigned to it.
    pub open spec fn wf(&self, boxes: Seq<AABB>) -> bool {
        &&& self.buckets@.len() == NUM_BUCKETS
        &&& self.assignments@.len() == NUM_BUCKETS
        &&& forall|b: int|
            0 <= b < NUM_BUCKETS ==> #[trigger] self.buckets@[b] == Bucket::of(
                self.assignments@[b]@,
                boxes,
            )
    }
}

/// Sorts the shapes of `indices` into buckets by their raw bucket numbers.
///
/// `raw[i]` is the number computed for the shape `indices[i]`; a number beyond
/// the last bucket counts as the last bucket. Within a bucket the shapes keep
/// the order that they have in `indices`.
pub fn assign_buckets(indices: &[usize], raw: &[usize], boxes: &[AABB]) -> (r: Binning)
    requires
        raw@.len() == indices@.len(),
        all_below(indices@, boxes@.len() as int),
    ensures
        r.wf(boxes@),
        forall|b: int|
            0 <= b < NUM_BUCKETS ==> (#[trigger] r.assignments@[b])@ == members_of(
                indices@,
                raw@,
                b,
            ),
{
    let mut buckets: Vec<Bucket> = Vec::new();
    let mut assignments: Vec<Vec<usize>> = Vec::new();
    let mut k: usize = 0;
    while k < NUM_BUCKETS
        invariant
            k <= NUM_BUCKETS,
            buckets@.len() == k,
            assignments@.len() == k,
            forall|b: int| 0 <= b < k ==> (#[trigger] assignments@[b])@ == Seq::<usize>::empty(),
            forall|b: int|
                0 <= b < k ==> #[trigger] buckets@[b] == (Bucket {
                    size: 0,
                    aabb: AABB::empty_spec(),
                }),
        decreases NUM_BUCKETS - k,
    {
        buckets.push(Bucket::empty());
        assignments.push(Vec::new());
        k += 1;
    }
    let n: usize = indices.len();
    let mut i: usize = 0;
    while i < n
        invariant
            i <= n,
            n == indices@.len(),
            raw@.len() == n,
            all_below(indices@, boxes@.len() as int),
            buckets@.len() == NUM_BUCKETS,
            assignments@.len() == NUM_BUCKETS,
            forall|b: int|
                0 <= b < NUM_BUCKETS ==> (#[trigger] assignments@[b])@ == members_of(
                    indices@.take(i as int),
                    raw@.take(i as int),
                    b,
                ),
            forall|b: int|
                0 <= b < NUM_BUCKETS ==> #[trigger] buckets@[b] == Bucket::of(
                    assignments@[b]@,
                    boxes@,
                ),
        decreases n - i,
    {
        let b: usize = bucket_index(raw[i]);
        let idx: usize = indices[i];
        proof {
            assert(indices@.take(i as int + 1).drop_last() == indices@.take(i as int));
            assert(raw@.take(i as int + 1).drop_last() == raw@.take(i as int));
            lemma_members_len(indices@.take(i as int), raw@.take(i as int), b as int);
            assert(assignments@[b as int]@.push(idx).drop_last() == assignments@[b as int]@);
        }
        let mut bucket: Bucket = buckets[b];
        bucket.add_aabb(&boxes[idx]);
        buckets.set(b, bucket);
        assignments[b].push(idx);
        i += 1;
    }
    proof {
        assert(indices@.take(n as int) == indices@);
        assert(raw@.take(n as int) == raw@);
    }
    Binning { buckets, assignments }
}

/// The number of shapes in a row of buckets.
pub open spec fn joined_size(buckets: Seq<Bucket>) -> int
    decreases buckets.len(),
{
    if buckets.len() == 0 {
        0
    } else {
        joined_size(buckets.drop_last()) + buckets.last().size
    }
}

/// The joint box of a row of buckets.
pub open spec fn joined_aabb(buckets: Seq<Bucket>) -> AABB
    decreases buckets.len(),
{
    if buckets.len() == 0 {
        AABB::empty_spec()
    } else {
        joined_aabb(buckets.drop_last()).merge_spec(buckets.last().aabb)
    }
}

/// Joining the buckets of some shapes gives the bucket of all those shapes:
/// where each of `buckets` is the bucket of the matching part, the joined size
/// is the number of shapes in all the parts, and the joined box is their joint
/// box.
pub proof fn lemma_joined_is_bucket_of_concat(
    buckets: Seq<Bucket>,
    parts: Seq<Seq<usize>>,
    boxes: Seq<AABB>,
)
    requires
        buckets.len() == parts.len(),
        forall|b: int| 0 <= b < buckets.len() ==> #[trigger] buckets[b] == Bucket::of(parts[b], boxes),
        forall|b: int| 0 <= b < parts.len() ==> (#[trigger] parts[b]).len() <= usize::MAX,
    ensures
        joined_size(buckets) == concat_all(parts).len(),
        joined_aabb(buckets) == joint_aabb(concat_all(parts), boxes),
    decreases buckets.len(),
{
    if buckets.len() > 0 {
        assert(buckets.last() == Bucket::of(parts.last(), boxes));
        assert forall|b: int| 0 <= b < buckets.drop_last().len() implies #[trigger] buckets.drop_last()[b]
            == Bucket::of(parts.drop_last()[b], boxes) by {
            assert(buckets.drop_last()[b] == buckets[b]);
            assert(parts.drop_last()[b] == parts[b]);
        }
        assert forall|b: int| 0 <= b < parts.drop_last().len() implies (
        #[trigger] parts.drop_last()[b]).len() <= usize::MAX by {
            assert(parts.drop_last()[b] == parts[b]);
        }
        lemma_joined_is_bucket_of_concat(buckets.drop_last(), parts.drop_last(), boxes);
        lemma_joint_concat(concat_all(parts.drop_last()), parts.last(), boxes);
    }
}

/// The size of a row of buckets is the sum of the sizes of its two ends.
pub proof fn lemma_joined_size_split(buckets: Seq<Bucket>, at: int)
    requires
        0 <= at <= buckets.len(),
    ensures
        joined_size(buckets) == joined_size(buckets.take(at)) + joined_size(buckets.skip(at)),
        joined_size(buckets.take(at)) >= 0,
        joined_size(buckets.skip(at)) >= 0,
    decreases buckets.len(),
{
    if at == buckets.len() {
        assert(buckets.take(at) == buckets);
        assert(buckets.skip(at).len() == 0);
        lemma_joined_size_nonnegative(buckets);
    } else {
        assert(buckets.drop_last().take(at) == buckets.take(at));
        assert(buckets.drop_last().skip(at) == buckets.skip(at).drop_last());
        assert(buckets.skip(at).last() == buckets.last());
        lemma_joined_size_split(buckets.drop_last(), at);
    }
}

/// A row of buckets holds no fewer than zero shapes.
pub proof fn lemma_joined_size_nonnegative(buckets: Seq<Bucket>)
    ensures
        joined_size(buckets) >= 0,
    decreases buckets.len(),
{
    if buckets.len() > 0 {
        lemma_joined_size_nonnegative(buckets.drop_last());
    }
}

/// Joins a row of buckets into one.
pub fn join_buckets(buckets: &[Bucket]) -> (r: Bucket)
    requires
        joined_size(buckets@) <= usize::MAX,
    ensures
        r.size == joined_size(buckets@),
        r.aabb == joined_aabb(buckets@),
{
    let mut acc = Bucket::empty();
    let mut i: usize = 0;
    while i < buckets.len()
        invariant
            i <= buckets@.len(),
            joined_size(buckets@) <= usize::MAX,
            acc.size == joined_size(buckets@.take(i as int)),
            acc.aabb == joined_aabb(buckets@.take(i as int)),
        decreases buckets@.len() - i,
    {
        proof {
            assert(buckets@.take(i as int + 1).drop_last() == buckets@.take(i as int));
            lemma_joined_size_split(buckets@, i as int + 1);
        }
        acc = Bucket::join_bucket(acc, &buckets[i]);
        i += 1;
    }
    proof {
        assert(buckets@.take(buckets@.len() as int) == buckets@);
    }
    acc
}

/// Whether `m` is the place of the least cost, the first such place where
/// several costs are least.
pub open spec fn is_cheapest(costs: Seq<Scalar>, m: int) -> bool {
    &&& 0 <= m < costs.len()
    &&& forall|j: int| 0 <= j < costs.len() ==> costs[m] <= #[trigger] costs[j]
    &&& forall|j: int| 0 <= j < m ==> (#[trigger] costs[j]) > costs[m]
}

/// The place of the least cost, the first such place where several costs are
/// least. It is defined for every row of at least one cost.
pub open spec fn cheapest_place(costs: Seq<Scalar>) -> int {
    choose|m: int| is_cheapest(costs, m)
}

/// The place of the least cost; of several equal least costs, the first.
pub fn cheapest(costs: &[Scalar]) -> (m: usize)
    requires
        costs@.len() > 0,
    ensures
        is_cheapest(costs@, m as int),
        m == cheapest_place(costs@),
{
    let mut best: usize = 0;
    let mut i: usize = 1;
    while i < costs.len()
        invariant
            1 <= i <= costs@.len(),
            is_cheapest(costs@.take(i as int), best as int),
        decreases costs@.len() - i,
    {
        if costs[i] < costs[best] {
            best = i;
        }
        i += 1;
    }
    proof {
        assert(costs@.take(costs@.len() as int) == costs@);
        lemma_cheapest_unique(costs@, best as int, cheapest_place(costs@));
    }
    best
}

/// Only one place is the cheapest.
pub proof fn lemma_cheapest_unique(costs: Seq<Scalar>, a: int, b: int)
    requires
        is_cheapest(costs, a),
        is_cheapest(costs, b),
    ensures
        a == b,
{
    if a < b {
        assert(costs[a] > costs[b]);
        assert(costs[a] <= costs[b]);
    } else if b < a {
        assert(costs[b] > costs[a]);
        assert(costs[b] <= costs[a]);
    }
}

/// Cuts a subset in two by position: the first half, rounded down, and the
/// rest.
pub fn split_in_half(indices: Vec<usize>) -> (r: (Vec<usize>, Vec<usize>))
    ensures
        r.0@ == indices@.take(indices@.len() as int / 2),
        r.1@ == indices@.skip(indices@.len() as int / 2),
{
    let mut left = indices;
    let at: usize = left.len() / 2;
    let right = left.split_off(at);
    (left, right)
}

} // verus!
