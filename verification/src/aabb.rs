//! Axis-aligned boxes and their algebra.

use itertools::Itertools;
use vstd::prelude::*;
use crate::hittable::Interval;
use crate::vectors::{max_key, min_key, Scalar, Vec3, INFINITY, NEG_INFINITY, ZERO};

verus! {

/// An axis-aligned box, given by its least and greatest corner.
///
/// A box is either valid (`min <= max` on every axis) or empty. The empty box
/// of [`AABB::empty`] runs from positive to negative infinity and is the
/// identity of [`AABB::merge`].
#[derive(Clone, Copy, Debug, PartialEq, Eq, Structural)]
pub struct AABB {
    pub min: Vec3,
    pub max: Vec3,
}

impl AABB {
    /// The box from positive to negative infinity, which holds no point.
    pub open spec fn empty_spec() -> AABB {
        AABB {
            min: Vec3 { x: INFINITY, y: INFINITY, z: INFINITY },
            max: Vec3 { x: NEG_INFINITY, y: NEG_INFINITY, z: NEG_INFINITY },
        }
    }

    /// The smallest box that holds both `self` and `other`.
    pub open spec fn merge_spec(self, other: AABB) -> AABB {
        AABB { min: self.min.min_with(other.min), max: self.max.max_with(other.max) }
    }

    /// The smallest box that holds `self` and the point `p`.
    pub open spec fn grow_spec(self, p: Vec3) -> AABB {
        AABB { min: self.min.min_with(p), max: self.max.max_with(p) }
    }

    /// Whether `p` lies in the box, its faces included.
    pub open spec fn contains_spec(self, p: Vec3) -> bool {
        self.min.le_all(p) && p.le_all(self.max)
    }

    /// Whether the least corner is at most the greatest on every axis.
    pub open spec fn valid(self) -> bool {
        self.min.le_all(self.max)
    }

    /// Whether the least corner exceeds the greatest on every axis.
    pub open spec fn is_empty_spec(self) -> bool {
        self.min.x > self.max.x && self.min.y > self.max.y && self.min.z > self.max.z
    }

    /// Whether `other` lies within `self`: every point of `other` is one of `self`.
    pub open spec fn encloses(self, other: AABB) -> bool {
        self.min.le_all(other.min) && other.max.le_all(self.max)
    }

    /// The axis on which `size` is largest, the first such axis on a tie.
    pub open spec fn largest_axis_of(size: Vec3) -> int {
        if size.max_element_spec() == size.x {
            0
        } else if size.max_element_spec() == size.y {
            1
        } else {
            2
        }
    }

    /// The ray parameter at which a ray enters the slab of axis `a`: the
    /// smaller of its two crossings, which is `t1` where the ray runs against
    /// the axis.
    pub open spec fn enters_at(t0: Vec3, t1: Vec3, inv_dir: Vec3, a: int) -> Scalar {
        if inv_dir.at(a) < ZERO {
            t1.at(a)
        } else {
            t0.at(a)
        }
    }

    /// The ray parameter at which a ray leaves the slab of axis `a`.
    pub open spec fn leaves_at(t0: Vec3, t1: Vec3, inv_dir: Vec3, a: int) -> Scalar {
        if inv_dir.at(a) < ZERO {
            t0.at(a)
        } else {
            t1.at(a)
        }
    }

    /// Whether a ray is inside all three slabs at once somewhere within
    /// `interval`: it has entered the last of them before it leaves the first,
    /// and before the interval ends.
    pub open spec fn hit_spec(t0: Vec3, t1: Vec3, inv_dir: Vec3, interval: Interval) -> bool {
        max_key(
            max_key(
                max_key(interval.start, Self::enters_at(t0, t1, inv_dir, 0)),
                Self::enters_at(t0, t1, inv_dir, 1),
            ),
            Self::enters_at(t0, t1, inv_dir, 2),
        ) < min_key(
            min_key(
                min_key(interval.end, Self::leaves_at(t0, t1, inv_dir, 0)),
                Self::leaves_at(t0, t1, inv_dir, 1),
            ),
            Self::leaves_at(t0, t1, inv_dir, 2),
        )
    }

    /// The slab test: whether a ray meets the box within `interval`.
    ///
    /// For each axis, `t0` and `t1` hold the ray parameters at which the ray
    /// crosses the two faces of the box, `(min - origin) * inv_dir` and
    /// `(max - origin) * inv_dir`, and `inv_dir` holds one over the ray's
    /// direction. Where the ray runs against an axis it crosses the greater
    /// face first. Axis by axis the interval is cut down to the part inside
    /// the slab, and the ray misses as soon as nothing is left of it.
    ///
    /// A crossing that is no number, as that of a ray which runs within a
    /// face, constrains nothing: the caller hands it over as negative infinity
    /// where the ray enters and as positive infinity where it leaves.
    pub fn hit(t0: &Vec3, t1: &Vec3, inv_dir: &Vec3, interval: &Interval) -> (r: bool)
        ensures
            r == Self::hit_spec(*t0, *t1, *inv_dir, *interval),
    {
        let mut start: Scalar = interval.start;
        let mut end: Scalar = interval.end;
        let mut a: usize = 0;
        while a < 3
            invariant
                a <= 3,
                a > 0 ==> start < end,
                start == if a == 0 {
                    interval.start
                } else if a == 1 {
                    max_key(interval.start, Self::enters_at(*t0, *t1, *inv_dir, 0))
                } else if a == 2 {
                    max_key(
                        max_key(interval.start, Self::enters_at(*t0, *t1, *inv_dir, 0)),
                        Self::enters_at(*t0, *t1, *inv_dir, 1),
                    )
                } else {
                    max_key(
                        max_key(
                            max_key(interval.start, Self::enters_at(*t0, *t1, *inv_dir, 0)),
                            Self::enters_at(*t0, *t1, *inv_dir, 1),
                        ),
                        Self::enters_at(*t0, *t1, *inv_dir, 2),
                    )
                },
                end == if a == 0 {
                    interval.end
                } else if a == 1 {
                    min_key(interval.end, Self::leaves_at(*t0, *t1, *inv_dir, 0))
                } else if a == 2 {
                    min_key(
                        min_key(interval.end, Self::leaves_at(*t0, *t1, *inv_dir, 0)),
                        Self::leaves_at(*t0, *t1, *inv_dir, 1),
                    )
                } else {
                    min_key(
                        min_key(
                            min_key(interval.end, Self::leaves_at(*t0, *t1, *inv_dir, 0)),
                            Self::leaves_at(*t0, *t1, *inv_dir, 1),
                        ),
                        Self::leaves_at(*t0, *t1, *inv_dir, 2),
                    )
                },
            decreases 3 - a,
        {
            let mut near: Scalar = t0.axis(a);
            let mut far: Scalar = t1.axis(a);
            if inv_dir.axis(a) < ZERO {
                let swapped: Scalar = near;
                near = far;
                far = swapped;
            }
            if near > start {
                start = near;
            }
            if far < end {
                end = far;
            }
            if end <= start {
                return false;
            }
            a += 1;
        }
        true
    }

    /// The empty box: it contains no point and merging with it changes nothing.
    pub fn empty() -> (r: AABB)
        ensures
            r == AABB::empty_spec(),
    {
        AABB { min: Vec3::splat(INFINITY), max: Vec3::splat(NEG_INFINITY) }
    }

    /// The box spanned by two corners, in whatever order they are given.
    pub fn new(a: Vec3, b: Vec3) -> (r: AABB)
        ensures
            r == (AABB { min: a.min_with(b), max: a.max_with(b) }),
            r.valid(),
            r.contains_spec(a) && r.contains_spec(b),
    {
        AABB { min: a.min(b), max: a.max(b) }
    }

    /// The smallest box that holds both boxes.
    pub fn merge(&self, other: &AABB) -> (r: AABB)
        ensures
            r == self.merge_spec(*other),
    {
        AABB { min: self.min.min(other.min), max: self.max.max(other.max) }
    }

    /// The smallest box that holds this box and the point.
    pub fn grow(&self, other: Vec3) -> (r: AABB)
        ensures
            r == self.grow_spec(other),
    {
        AABB { min: self.min.min(other), max: self.max.max(other) }
    }

    /// Whether the point lies in the box, faces included.
    pub fn contains(&self, point: &Vec3) -> (r: bool)
        ensures
            r == self.contains_spec(*point),
    {
        point.x >= self.min.x && point.x <= self.max.x && point.y >= self.min.y && point.y
            <= self.max.y && point.z >= self.min.z && point.z <= self.max.z
    }

    /// Whether the box is empty: `min > max` on every axis.
    pub fn is_empty(&self) -> (r: bool)
        ensures
            r == self.is_empty_spec(),
    {
        self.min.x > self.max.x && self.min.y > self.max.y && self.min.z > self.max.z
    }

    /// The axis on which `size` is largest, the first such axis on a tie.
    ///
    /// `size` is the extent of a box on each axis, `max - min`, which the
    /// caller computes.
    pub fn largest_axis(size: &Vec3) -> (r: usize)
        ensures
            r == AABB::largest_axis_of(*size),
            r < 3,
            size.at(r as int) == size.max_element_spec(),
            forall|a: int| 0 <= a < 3 ==> size.at(a) <= size.at(r as int),
            forall|a: int| 0 <= a < r ==> size.at(a) < size.at(r as int),
    {
        let largest: Scalar = size.max_element();
        if largest == size.x {
            0
        } else if largest == size.y {
            1
        } else {
            2
        }
    }
}

/// Every pair `(i, j)` with `i < a` and `j < b`, ordered by `i` and then by
/// `j`.
///
/// This is `Itertools::cartesian_product` of the ranges `0..a` and `0..b`,
/// collected. That adaptor walks its second iterator once for every item of
/// the first, so the pair at position `p` is `(p / b, p % b)`. The product is
/// kept small, so that collecting it cannot exhaust the capacity of a vector.
#[verifier::external_body]
fn index_pairs(a: usize, b: usize) -> (r: Vec<(usize, usize)>)
    requires
        a * b <= 4096,
    ensures
        r@.len() == a * b,
        forall|p: int| 0 <= p < a * b ==> #[trigger] r@[p] == ((p / b as int) as usize, (p % b as int) as usize),
{
    (0..a).cartesian_product(0..b).collect()
}

/// The smallest box that holds all of `points`.
pub open spec fn hull_of(points: Seq<Vec3>) -> AABB
    decreases points.len(),
{
    if points.len() == 0 {
        AABB::empty_spec()
    } else {
        hull_of(points.drop_last()).grow_spec(points.last())
    }
}

impl AABB {
    /// The corner that takes, on each axis, the greatest coordinate of the
    /// box where the flag of that axis is set and the least where it is not.
    pub open spec fn corner_spec(self, x: bool, y: bool, z: bool) -> Vec3 {
        Vec3 {
            x: if x {
                self.max.x
            } else {
                self.min.x
            },
            y: if y {
                self.max.y
            } else {
                self.min.y
            },
            z: if z {
                self.max.z
            } else {
                self.min.z
            },
        }
    }

    /// The eight corners of the box. Corner `4 * i + 2 * j + k` takes its `x`
    /// from the greatest corner if `i` is 1, else from the least; its `y` by
    /// `j` and its `z` by `k` likewise.
    pub fn corners(&self) -> (r: Vec<Vec3>)
        ensures
            r@.len() == 8,
            forall|p: int|
                0 <= p < 8 ==> #[trigger] r@[p] == self.corner_spec(
                    p / 4 == 1,
                    (p / 2) % 2 == 1,
                    p % 2 == 1,
                ),
    {
        let pairs = index_pairs(2, 2);
        let triples = index_pairs(4, 2);
        let mut corners: Vec<Vec3> = Vec::new();
        let mut p: usize = 0;
        while p < 8
            invariant
                p <= 8,
                pairs@.len() == 4,
                triples@.len() == 8,
                forall|q: int| 0 <= q < 4 ==> #[trigger] pairs@[q] == ((q / 2) as usize, (q % 2) as usize),
                forall|q: int| 0 <= q < 8 ==> #[trigger] triples@[q] == ((q / 2) as usize, (q % 2) as usize),
                corners@.len() == p,
                forall|q: int|
                    0 <= q < p ==> #[trigger] corners@[q] == self.corner_spec(
                        q / 4 == 1,
                        (q / 2) % 2 == 1,
                        q % 2 == 1,
                    ),
            decreases 8 - p,
        {
            let (ij, k) = triples[p];
            let (i, j) = pairs[ij];
            let corner = Vec3 {
                x: if i == 1 {
                    self.max.x
                } else {
                    self.min.x
                },
                y: if j == 1 {
                    self.max.y
                } else {
                    self.min.y
                },
                z: if k == 1 {
                    self.max.z
                } else {
                    self.min.z
                },
            };
            corners.push(corner);
            p += 1;
        }
        corners
    }

    /// The box spanned by the least and the greatest coordinates of `points`
    /// on each axis: the smallest box that holds them all. Of no points, it
    /// is the box that holds every point.
    pub fn enclosing(points: &[Vec3]) -> (r: AABB)
        ensures
            points@.len() > 0 ==> r == hull_of(points@),
            points@.len() == 0 ==> r == (AABB {
                min: Vec3 { x: NEG_INFINITY, y: NEG_INFINITY, z: NEG_INFINITY },
                max: Vec3 { x: INFINITY, y: INFINITY, z: INFINITY },
            }),
    {
        let mut min = Vec3::splat(INFINITY);
        let mut max = Vec3::splat(NEG_INFINITY);
        let mut i: usize = 0;
        while i < points.len()
            invariant
                i <= points@.len(),
                (AABB { min, max }) == hull_of(points@.take(i as int)),
                i > 0 ==> min.le_all(max),
            decreases points@.len() - i,
        {
            proof {
                assert(points@.take(i as int + 1).drop_last() == points@.take(i as int));
            }
            min = min.min(points[i]);
            max = max.max(points[i]);
            i += 1;
        }
        proof {
            assert(points@.take(points@.len() as int) == points@);
        }
        AABB::new(min, max)
    }
}

impl Default for AABB {
    fn default() -> (r: AABB)
        ensures
            r == AABB::empty_spec(),
    {
        AABB::empty()
    }
}

/// A ray that meets a box within an interval meets it within every interval
/// that holds that one: narrowing the query can only lose a box, never gain
/// one.
pub proof fn lemma_hit_is_monotone(
    t0: Vec3,
    t1: Vec3,
    inv_dir: Vec3,
    narrow: Interval,
    wide: Interval,
)
    requires
        wide.start <= narrow.start,
        narrow.end <= wide.end,
        AABB::hit_spec(t0, t1, inv_dir, narrow),
    ensures
        AABB::hit_spec(t0, t1, inv_dir, wide),
{
}

/// A ray meets a box within an interval exactly if, on every axis, it enters
/// the slab before the interval ends and before it leaves any slab, and
/// leaves the slab after the interval starts; and the interval is not empty.
pub proof fn lemma_hit_by_axes(t0: Vec3, t1: Vec3, inv_dir: Vec3, interval: Interval)
    ensures
        AABB::hit_spec(t0, t1, inv_dir, interval) <==> {
            &&& interval.start < interval.end
            &&& forall|a: int|
                0 <= a < 3 ==> #[trigger] AABB::enters_at(t0, t1, inv_dir, a) < interval.end
                    && interval.start < AABB::leaves_at(t0, t1, inv_dir, a)
            &&& forall|a: int, b: int|
                0 <= a < 3 && 0 <= b < 3 ==> #[trigger] AABB::enters_at(t0, t1, inv_dir, a)
                    < #[trigger] AABB::leaves_at(t0, t1, inv_dir, b)
        },
{
    if AABB::hit_spec(t0, t1, inv_dir, interval) {
        assert forall|a: int| 0 <= a < 3 implies #[trigger] AABB::enters_at(t0, t1, inv_dir, a)
            < interval.end && interval.start < AABB::leaves_at(t0, t1, inv_dir, a) by {
            assert(a == 0 || a == 1 || a == 2);
        }
        assert forall|a: int, b: int| 0 <= a < 3 && 0 <= b < 3 implies #[trigger] AABB::enters_at(
            t0,
            t1,
            inv_dir,
            a,
        ) < #[trigger] AABB::leaves_at(t0, t1, inv_dir, b) by {
            assert(a == 0 || a == 1 || a == 2);
            assert(b == 0 || b == 1 || b == 2);
        }
    }
    if interval.start < interval.end && (forall|a: int|
        0 <= a < 3 ==> #[trigger] AABB::enters_at(t0, t1, inv_dir, a) < interval.end
            && interval.start < AABB::leaves_at(t0, t1, inv_dir, a)) && (forall|a: int, b: int|
        0 <= a < 3 && 0 <= b < 3 ==> #[trigger] AABB::enters_at(t0, t1, inv_dir, a)
            < #[trigger] AABB::leaves_at(t0, t1, inv_dir, b)) {
        assert(AABB::enters_at(t0, t1, inv_dir, 0) < AABB::leaves_at(t0, t1, inv_dir, 0));
        assert(AABB::enters_at(t0, t1, inv_dir, 0) < AABB::leaves_at(t0, t1, inv_dir, 1));
        assert(AABB::enters_at(t0, t1, inv_dir, 0) < AABB::leaves_at(t0, t1, inv_dir, 2));
        assert(AABB::enters_at(t0, t1, inv_dir, 1) < AABB::leaves_at(t0, t1, inv_dir, 0));
        assert(AABB::enters_at(t0, t1, inv_dir, 1) < AABB::leaves_at(t0, t1, inv_dir, 1));
        assert(AABB::enters_at(t0, t1, inv_dir, 1) < AABB::leaves_at(t0, t1, inv_dir, 2));
        assert(AABB::enters_at(t0, t1, inv_dir, 2) < AABB::leaves_at(t0, t1, inv_dir, 0));
        assert(AABB::enters_at(t0, t1, inv_dir, 2) < AABB::leaves_at(t0, t1, inv_dir, 1));
        assert(AABB::enters_at(t0, t1, inv_dir, 2) < AABB::leaves_at(t0, t1, inv_dir, 2));
        assert(AABB::enters_at(t0, t1, inv_dir, 0) < interval.end);
        assert(AABB::enters_at(t0, t1, inv_dir, 1) < interval.end);
        assert(AABB::enters_at(t0, t1, inv_dir, 2) < interval.end);
    }
}

/// Merging with the empty box changes nothing, on either side.
pub proof fn lemma_merge_empty_identity(a: AABB)
    ensures
        a.merge_spec(AABB::empty_spec()) == a,
        AABB::empty_spec().merge_spec(a) == a,
{
}

/// The order of the two boxes does not matter to their merge.
pub proof fn lemma_merge_commutative(a: AABB, b: AABB)
    ensures
        a.merge_spec(b) == b.merge_spec(a),
{
}

/// Merging three boxes gives the same box however they are grouped.
pub proof fn lemma_merge_associative(a: AABB, b: AABB, c: AABB)
    ensures
        a.merge_spec(b).merge_spec(c) == a.merge_spec(b.merge_spec(c)),
{
}

/// Merging a box with one that it already encloses, or growing it by a point
/// that it already contains, changes nothing.
pub proof fn lemma_merge_idempotent(a: AABB, b: AABB, p: Vec3)
    ensures
        a.merge_spec(a) == a,
        a.encloses(b) ==> a.merge_spec(b) == a,
        a.contains_spec(p) ==> a.grow_spec(p) == a,
{
}

/// The merge of two boxes encloses both, and is enclosed by every box that
/// encloses both: it is their least upper bound.
pub proof fn lemma_merge_least_upper_bound(a: AABB, b: AABB, c: AABB)
    ensures
        a.merge_spec(b).encloses(a),
        a.merge_spec(b).encloses(b),
        c.encloses(a) && c.encloses(b) ==> c.encloses(a.merge_spec(b)),
{
}

/// The empty box contains no point, and a valid box is never empty.
pub proof fn lemma_empty_contains_nothing(a: AABB, p: Vec3)
    ensures
        !AABB::empty_spec().contains_spec(p),
        AABB::empty_spec().is_empty_spec(),
        a.is_empty_spec() ==> !a.contains_spec(p),
        a.valid() ==> !a.is_empty_spec(),
{
}

/// Growing by a point is merging with the box that holds just that point, and
/// the grown box contains the point.
pub proof fn lemma_grow_is_merge(a: AABB, p: Vec3)
    ensures
        a.grow_spec(p) == a.merge_spec(AABB { min: p, max: p }),
        a.grow_spec(p).contains_spec(p),
        a.grow_spec(p).encloses(a),
{
}

} // verus!
