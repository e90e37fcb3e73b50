//! How the builder divides a set of shapes in two.
//!
//! Where the centers of the shapes spread along an axis, they are sorted into
//! a fixed number of buckets along it and the cheapest of the boundaries
//! between buckets divides them. Where the centers coincide, the list of
//! shapes is cut in the middle.
use vstd::prelude::*;

use crate::aabb::AABB;
use crate::axis::Axis;
use crate::utils::{indices_in_range, joint_aabb, Bucket};
use crate::{Point2, EPSILON};

verus! {

/// Number of buckets that the centers are sorted into.
pub const NUM_BUCKETS: usize = 4;

/// A center's offset within the centers' extent is scaled by a hair under the
/// number of buckets, `399 / 100`, and rounded down to give its bucket: so
/// the far end of the extent falls into the last bucket, not beyond it.
pub const BUCKET_SCALE_NUMERATOR: i64 = 399;

/// The divisor of the scale `399 / 100`.
pub const BUCKET_SCALE_DENOMINATOR: i64 = 100;

/// The least box that holds the centers of the boxes at the given indices.
pub open spec fn centroid_bounds(indices: Seq<usize>, boxes: Seq<AABB>) -> AABB
    decreases indices.len(),
{
    if indices.len() == 0 {
        AABB::spec_empty()
    } else {
        centroid_bounds(indices.drop_last(), boxes).spec_grow(
            boxes[indices.last() as int].spec_center(),
        )
    }
}

/// The bucket of a center: its offset from the low end of the centers'
/// bounds along `axis`, as a fraction of their extent, times `399 / 100`,
/// rounded down.
pub open spec fn spec_bucket_number(center: Point2, centroid_bounds: AABB, axis: Axis) -> int {
    let offset = center.spec_index(axis) - centroid_bounds.min.spec_index(axis);
    let extent = centroid_bounds.spec_extent(axis);
    (offset * BUCKET_SCALE_NUMERATOR) / (extent * BUCKET_SCALE_DENOMINATOR)
}

/// The centers of the listed boxes lie within their bounds.
pub proof fn lemma_centroid_bounds_hold_centers(indices: Seq<usize>, boxes: Seq<AABB>, i: int)
    requires
        0 <= i < indices.len(),
    ensures
        centroid_bounds(indices, boxes).contains(boxes[indices[i] as int].spec_center()),
    decreases indices.len(),
{
    if i < indices.len() - 1 {
        lemma_centroid_bounds_hold_centers(indices.drop_last(), boxes, i);
    }
}

/// Along each axis some center lies at the low end of the centers' bounds,
/// and some center at the high end.
pub proof fn lemma_centroid_bounds_attained(indices: Seq<usize>, boxes: Seq<AABB>, axis: Axis)
    requires
        indices.len() > 0,
    ensures
        exists|i: int|
            0 <= i < indices.len() && (#[trigger] boxes[indices[i] as int]).spec_center().spec_index(
                axis,
            ) == centroid_bounds(indices, boxes).min.spec_index(axis),
        exists|i: int|
            0 <= i < indices.len() && (#[trigger] boxes[indices[i] as int]).spec_center().spec_index(
                axis,
            ) == centroid_bounds(indices, boxes).max.spec_index(axis),
    decreases indices.len(),
{
    let last = indices.len() - 1;
    let center = boxes[indices[last] as int].spec_center();
    let rest = indices.drop_last();
    let all = centroid_bounds(indices, boxes);
    if rest.len() == 0 {
        assert(centroid_bounds(rest, boxes) == AABB::spec_empty());
        assert(boxes[indices[last] as int].spec_center().spec_index(axis) == all.min.spec_index(
            axis,
        ));
        assert(boxes[indices[last] as int].spec_center().spec_index(axis) == all.max.spec_index(
            axis,
        ));
    } else {
        lemma_centroid_bounds_attained(rest, boxes, axis);
        let before = centroid_bounds(rest, boxes);
        if all.min.spec_index(axis) == center.spec_index(axis) {
            assert(boxes[indices[last] as int].spec_center().spec_index(axis)
                == all.min.spec_index(axis));
        } else {
            assert(all.min.spec_index(axis) == before.min.spec_index(axis));
            let i = choose|i: int|
                0 <= i < rest.len() && (#[trigger] boxes[rest[i] as int]).spec_center().spec_index(
                    axis,
                ) == before.min.spec_index(axis);
            assert(boxes[indices[i] as int].spec_center().spec_index(axis) == all.min.spec_index(
                axis,
            ));
        }
        if all.max.spec_index(axis) == center.spec_index(axis) {
            assert(boxes[indices[last] as int].spec_center().spec_index(axis)
                == all.max.spec_index(axis));
        } else {
            assert(all.max.spec_index(axis) == before.max.spec_index(axis));
            let i = choose|i: int|
                0 <= i < rest.len() && (#[trigger] boxes[rest[i] as int]).spec_center().spec_index(
                    axis,
                ) == before.max.spec_index(axis);
            assert(boxes[indices[i] as int].spec_center().spec_index(axis) == all.max.spec_index(
                axis,
            ));
        }
    }
}

/// A center within the bounds falls into one of the buckets: into the first
/// at the low end of the bounds, into the last at the high end.
pub proof fn lemma_bucket_number_in_range(center: Point2, centroid_bounds: AABB, axis: Axis)
    requires
        centroid_bounds.contains(center),
        centroid_bounds.spec_extent(axis) >= EPSILON,
    ensures
        0 <= spec_bucket_number(center, centroid_bounds, axis) < NUM_BUCKETS,
        center.spec_index(axis) == centroid_bounds.min.spec_index(axis) ==> spec_bucket_number(
            center,
            centroid_bounds,
            axis,
        ) == 0,
        center.spec_index(axis) == centroid_bounds.max.spec_index(axis) ==> spec_bucket_number(
            center,
            centroid_bounds,
            axis,
        ) == NUM_BUCKETS - 1,
{
    let offset = center.spec_index(axis) - centroid_bounds.min.spec_index(axis);
    let extent = centroid_bounds.spec_extent(axis);
    let q = (offset * 399) / (extent * 100);
    assert(0 <= offset <= extent);
    assert(0 <= q < 4 && (offset == 0 ==> q == 0) && (offset == extent ==> q == 3))
        by (nonlinear_arith)
        requires
            0 <= offset <= extent,
            extent >= 1,
            q == (offset * 399) / (extent * 100),
    ;
}

/// The least box that holds the centers of the shapes' boxes at the given
/// indices.
pub fn centroid_bounds_of_shapes(indices: &[usize], shapes: &[AABB]) -> (bounds: AABB)
    requires
        indices_in_range(indices@, shapes@),
    ensures
        bounds == centroid_bounds(indices@, shapes@),
{
    let mut bounds = AABB::empty();
    let mut i: usize = 0;
    while i < indices.len()
        invariant
            i <= indices@.len(),
            indices_in_range(indices@, shapes@),
            bounds == centroid_bounds(indices@.take(i as int), shapes@),
        decreases indices@.len() - i,
    {
        proof {
            assert(indices@.take(i + 1).drop_last() == indices@.take(i as int));
        }
        let center = shapes[indices[i]].center();
        bounds = bounds.grow(&center);
        i += 1;
    }
    proof {
        assert(indices@.take(indices@.len() as int) == indices@);
    }
    bounds
}

/// The bucket that a center falls into.
pub fn bucket_number(center: &Point2, centroid_bounds: &AABB, axis: Axis) -> (bucket: usize)
    requires
        centroid_bounds.contains(*center),
        centroid_bounds.spec_extent(axis) >= EPSILON,
    ensures
        bucket == spec_bucket_number(*center, *centroid_bounds, axis),
        bucket < NUM_BUCKETS,
{
    proof {
        lemma_bucket_number_in_range(*center, *centroid_bounds, axis);
    }
    let low: i64 = centroid_bounds.min.index(axis) as i64;
    let high: i64 = centroid_bounds.max.index(axis) as i64;
    let offset: i64 = center.index(axis) as i64 - low;
    let extent: i64 = high - low;
    let bucket: i64 = (offset * BUCKET_SCALE_NUMERATOR) / (extent * BUCKET_SCALE_DENOMINATOR);
    bucket as usize
}

/// The indices whose box has its center in the given bucket, in the order of
/// `indices`.
pub open spec fn bucket_members(
    indices: Seq<usize>,
    boxes: Seq<AABB>,
    centroid_bounds: AABB,
    axis: Axis,
    bucket: int,
) -> Seq<usize>
    decreases indices.len(),
{
    if indices.len() == 0 {
        Seq::empty()
    } else {
        let rest = bucket_members(indices.drop_last(), boxes, centroid_bounds, axis, bucket);
        let center = boxes[indices.last() as int].spec_center();
        if spec_bucket_number(center, centroid_bounds, axis) == bucket {
            rest.push(indices.last())
        } else {
            rest
        }
    }
}

/// The members of the buckets `from..to`, bucket after bucket.
pub open spec fn members_of_buckets(
    indices: Seq<usize>,
    boxes: Seq<AABB>,
    centroid_bounds: AABB,
    axis: Axis,
    from: int,
    to: int,
) -> Seq<usize>
    decreases to - from,
{
    if to <= from {
        Seq::empty()
    } else {
        members_of_buckets(indices, boxes, centroid_bounds, axis, from, to - 1) + bucket_members(
            indices,
            boxes,
            centroid_bounds,
            axis,
            to - 1,
        )
    }
}

/// The bucket that has taken the boxes at the given indices.
pub open spec fn bucket_of(members: Seq<usize>, boxes: Seq<AABB>) -> Bucket {
    Bucket { size: members.len() as usize, aabb: joint_aabb(members, boxes) }
}

/// The buckets, each filled with the boxes whose center falls into it.
pub open spec fn filled_buckets(
    indices: Seq<usize>,
    boxes: Seq<AABB>,
    centroid_bounds: AABB,
    axis: Axis,
) -> Seq<Bucket> {
    Seq::new(
        NUM_BUCKETS as nat,
        |k: int| bucket_of(bucket_members(indices, boxes, centroid_bounds, axis, k), boxes),
    )
}

/// The number of boxes in all the buckets.
pub open spec fn total_size(buckets: Seq<Bucket>) -> nat
    decreases buckets.len(),
{
    if buckets.len() == 0 {
        0
    } else {
        total_size(buckets.drop_last()) + buckets.last().size as nat
    }
}

/// All the buckets merged into one, from the first to the last.
pub open spec fn joined_buckets(buckets: Seq<Bucket>) -> Bucket
    decreases buckets.len(),
{
    if buckets.len() == 0 {
        Bucket::spec_empty()
    } else {
        joined_buckets(buckets.drop_last()).spec_join_bucket(buckets.last())
    }
}

/// The surface area heuristic's cost of dividing shapes into those of `l`
/// and those of `r`: on each side the number of shapes times the area of
/// their joint box.
///
/// The heuristic divides this sum by the area of the box around both sides.
/// All the divisions of one set of shapes share that divisor, so the sum
/// alone decides which of them is the cheapest.
pub open spec fn spec_split_cost(l: Bucket, r: Bucket) -> int {
    l.size * l.aabb.spec_surface_area() + r.size * r.aabb.spec_surface_area()
}

/// The cost of dividing the buckets after the one at `boundary`.
pub open spec fn boundary_cost(buckets: Seq<Bucket>, boundary: int) -> int {
    spec_split_cost(
        joined_buckets(buckets.subrange(0, boundary + 1)),
        joined_buckets(buckets.subrange(boundary + 1, buckets.len() as int)),
    )
}

/// The cheapest of the first `count` boundaries, as a scan from the first
/// finds it: a later boundary replaces an earlier one only where it is
/// cheaper.
pub open spec fn cheapest_boundary(buckets: Seq<Bucket>, count: int) -> int
    decreases count,
{
    if count <= 1 {
        0
    } else {
        let earlier = cheapest_boundary(buckets, count - 1);
        if boundary_cost(buckets, count - 1) < boundary_cost(buckets, earlier) {
            count - 1
        } else {
            earlier
        }
    }
}

/// The boundary that the buckets are divided at: the cheapest of those
/// between two buckets, and the first of them where several cost the same.
pub open spec fn best_boundary(buckets: Seq<Bucket>) -> int {
    cheapest_boundary(buckets, buckets.len() - 1)
}

/// The chosen boundary is one of the boundaries; none is cheaper, and none
/// before it is as cheap.
pub proof fn lemma_cheapest_boundary(buckets: Seq<Bucket>, count: int)
    requires
        count >= 1,
    ensures
        0 <= cheapest_boundary(buckets, count) < count,
        forall|b: int|
            0 <= b < count ==> boundary_cost(buckets, cheapest_boundary(buckets, count))
                <= #[trigger] boundary_cost(buckets, b),
        forall|b: int|
            0 <= b < cheapest_boundary(buckets, count) ==> boundary_cost(
                buckets,
                cheapest_boundary(buckets, count),
            ) < #[trigger] boundary_cost(buckets, b),
    decreases count,
{
    if count > 1 {
        lemma_cheapest_boundary(buckets, count - 1);
    }
}

/// Merging buckets adds up their sizes.
pub proof fn lemma_joined_buckets_size(buckets: Seq<Bucket>)
    requires
        total_size(buckets) <= usize::MAX,
    ensures
        joined_buckets(buckets).size == total_size(buckets),
    decreases buckets.len(),
{
    if buckets.len() > 0 {
        lemma_joined_buckets_size(buckets.drop_last());
    }
}

/// The buckets of a part of the row hold no more boxes than the whole row.
pub proof fn lemma_total_size_of_parts(buckets: Seq<Bucket>, mid: int)
    requires
        0 <= mid <= buckets.len(),
    ensures
        total_size(buckets.subrange(0, mid)) + total_size(
            buckets.subrange(mid, buckets.len() as int),
        ) == total_size(buckets),
    decreases buckets.len(),
{
    let whole = buckets.len() as int;
    if mid == whole {
        assert(buckets.subrange(0, mid) == buckets);
        assert(buckets.subrange(mid, whole).len() == 0);
    } else {
        lemma_total_size_of_parts(buckets.drop_last(), mid);
        assert(buckets.drop_last().subrange(0, mid) == buckets.subrange(0, mid));
        assert(buckets.drop_last().subrange(mid, whole - 1) == buckets.subrange(
            mid,
            whole,
        ).drop_last());
    }
}

/// Merges the buckets into one.
pub fn join_buckets(buckets: &[Bucket]) -> (joined: Bucket)
    requires
        total_size(buckets@) <= usize::MAX,
    ensures
        joined == joined_buckets(buckets@),
{
    let mut joined = Bucket::empty();
    let mut i: usize = 0;
    while i < buckets.len()
        invariant
            i <= buckets@.len(),
            total_size(buckets@) <= usize::MAX,
            joined == joined_buckets(buckets@.take(i as int)),
        decreases buckets@.len() - i,
    {
        proof {
            assert(buckets@.take(i + 1).drop_last() == buckets@.take(i as int));
            lemma_total_size_of_parts(buckets@, i + 1);
            lemma_joined_buckets_size(buckets@.take(i as int));
            assert(buckets@.subrange(0, i + 1) == buckets@.take(i + 1));
        }
        joined = Bucket::join_bucket(joined, &buckets[i]);
        i += 1;
    }
    proof {
        assert(buckets@.take(buckets@.len() as int) == buckets@);
    }
    joined
}

/// A cost, which may be too great for one machine integer: `high` times
/// `2^64`, plus `low`.
#[derive(Copy, Clone, Debug, PartialEq, Eq, Structural)]
pub struct SplitCost {
    pub high: i128,
    pub low: u64,
}

impl SplitCost {
    /// The cost as a number.
    pub open spec fn value(self) -> int {
        self.high * 0x1_0000_0000_0000_0000 + self.low
    }

    /// Whether the cost is less than the other.
    pub fn less_than(&self, other: &SplitCost) -> (less: bool)
        ensures
            less == (self.value() < other.value()),
    {
        self.high < other.high || (self.high == other.high && self.low < other.low)
    }

    /// The area of a box, taken once for each of `count` shapes.
    pub fn weighted_area(count: usize, area: i128) -> (cost: SplitCost)
        requires
            -0x1_0000_0000_0000_0000 < area < 0x1_0000_0000_0000_0000,
        ensures
            cost.value() == count * area,
            -0x1_0000_0000_0000_0000 <= cost.high < 0x1_0000_0000_0000_0000,
    {
        let count: u128 = count as u128;
        let magnitude: u128 = if area >= 0 {
            area as u128
        } else {
            (-area) as u128
        };
        assert(count * magnitude <= 0xffff_ffff_ffff_ffff * 0xffff_ffff_ffff_ffff)
            by (nonlinear_arith)
            requires
                0 <= count <= 0xffff_ffff_ffff_ffff,
                0 <= magnitude <= 0xffff_ffff_ffff_ffff,
        ;
        let product: u128 = count * magnitude;
        let high: u128 = product / 0x1_0000_0000_0000_0000;
        let low: u128 = product % 0x1_0000_0000_0000_0000;
        assert(count * area == if area >= 0 {
            product as int
        } else {
            -(product as int)
        }) by (nonlinear_arith)
            requires
                product == count * magnitude,
                magnitude == if area >= 0 {
                    area as int
                } else {
                    -(area as int)
                },
        ;
        if area >= 0 {
            SplitCost { high: high as i128, low: low as u64 }
        } else if low == 0 {
            SplitCost { high: -(high as i128), low: 0 }
        } else {
            SplitCost { high: -(high as i128) - 1, low: (0x1_0000_0000_0000_0000 - low) as u64 }
        }
    }

    /// The sum of two costs.
    pub fn plus(&self, other: &SplitCost) -> (sum: SplitCost)
        requires
            -0x1_0000_0000_0000_0000 <= self.high < 0x1_0000_0000_0000_0000,
            -0x1_0000_0000_0000_0000 <= other.high < 0x1_0000_0000_0000_0000,
        ensures
            sum.value() == self.value() + other.value(),
    {
        let low: u128 = self.low as u128 + other.low as u128;
        let carry: u128 = low / 0x1_0000_0000_0000_0000;
        SplitCost {
            high: self.high + other.high + carry as i128,
            low: (low % 0x1_0000_0000_0000_0000) as u64,
        }
    }
}

/// The cost of dividing shapes into those of `l` and those of `r`.
pub fn split_cost(l: &Bucket, r: &Bucket) -> (cost: SplitCost)
    ensures
        cost.value() == spec_split_cost(*l, *r),
{
    let l_cost = SplitCost::weighted_area(l.size, l.aabb.surface_area());
    let r_cost = SplitCost::weighted_area(r.size, r.aabb.surface_area());
    l_cost.plus(&r_cost)
}

/// Sorts the shapes at the given indices into the buckets, by the centers
/// of their boxes: gives, bucket by bucket, the indices that fell into it
/// and the bucket that took their boxes.
pub fn assign_buckets(
    indices: &[usize],
    shapes: &[AABB],
    centroid_bounds: &AABB,
    axis: Axis,
) -> (filled: ([Vec<usize>; NUM_BUCKETS], [Bucket; NUM_BUCKETS]))
    requires
        indices_in_range(indices@, shapes@),
        forall|i: int|
            0 <= i < indices@.len() ==> centroid_bounds.contains(
                shapes@[#[trigger] indices@[i] as int].spec_center(),
            ),
        centroid_bounds.spec_extent(axis) >= EPSILON,
    ensures
        forall|k: int|
            0 <= k < NUM_BUCKETS ==> (#[trigger] filled.0@[k])@ == bucket_members(
                indices@,
                shapes@,
                *centroid_bounds,
                axis,
                k,
            ),
        filled.1@ == filled_buckets(indices@, shapes@, *centroid_bounds, axis),
{
    let mut bucket_assignments: [Vec<usize>; NUM_BUCKETS] = [
        Vec::new(),
        Vec::new(),
        Vec::new(),
        Vec::new(),
    ];
    let mut buckets = [Bucket::empty();NUM_BUCKETS];
    let mut i: usize = 0;
    while i < indices.len()
        invariant
            i <= indices@.len(),
            indices_in_range(indices@, shapes@),
            forall|i: int|
                0 <= i < indices@.len() ==> centroid_bounds.contains(
                    shapes@[#[trigger] indices@[i] as int].spec_center(),
                ),
            centroid_bounds.spec_extent(axis) >= EPSILON,
            forall|k: int|
                0 <= k < NUM_BUCKETS ==> (#[trigger] bucket_assignments@[k])@ == bucket_members(
                    indices@.take(i as int),
                    shapes@,
                    *centroid_bounds,
                    axis,
                    k,
                ),
            forall|k: int|
                0 <= k < NUM_BUCKETS ==> #[trigger] buckets@[k] == bucket_of(
                    bucket_members(indices@.take(i as int), shapes@, *centroid_bounds, axis, k),
                    shapes@,
                ),
            forall|k: int|
                0 <= k < NUM_BUCKETS ==> (#[trigger] bucket_assignments@[k])@.len() <= i,
        decreases indices@.len() - i,
    {
        let idx = indices[i];
        let shape_aabb = shapes[idx];
        let shape_center = shape_aabb.center();
        let bucket_num = bucket_number(&shape_center, centroid_bounds, axis);
        proof {
            assert(indices@.take(i + 1).drop_last() == indices@.take(i as int));
            assert(indices@.take(i + 1).last() == idx);
            let before = bucket_assignments@[bucket_num as int]@;
            assert(buckets@[bucket_num as int].size == before.len());
            assert(before.push(idx).drop_last() == before);
        }
        buckets[bucket_num].add_aabb(&shape_aabb);
        bucket_assignments[bucket_num].push(idx);
        i += 1;
    }
    proof {
        assert(indices@.take(indices@.len() as int) == indices@);
        assert(buckets@ =~= filled_buckets(indices@, shapes@, *centroid_bounds, axis));
    }
    (bucket_assignments, buckets)
}

/// Chooses the boundary at which the buckets are divided: gives the bucket
/// that it follows, and the joint boxes of the buckets up to it and of those
/// after it.
pub fn select_boundary(buckets: &[Bucket; NUM_BUCKETS]) -> (best: (usize, AABB, AABB))
    requires
        total_size(buckets@) <= usize::MAX,
    ensures
        best.0 == best_boundary(buckets@),
        best.1 == joined_buckets(buckets@.subrange(0, best.0 + 1)).aabb,
        best.2 == joined_buckets(buckets@.subrange(best.0 + 1, NUM_BUCKETS as int)).aabb,
{
    let mut min_bucket: usize = 0;
    let mut min_cost: Option<SplitCost> = None;
    let mut child_l_aabb = AABB::empty();
    let mut child_r_aabb = AABB::empty();
    let mut i: usize = 0;
    while i < NUM_BUCKETS - 1
        invariant
            i <= NUM_BUCKETS - 1,
            buckets@.len() == NUM_BUCKETS,
            total_size(buckets@) <= usize::MAX,
            i == 0 ==> min_cost is None,
            i > 0 ==> min_cost is Some && min_cost->0.value() == boundary_cost(
                buckets@,
                min_bucket as int,
            ),
            min_bucket == cheapest_boundary(buckets@, i as int),
            i > 0 ==> child_l_aabb == joined_buckets(buckets@.subrange(0, min_bucket + 1)).aabb,
            i > 0 ==> child_r_aabb == joined_buckets(
                buckets@.subrange(min_bucket + 1, NUM_BUCKETS as int),
            ).aabb,
        decreases NUM_BUCKETS - 1 - i,
    {
        proof {
            lemma_total_size_of_parts(buckets@, i + 1);
            lemma_joined_buckets_size(buckets@.subrange(0, i + 1));
            lemma_joined_buckets_size(buckets@.subrange(i + 1, NUM_BUCKETS as int));
        }
        let (l_buckets, r_buckets) = buckets.as_slice().split_at(i + 1);
        let child_l = join_buckets(l_buckets);
        let child_r = join_buckets(r_buckets);
        let cost = split_cost(&child_l, &child_r);
        let cheaper = match min_cost {
            None => true,
            Some(least) => cost.less_than(&least),
        };
        if cheaper {
            min_bucket = i;
            min_cost = Some(cost);
            child_l_aabb = child_l.aabb;
            child_r_aabb = child_r.aabb;
        }
        i += 1;
    }
    (min_bucket, child_l_aabb, child_r_aabb)
}

} // verus!
