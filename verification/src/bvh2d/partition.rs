//! The two parts that a set of shapes is divided into, and why they are
//! parts: neither is empty, together they hold every shape once, and the box
//! that comes with each is the joint box of its shapes.
use vstd::prelude::*;
use vstd::seq_lib::lemma_multiset_commutative;

use crate::aabb::AABB;
use crate::axis::Axis;
use crate::bvh2d::split::{
    assign_buckets, best_boundary, bucket_members, centroid_bounds, filled_buckets,
    joined_buckets, lemma_bucket_number_in_range, lemma_centroid_bounds_attained,
    lemma_centroid_bounds_hold_centers, lemma_cheapest_boundary, members_of_buckets,
    select_boundary, spec_bucket_number, total_size, NUM_BUCKETS,
};
use crate::utils::{
    concatenate_vectors, concatenation, indices_in_range, joint_aabb, lemma_joint_aabb_concat,
    lemma_joint_aabb_permutation,
};
use crate::EPSILON;

verus! {

/// A division of shapes in two, with the joint box of either part.
pub struct Partition {
    pub left: Seq<usize>,
    pub left_aabb: AABB,
    pub right: Seq<usize>,
    pub right_aabb: AABB,
}

/// The division of a list in the middle; the first part is the shorter one
/// where the length is odd.
pub open spec fn half_partition(indices: Seq<usize>, boxes: Seq<AABB>) -> Partition {
    let mid = indices.len() as int / 2;
    Partition {
        left: indices.take(mid),
        left_aabb: joint_aabb(indices.take(mid), boxes),
        right: indices.skip(mid),
        right_aabb: joint_aabb(indices.skip(mid), boxes),
    }
}

/// The division at the cheapest boundary between the buckets along `axis`:
/// the members of the buckets up to the boundary, and those of the buckets
/// after it, each with the merged box of its buckets.
pub open spec fn bucket_partition(
    indices: Seq<usize>,
    boxes: Seq<AABB>,
    centroid_bounds: AABB,
    axis: Axis,
) -> Partition {
    let buckets = filled_buckets(indices, boxes, centroid_bounds, axis);
    let best = best_boundary(buckets);
    Partition {
        left: members_of_buckets(indices, boxes, centroid_bounds, axis, 0, best + 1),
        left_aabb: joined_buckets(buckets.subrange(0, best + 1)).aabb,
        right: members_of_buckets(
            indices,
            boxes,
            centroid_bounds,
            axis,
            best + 1,
            NUM_BUCKETS as int,
        ),
        right_aabb: joined_buckets(buckets.subrange(best + 1, NUM_BUCKETS as int)).aabb,
    }
}

/// How the builder divides the shapes at the given indices: by buckets along
/// the axis on which their centers spread most, or in the middle of the list
/// where the centers do not spread at all.
#[verifier::opaque]
pub open spec fn partition(indices: Seq<usize>, boxes: Seq<AABB>) -> Partition {
    let bounds = centroid_bounds(indices, boxes);
    let axis = bounds.spec_largest_axis();
    if bounds.spec_extent(axis) < EPSILON {
        half_partition(indices, boxes)
    } else {
        bucket_partition(indices, boxes, bounds, axis)
    }
}

/// Whether every listed box has its center in one of the buckets.
pub open spec fn all_bucketed(
    indices: Seq<usize>,
    boxes: Seq<AABB>,
    centroid_bounds: AABB,
    axis: Axis,
) -> bool {
    forall|i: int|
        0 <= i < indices.len() ==> 0 <= spec_bucket_number(
            boxes[#[trigger] indices[i] as int].spec_center(),
            centroid_bounds,
            axis,
        ) < NUM_BUCKETS
}

/// A range of buckets is its lower part followed by its upper part.
pub proof fn lemma_members_of_buckets_split(
    indices: Seq<usize>,
    boxes: Seq<AABB>,
    centroid_bounds: AABB,
    axis: Axis,
    from: int,
    mid: int,
    to: int,
)
    requires
        from <= mid <= to,
    ensures
        members_of_buckets(indices, boxes, centroid_bounds, axis, from, to) == members_of_buckets(
            indices,
            boxes,
            centroid_bounds,
            axis,
            from,
            mid,
        ) + members_of_buckets(indices, boxes, centroid_bounds, axis, mid, to),
    decreases to - mid,
{
    let lower = members_of_buckets(indices, boxes, centroid_bounds, axis, from, mid);
    if mid == to {
        assert(lower + Seq::<usize>::empty() == lower);
    } else {
        lemma_members_of_buckets_split(indices, boxes, centroid_bounds, axis, from, mid, to - 1);
        let upper = members_of_buckets(indices, boxes, centroid_bounds, axis, mid, to - 1);
        let last = bucket_members(indices, boxes, centroid_bounds, axis, to - 1);
        assert((lower + upper) + last == lower + (upper + last));
    }
}

/// A bucket that some listed box falls into has a member.
pub proof fn lemma_bucket_has_member(
    indices: Seq<usize>,
    boxes: Seq<AABB>,
    centroid_bounds: AABB,
    axis: Axis,
    i: int,
)
    requires
        0 <= i < indices.len(),
    ensures
        bucket_members(
            indices,
            boxes,
            centroid_bounds,
            axis,
            spec_bucket_number(boxes[indices[i] as int].spec_center(), centroid_bounds, axis),
        ).len() > 0,
    decreases indices.len(),
{
    if i < indices.len() - 1 {
        lemma_bucket_has_member(indices.drop_last(), boxes, centroid_bounds, axis, i);
    }
}

/// A bucket holds only listed boxes, and no more of them than are listed.
pub proof fn lemma_bucket_members_listed(
    indices: Seq<usize>,
    boxes: Seq<AABB>,
    centroid_bounds: AABB,
    axis: Axis,
    bucket: int,
)
    ensures
        bucket_members(indices, boxes, centroid_bounds, axis, bucket).len() <= indices.len(),
        forall|j: int|
            0 <= j < bucket_members(indices, boxes, centroid_bounds, axis, bucket).len()
                ==> indices.contains(
                #[trigger] bucket_members(indices, boxes, centroid_bounds, axis, bucket)[j],
            ),
    decreases indices.len(),
{
    if indices.len() > 0 {
        let rest = indices.drop_last();
        lemma_bucket_members_listed(rest, boxes, centroid_bounds, axis, bucket);
        let members = bucket_members(indices, boxes, centroid_bounds, axis, bucket);
        let before = bucket_members(rest, boxes, centroid_bounds, axis, bucket);
        assert forall|j: int| 0 <= j < members.len() implies indices.contains(
            #[trigger] members[j],
        ) by {
            if j < before.len() {
                let at = choose|at: int| 0 <= at < rest.len() && rest[at] == before[j];
                assert(indices[at] == members[j]);
            } else {
                assert(indices[indices.len() - 1] == members[j]);
            }
        }
    }
}

/// With one more box listed, the buckets `from..to` gain that box if its
/// bucket is among them, and are otherwise as before.
pub proof fn lemma_members_of_buckets_grow(
    indices: Seq<usize>,
    boxes: Seq<AABB>,
    centroid_bounds: AABB,
    axis: Axis,
    from: int,
    to: int,
)
    requires
        indices.len() > 0,
        from <= to,
    ensures
        ({
            let rest = indices.drop_last();
            let bucket = spec_bucket_number(
                boxes[indices.last() as int].spec_center(),
                centroid_bounds,
                axis,
            );
            let before = members_of_buckets(rest, boxes, centroid_bounds, axis, from, to);
            let after = members_of_buckets(indices, boxes, centroid_bounds, axis, from, to);
            if from <= bucket < to {
                after.to_multiset() == before.to_multiset().insert(indices.last())
            } else {
                after == before
            }
        }),
    decreases to - from,
{
    broadcast use vstd::seq_lib::to_multiset_build;

    if from < to {
        let rest = indices.drop_last();
        let bucket = spec_bucket_number(
            boxes[indices.last() as int].spec_center(),
            centroid_bounds,
            axis,
        );
        lemma_members_of_buckets_grow(indices, boxes, centroid_bounds, axis, from, to - 1);
        let before_lower = members_of_buckets(rest, boxes, centroid_bounds, axis, from, to - 1);
        let after_lower = members_of_buckets(indices, boxes, centroid_bounds, axis, from, to - 1);
        let before_last = bucket_members(rest, boxes, centroid_bounds, axis, to - 1);
        let after_last = bucket_members(indices, boxes, centroid_bounds, axis, to - 1);
        lemma_multiset_commutative(before_lower, before_last);
        lemma_multiset_commutative(after_lower, after_last);
        if bucket == to - 1 {
            assert(after_last == before_last.push(indices.last()));
            assert(after_lower == before_lower);
            assert((after_lower + after_last).to_multiset() =~= (before_lower
                + before_last).to_multiset().insert(indices.last()));
        } else if from <= bucket < to - 1 {
            assert(after_last == before_last);
            assert((after_lower + after_last).to_multiset() =~= (before_lower
                + before_last).to_multiset().insert(indices.last()));
        } else {
            assert(after_last == before_last);
        }
    }
}

/// The buckets together hold every listed box once.
pub proof fn lemma_buckets_hold_all(
    indices: Seq<usize>,
    boxes: Seq<AABB>,
    centroid_bounds: AABB,
    axis: Axis,
)
    requires
        all_bucketed(indices, boxes, centroid_bounds, axis),
    ensures
        members_of_buckets(
            indices,
            boxes,
            centroid_bounds,
            axis,
            0,
            NUM_BUCKETS as int,
        ).to_multiset() == indices.to_multiset(),
    decreases indices.len(),
{
    broadcast use vstd::seq_lib::to_multiset_build;

    let all = members_of_buckets(indices, boxes, centroid_bounds, axis, 0, NUM_BUCKETS as int);
    if indices.len() == 0 {
        lemma_no_members_of_none(boxes, centroid_bounds, axis, 0, NUM_BUCKETS as int);
        assert(indices == Seq::<usize>::empty());
    } else {
        let rest = indices.drop_last();
        assert forall|i: int| 0 <= i < rest.len() implies 0 <= spec_bucket_number(
            boxes[#[trigger] rest[i] as int].spec_center(),
            centroid_bounds,
            axis,
        ) < NUM_BUCKETS by {
            assert(rest[i] == indices[i]);
        }
        lemma_buckets_hold_all(rest, boxes, centroid_bounds, axis);
        lemma_members_of_buckets_grow(indices, boxes, centroid_bounds, axis, 0, NUM_BUCKETS as int);
        assert(indices[indices.len() - 1] == indices.last());
        assert(indices == rest.push(indices.last()));
    }
}

/// No box listed, no member in any bucket.
pub proof fn lemma_no_members_of_none(
    boxes: Seq<AABB>,
    centroid_bounds: AABB,
    axis: Axis,
    from: int,
    to: int,
)
    ensures
        members_of_buckets(Seq::<usize>::empty(), boxes, centroid_bounds, axis, from, to)
            == Seq::<usize>::empty(),
    decreases to - from,
{
    if from < to {
        lemma_no_members_of_none(boxes, centroid_bounds, axis, from, to - 1);
    }
}

/// The merged box of a range of buckets is the joint box of their members.
pub proof fn lemma_joined_buckets_aabb(
    indices: Seq<usize>,
    boxes: Seq<AABB>,
    centroid_bounds: AABB,
    axis: Axis,
    from: int,
    to: int,
)
    requires
        0 <= from <= to <= NUM_BUCKETS,
    ensures
        joined_buckets(
            filled_buckets(indices, boxes, centroid_bounds, axis).subrange(from, to),
        ).aabb == joint_aabb(
            members_of_buckets(indices, boxes, centroid_bounds, axis, from, to),
            boxes,
        ),
    decreases to - from,
{
    let buckets = filled_buckets(indices, boxes, centroid_bounds, axis);
    if from < to {
        lemma_joined_buckets_aabb(indices, boxes, centroid_bounds, axis, from, to - 1);
        assert(buckets.subrange(from, to).drop_last() == buckets.subrange(from, to - 1));
        lemma_joint_aabb_concat(
            members_of_buckets(indices, boxes, centroid_bounds, axis, from, to - 1),
            bucket_members(indices, boxes, centroid_bounds, axis, to - 1),
            boxes,
        );
    }
}

/// A range of buckets holds as many boxes as it has members.
pub proof fn lemma_total_size_of_filled(
    indices: Seq<usize>,
    boxes: Seq<AABB>,
    centroid_bounds: AABB,
    axis: Axis,
    from: int,
    to: int,
)
    requires
        0 <= from <= to <= NUM_BUCKETS,
        indices.len() <= usize::MAX,
    ensures
        total_size(filled_buckets(indices, boxes, centroid_bounds, axis).subrange(from, to))
            == members_of_buckets(indices, boxes, centroid_bounds, axis, from, to).len(),
    decreases to - from,
{
    let buckets = filled_buckets(indices, boxes, centroid_bounds, axis);
    if from < to {
        lemma_total_size_of_filled(indices, boxes, centroid_bounds, axis, from, to - 1);
        lemma_bucket_members_listed(indices, boxes, centroid_bounds, axis, to - 1);
        assert(buckets.subrange(from, to).drop_last() == buckets.subrange(from, to - 1));
    }
}

/// Whether the two parts are a division of the listed shapes: neither is
/// empty, together they list what `indices` lists, as often, and each comes
/// with the joint box of its shapes.
pub open spec fn divides(parts: Partition, indices: Seq<usize>, boxes: Seq<AABB>) -> bool {
    &&& parts.left.len() > 0
    &&& parts.right.len() > 0
    &&& parts.left.to_multiset().add(parts.right.to_multiset()) == indices.to_multiset()
    &&& parts.left_aabb == joint_aabb(parts.left, boxes)
    &&& parts.right_aabb == joint_aabb(parts.right, boxes)
}

/// Where the centers of the listed boxes spread along `axis`, the cheapest
/// boundary between the buckets divides them.
pub proof fn lemma_bucket_partition_divides(indices: Seq<usize>, boxes: Seq<AABB>, axis: Axis)
    requires
        indices.len() > 0,
        centroid_bounds(indices, boxes).spec_extent(axis) >= EPSILON,
    ensures
        all_bucketed(indices, boxes, centroid_bounds(indices, boxes), axis),
        divides(
            bucket_partition(indices, boxes, centroid_bounds(indices, boxes), axis),
            indices,
            boxes,
        ),
{
    let bounds = centroid_bounds(indices, boxes);
    let buckets = filled_buckets(indices, boxes, bounds, axis);
    let parts = bucket_partition(indices, boxes, bounds, axis);
    let best = best_boundary(buckets);
    let last = NUM_BUCKETS as int;
    assert forall|i: int| 0 <= i < indices.len() implies 0 <= spec_bucket_number(
        boxes[#[trigger] indices[i] as int].spec_center(),
        bounds,
        axis,
    ) < NUM_BUCKETS by {
        lemma_centroid_bounds_hold_centers(indices, boxes, i);
        lemma_bucket_number_in_range(boxes[indices[i] as int].spec_center(), bounds, axis);
    }
    lemma_cheapest_boundary(buckets, last - 1);
    lemma_centroid_bounds_attained(indices, boxes, axis);
    let low = choose|i: int|
        0 <= i < indices.len() && (#[trigger] boxes[indices[i] as int]).spec_center().spec_index(
            axis,
        ) == bounds.min.spec_index(axis);
    let high = choose|i: int|
        0 <= i < indices.len() && (#[trigger] boxes[indices[i] as int]).spec_center().spec_index(
            axis,
        ) == bounds.max.spec_index(axis);
    lemma_centroid_bounds_hold_centers(indices, boxes, low);
    lemma_centroid_bounds_hold_centers(indices, boxes, high);
    lemma_bucket_number_in_range(boxes[indices[low] as int].spec_center(), bounds, axis);
    lemma_bucket_number_in_range(boxes[indices[high] as int].spec_center(), bounds, axis);
    lemma_bucket_has_member(indices, boxes, bounds, axis, low);
    lemma_bucket_has_member(indices, boxes, bounds, axis, high);
    // The first bucket lies before every boundary, the last one after.
    lemma_members_of_buckets_split(indices, boxes, bounds, axis, 0, 1, best + 1);
    lemma_members_of_buckets_split(indices, boxes, bounds, axis, 0, 0, 1);
    lemma_members_of_buckets_split(indices, boxes, bounds, axis, best + 1, last - 1, last);
    assert(parts.left.len() > 0);
    assert(parts.right.len() > 0);
    lemma_members_of_buckets_split(indices, boxes, bounds, axis, 0, best + 1, last);
    lemma_multiset_commutative(parts.left, parts.right);
    lemma_buckets_hold_all(indices, boxes, bounds, axis);
    lemma_joined_buckets_aabb(indices, boxes, bounds, axis, 0, best + 1);
    lemma_joined_buckets_aabb(indices, boxes, bounds, axis, best + 1, last);
}

/// A list of two or more is divided by a cut in the middle.
pub proof fn lemma_half_partition_divides(indices: Seq<usize>, boxes: Seq<AABB>)
    requires
        indices.len() >= 2,
    ensures
        divides(half_partition(indices, boxes), indices, boxes),
{
    let mid = indices.len() as int / 2;
    lemma_multiset_commutative(indices.take(mid), indices.skip(mid));
    assert(indices.take(mid) + indices.skip(mid) == indices);
}

/// The builder's division of two or more shapes is a division.
pub proof fn lemma_partition_divides(indices: Seq<usize>, boxes: Seq<AABB>)
    requires
        indices.len() >= 2,
    ensures
        divides(partition(indices, boxes), indices, boxes),
{
    reveal(partition);
    let bounds = centroid_bounds(indices, boxes);
    let axis = bounds.spec_largest_axis();
    if bounds.spec_extent(axis) < EPSILON {
        lemma_half_partition_divides(indices, boxes);
    } else {
        lemma_bucket_partition_divides(indices, boxes, axis);
    }
}

/// Which of the two divisions the builder makes.
pub proof fn lemma_partition_by_extent(indices: Seq<usize>, boxes: Seq<AABB>)
    ensures
        ({
            let bounds = centroid_bounds(indices, boxes);
            let axis = bounds.spec_largest_axis();
            partition(indices, boxes) == if bounds.spec_extent(axis) < EPSILON {
                half_partition(indices, boxes)
            } else {
                bucket_partition(indices, boxes, bounds, axis)
            }
        }),
{
    reveal(partition);
}

/// The parts of a division are shorter than the whole, as long as the whole
/// together, and list nothing that the whole does not list.
pub proof fn lemma_divides_parts(parts: Partition, indices: Seq<usize>, boxes: Seq<AABB>)
    requires
        divides(parts, indices, boxes),
    ensures
        parts.left.len() + parts.right.len() == indices.len(),
        0 < parts.left.len() < indices.len(),
        0 < parts.right.len() < indices.len(),
        indices_in_range(indices, boxes) ==> indices_in_range(parts.left, boxes)
            && indices_in_range(parts.right, boxes),
{
    broadcast use vstd::seq_lib::group_to_multiset_ensures;

    lemma_multiset_commutative(parts.left, parts.right);
    assert((parts.left + parts.right).to_multiset().len() == indices.to_multiset().len());
    if indices_in_range(indices, boxes) {
        assert forall|i: int| 0 <= i < parts.left.len() implies parts.left[i] < boxes.len() by {
            assert(parts.left.contains(parts.left[i]));
            assert(parts.left.to_multiset().count(parts.left[i]) > 0);
            assert(indices.to_multiset().count(parts.left[i]) > 0);
            let at = choose|at: int| 0 <= at < indices.len() && indices[at] == parts.left[i];
        }
        assert forall|i: int| 0 <= i < parts.right.len() implies parts.right[i] < boxes.len() by {
            assert(parts.right.contains(parts.right[i]));
            assert(parts.right.to_multiset().count(parts.right[i]) > 0);
            assert(indices.to_multiset().count(parts.right[i]) > 0);
            let at = choose|at: int| 0 <= at < indices.len() && indices[at] == parts.right[i];
        }
    }
}

/// The lists of a range of buckets, one after the other, are the members of
/// those buckets.
proof fn lemma_concatenated_assignments(
    assignments: Seq<Vec<usize>>,
    indices: Seq<usize>,
    boxes: Seq<AABB>,
    centroid_bounds: AABB,
    axis: Axis,
    from: int,
)
    requires
        forall|k: int|
            0 <= k < assignments.len() ==> (#[trigger] assignments[k])@ == bucket_members(
                indices,
                boxes,
                centroid_bounds,
                axis,
                from + k,
            ),
    ensures
        concatenation(assignments) == members_of_buckets(
            indices,
            boxes,
            centroid_bounds,
            axis,
            from,
            from + assignments.len(),
        ),
    decreases assignments.len(),
{
    if assignments.len() > 0 {
        let rest = assignments.drop_last();
        assert forall|k: int| 0 <= k < rest.len() implies (#[trigger] rest[k])@ == bucket_members(
            indices,
            boxes,
            centroid_bounds,
            axis,
            from + k,
        ) by {
            assert(rest[k] == assignments[k]);
        }
        lemma_concatenated_assignments(rest, indices, boxes, centroid_bounds, axis, from);
        assert(assignments.last() == assignments[assignments.len() - 1]);
    }
}

/// Divides the shapes at the cheapest boundary between the buckets along
/// `axis`: gives the indices of either part and the joint box of each.
pub fn bucket_split(indices: &[usize], shapes: &[AABB], centroid_bounds: &AABB, axis: Axis) -> (parts:
    (Vec<usize>, AABB, Vec<usize>, AABB))
    requires
        indices@.len() > 0,
        indices_in_range(indices@, shapes@),
        *centroid_bounds == self::centroid_bounds(indices@, shapes@),
        centroid_bounds.spec_extent(axis) >= EPSILON,
    ensures
        bucket_partition(indices@, shapes@, *centroid_bounds, axis) == (Partition {
            left: parts.0@,
            left_aabb: parts.1,
            right: parts.2@,
            right_aabb: parts.3,
        }),
{
    proof {
        assert forall|i: int| 0 <= i < indices@.len() implies centroid_bounds.contains(
            shapes@[#[trigger] indices@[i] as int].spec_center(),
        ) by {
            lemma_centroid_bounds_hold_centers(indices@, shapes@, i);
        }
    }
    let (mut bucket_assignments, buckets) = assign_buckets(indices, shapes, centroid_bounds, axis);
    proof {
        assert(indices.len() == indices@.len());
        lemma_bucket_partition_divides(indices@, shapes@, axis);
        lemma_buckets_hold_all(indices@, shapes@, *centroid_bounds, axis);
        lemma_total_size_of_filled(indices@, shapes@, *centroid_bounds, axis, 0, NUM_BUCKETS as int);
        assert(buckets@.subrange(0, NUM_BUCKETS as int) == buckets@);
        vstd::seq_lib::to_multiset_len(
            members_of_buckets(indices@, shapes@, *centroid_bounds, axis, 0, NUM_BUCKETS as int),
        );
        vstd::seq_lib::to_multiset_len(indices@);
    }
    let (min_bucket, child_l_aabb, child_r_aabb) = select_boundary(&buckets);
    proof {
        lemma_cheapest_boundary(buckets@, NUM_BUCKETS - 1);
    }
    let all_assignments: &mut [Vec<usize>] = &mut bucket_assignments;
    let (l_assignments, r_assignments) = all_assignments.split_at_mut(min_bucket + 1);
    proof {
        lemma_concatenated_assignments(
            l_assignments@,
            indices@,
            shapes@,
            *centroid_bounds,
            axis,
            0,
        );
        lemma_concatenated_assignments(
            r_assignments@,
            indices@,
            shapes@,
            *centroid_bounds,
            axis,
            min_bucket + 1,
        );
    }
    let child_l_indices = concatenate_vectors(l_assignments);
    let child_r_indices = concatenate_vectors(r_assignments);
    (child_l_indices, child_l_aabb, child_r_indices, child_r_aabb)
}

/// Whether the boxes at the given indices all have their center at one
/// point.
pub open spec fn centers_coincide(indices: Seq<usize>, boxes: Seq<AABB>) -> bool {
    forall|i: int|
        0 <= i < indices.len() ==> boxes[#[trigger] indices[i] as int].spec_center()
            == boxes[indices[0] as int].spec_center()
}

/// The joint box of coinciding centers is the point they coincide at.
pub proof fn lemma_centroid_bounds_of_coincident(indices: Seq<usize>, boxes: Seq<AABB>)
    requires
        indices.len() >= 1,
        centers_coincide(indices, boxes),
    ensures
        centroid_bounds(indices, boxes) == (AABB {
            min: boxes[indices[0] as int].spec_center(),
            max: boxes[indices[0] as int].spec_center(),
        }),
    decreases indices.len(),
{
    let rest = indices.drop_last();
    if rest.len() == 0 {
        assert(centroid_bounds(rest, boxes) == AABB::spec_empty());
        assert(indices.last() == indices[0]);
    } else {
        assert forall|i: int| 0 <= i < rest.len() implies boxes[#[trigger] rest[i] as int].spec_center()
            == boxes[rest[0] as int].spec_center() by {
            assert(rest[i] == indices[i]);
            assert(rest[0] == indices[0]);
        }
        lemma_centroid_bounds_of_coincident(rest, boxes);
        assert(rest[0] == indices[0]);
        assert(indices.last() == indices[indices.len() - 1]);
    }
}

/// Shapes whose centers coincide are divided in the middle of their list,
/// whatever their boxes: into the first half, rounded down, and the rest.
/// Neither part is empty, and each comes with the joint box of its shapes.
pub proof fn lemma_coincident_centers_are_halved(indices: Seq<usize>, boxes: Seq<AABB>)
    requires
        indices.len() >= 2,
        centers_coincide(indices, boxes),
    ensures
        partition(indices, boxes) == half_partition(indices, boxes),
        centers_coincide(partition(indices, boxes).left, boxes),
        centers_coincide(partition(indices, boxes).right, boxes),
        divides(partition(indices, boxes), indices, boxes),
        partition(indices, boxes).left == indices.take(indices.len() as int / 2),
        partition(indices, boxes).right == indices.skip(indices.len() as int / 2),
        partition(indices, boxes).left.len() == indices.len() / 2,
        partition(indices, boxes).right.len() == indices.len() - indices.len() / 2,
{
    lemma_centroid_bounds_of_coincident(indices, boxes);
    lemma_partition_by_extent(indices, boxes);
    lemma_partition_divides(indices, boxes);
    let mid = indices.len() as int / 2;
    assert(indices.take(mid)[0] == indices[0]);
    assert(indices.skip(mid)[0] == indices[mid]);
    assert forall|i: int| 0 <= i < indices.take(mid).len() implies boxes[
        #[trigger] indices.take(mid)[i] as int
    ].spec_center() == boxes[indices.take(mid)[0] as int].spec_center() by {
        assert(indices.take(mid)[i] == indices[i]);
    }
    assert forall|i: int| 0 <= i < indices.skip(mid).len() implies boxes[
        #[trigger] indices.skip(mid)[i] as int
    ].spec_center() == boxes[indices.skip(mid)[0] as int].spec_center() by {
        assert(indices.skip(mid)[i] == indices[mid + i]);
    }
}

/// The boxes of the two parts, joined, are the joint box of all the shapes
/// that were divided.
pub proof fn lemma_parts_join_to_whole(indices: Seq<usize>, boxes: Seq<AABB>)
    requires
        indices.len() >= 2,
    ensures
        partition(indices, boxes).left_aabb.spec_join(partition(indices, boxes).right_aabb)
            == joint_aabb(indices, boxes),
{
    let parts = partition(indices, boxes);
    lemma_partition_divides(indices, boxes);
    lemma_joint_aabb_concat(parts.left, parts.right, boxes);
    lemma_multiset_commutative(parts.left, parts.right);
    lemma_joint_aabb_permutation(parts.left + parts.right, indices, boxes);
}

} // verus!
