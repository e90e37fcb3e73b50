use bvh2d::aabb::AABB;
use bvh2d::axis::Axis;
use bvh2d::bvh2d::partition::bucket_split;
use bvh2d::bvh2d::split::{
    assign_buckets, bucket_number, centroid_bounds_of_shapes, join_buckets, select_boundary,
    split_cost, SplitCost, NUM_BUCKETS,
};
use bvh2d::utils::Bucket;
use bvh2d::Point2;

fn aabb(min_x: i32, min_y: i32, max_x: i32, max_y: i32) -> AABB {
    AABB::with_bounds(Point2 { x: min_x, y: min_y }, Point2 { x: max_x, y: max_y })
}

/// A box of two by two around the given center.
fn around(x: i32, y: i32) -> AABB {
    aabb(x - 1, y - 1, x + 1, y + 1)
}

#[test]
fn there_are_four_buckets() {
    assert_eq!(NUM_BUCKETS, 4);
}

#[test]
fn centroid_bounds_hold_the_centers_only() {
    let shapes = [aabb(0, 0, 10, 10), aabb(20, -4, 40, 4), aabb(-100, -100, 100, 100)];
    assert_eq!(centroid_bounds_of_shapes(&[0, 1], &shapes), aabb(5, 0, 30, 5));
    assert_eq!(centroid_bounds_of_shapes(&[0, 1, 2], &shapes), aabb(0, 0, 30, 5));
    assert_eq!(centroid_bounds_of_shapes(&[2], &shapes), aabb(0, 0, 0, 0));
    assert_eq!(centroid_bounds_of_shapes(&[], &shapes), AABB::empty());
}

#[test]
fn bucket_number_scales_the_offset_by_a_hair_under_four() {
    let bounds = aabb(0, -50, 100, 50);
    let bucket = |x: i32| bucket_number(&Point2 { x, y: 0 }, &bounds, Axis::X);
    assert_eq!(bucket(0), 0);
    assert_eq!(bucket(25), 0);
    assert_eq!(bucket(26), 1);
    assert_eq!(bucket(50), 1);
    assert_eq!(bucket(51), 2);
    assert_eq!(bucket(75), 2);
    assert_eq!(bucket(76), 3);
    assert_eq!(bucket(100), 3);
}

#[test]
fn bucket_number_goes_by_the_given_axis() {
    let bounds = aabb(0, -50, 100, 50);
    assert_eq!(bucket_number(&Point2 { x: 0, y: 50 }, &bounds, Axis::Y), 3);
    assert_eq!(bucket_number(&Point2 { x: 100, y: -50 }, &bounds, Axis::Y), 0);
    assert_eq!(bucket_number(&Point2 { x: 100, y: 0 }, &bounds, Axis::Y), 1);
}

#[test]
fn bucket_number_on_the_widest_bounds() {
    let bounds = aabb(i32::MIN, 0, i32::MAX, 0);
    assert_eq!(bucket_number(&Point2 { x: i32::MIN, y: 0 }, &bounds, Axis::X), 0);
    assert_eq!(bucket_number(&Point2 { x: -1, y: 0 }, &bounds, Axis::X), 1);
    assert_eq!(bucket_number(&Point2 { x: i32::MAX, y: 0 }, &bounds, Axis::X), 3);
}

#[test]
fn bucket_number_on_the_narrowest_bounds() {
    let bounds = aabb(7, 0, 8, 0);
    assert_eq!(bucket_number(&Point2 { x: 7, y: 0 }, &bounds, Axis::X), 0);
    assert_eq!(bucket_number(&Point2 { x: 8, y: 0 }, &bounds, Axis::X), 3);
}

#[test]
fn join_buckets_merges_from_first_to_last() {
    let buckets = [
        Bucket { size: 2, aabb: aabb(0, 0, 1, 1) },
        Bucket::empty(),
        Bucket { size: 5, aabb: aabb(8, -3, 9, 0) },
    ];
    assert_eq!(join_buckets(&buckets), Bucket { size: 7, aabb: aabb(0, -3, 9, 1) });
    assert_eq!(join_buckets(&buckets[..1]), buckets[0]);
    assert_eq!(join_buckets(&[]), Bucket::empty());
}

/// The cost that is the given number.
fn cost(value: i128) -> SplitCost {
    SplitCost { high: value >> 64, low: value as u64 }
}

#[test]
fn split_cost_weighs_each_area_by_its_number_of_shapes() {
    let l = Bucket { size: 2, aabb: aabb(0, 0, 3, 5) };
    let r = Bucket { size: 7, aabb: aabb(10, 10, 14, 11) };
    assert_eq!(split_cost(&l, &r), SplitCost { high: 0, low: 2 * 15 + 7 * 4 });
    assert_eq!(split_cost(&r, &l), SplitCost { high: 0, low: 2 * 15 + 7 * 4 });
    assert_eq!(
        split_cost(&l, &Bucket { size: 0, aabb: aabb(0, 0, 9, 9) }),
        SplitCost { high: 0, low: 30 }
    );
}

#[test]
fn split_cost_of_the_largest_boxes() {
    let all = aabb(i32::MIN, i32::MIN, i32::MAX, i32::MAX);
    let l = Bucket { size: 1 << 30, aabb: all };
    let r = Bucket { size: 1 << 30, aabb: all };
    assert_eq!(split_cost(&l, &r), cost(18446744065119617025i128 << 31));
    assert_eq!(split_cost(&l, &r), SplitCost { high: 2147483647, low: 2147483648 });
}

#[test]
fn split_cost_of_as_many_shapes_as_can_be_counted() {
    // (2^64 - 1) * (2^32 - 1)^2, twice: beyond what 128 bits hold.
    let all = aabb(i32::MIN, i32::MIN, i32::MAX, i32::MAX);
    let l = Bucket { size: usize::MAX, aabb: all };
    let once = SplitCost::weighted_area(usize::MAX, all.surface_area());
    assert_eq!(once, SplitCost { high: 18446744065119617024, low: 8589934591 });
    assert_eq!(split_cost(&l, &l), SplitCost { high: 36893488130239234048, low: 17179869182 });
}

#[test]
fn split_cost_of_boxes_with_their_corners_beyond_each_other() {
    let l = Bucket { size: 3, aabb: aabb(0, 0, -2, 3) };
    let r = Bucket { size: 2, aabb: aabb(0, 0, 1, 1) };
    assert_eq!(l.aabb.surface_area(), -6);
    assert_eq!(split_cost(&l, &r), cost(-16));
    assert_eq!(split_cost(&l, &r), SplitCost { high: -1, low: 18446744073709551600 });
    assert_eq!(split_cost(&l, &l), cost(-36));
}

#[test]
fn weighted_area_is_the_area_taken_for_each_shape() {
    assert_eq!(SplitCost::weighted_area(0, 12345), cost(0));
    assert_eq!(SplitCost::weighted_area(7, 0), cost(0));
    assert_eq!(SplitCost::weighted_area(7, 6), cost(42));
    assert_eq!(SplitCost::weighted_area(7, -6), cost(-42));
    assert_eq!(SplitCost::weighted_area(1 << 40, 1 << 40), cost(1 << 80));
    assert_eq!(SplitCost::weighted_area(1 << 40, -(1 << 40)), cost(-(1 << 80)));
    assert_eq!(SplitCost::weighted_area(1 << 40, -(1 << 24)), SplitCost { high: -1, low: 0 });
}

#[test]
fn plus_carries_from_the_low_part() {
    let a = SplitCost { high: 1, low: u64::MAX };
    let b = SplitCost { high: -3, low: 2 };
    assert_eq!(a.plus(&b), SplitCost { high: -1, low: 1 });
    assert_eq!(cost(1000).plus(&cost(-1)), cost(999));
    assert_eq!(cost(-1).plus(&cost(-1)), cost(-2));
    assert_eq!(cost(1 << 100).plus(&cost(-(1 << 100))), cost(0));
}

#[test]
fn less_than_goes_by_the_number() {
    let ordered = [
        cost(-(1 << 100)),
        cost(-(1 << 64) - 1),
        cost(-(1 << 64)),
        cost(-1),
        cost(0),
        cost(1),
        cost((1 << 64) - 1),
        cost(1 << 64),
        cost(1 << 100),
    ];
    for i in 0..ordered.len() {
        for j in 0..ordered.len() {
            assert_eq!(ordered[i].less_than(&ordered[j]), i < j);
        }
    }
}

#[test]
fn assign_buckets_sorts_by_center_and_keeps_the_order() {
    let shapes = [around(100, 0), around(0, 0), around(30, 0), around(10, 0), around(60, 0)];
    let indices = [0, 1, 2, 3, 4];
    let bounds = centroid_bounds_of_shapes(&indices, &shapes);
    assert_eq!(bounds, aabb(0, 0, 100, 0));
    let (assignments, buckets) = assign_buckets(&indices, &shapes, &bounds, Axis::X);
    assert_eq!(assignments, [vec![1, 3], vec![2], vec![4], vec![0]]);
    assert_eq!(
        buckets,
        [
            Bucket { size: 2, aabb: aabb(-1, -1, 11, 1) },
            Bucket { size: 1, aabb: around(30, 0) },
            Bucket { size: 1, aabb: around(60, 0) },
            Bucket { size: 1, aabb: around(100, 0) },
        ]
    );
}

#[test]
fn select_boundary_takes_the_cheapest() {
    // After the first bucket: 1 * 4 + 2 * (702 * 2) = 2812.
    // After the second:       2 * (302 * 2) + 1 * 4 = 1212.
    // After the third:        the same as after the second.
    let buckets = [
        Bucket { size: 1, aabb: around(0, 0) },
        Bucket { size: 1, aabb: around(300, 0) },
        Bucket::empty(),
        Bucket { size: 1, aabb: around(1000, 0) },
    ];
    let (boundary, l, r) = select_boundary(&buckets);
    assert_eq!(boundary, 1);
    assert_eq!(l, aabb(-1, -1, 301, 1));
    assert_eq!(r, around(1000, 0));
}

#[test]
fn select_boundary_takes_the_cheapest_wherever_it_lies() {
    // After the first bucket: 1 * 4 + 3 * (32 * 2) = 196.
    // After the second:       2 * (972 * 2) + 2 * (12 * 2) = 3936.
    // After the third:        3 * (992 * 2) + 1 * 4 = 5956.
    let first = [
        Bucket { size: 1, aabb: around(0, 0) },
        Bucket { size: 1, aabb: around(970, 0) },
        Bucket { size: 1, aabb: around(990, 0) },
        Bucket { size: 1, aabb: around(1000, 0) },
    ];
    let (boundary, l, r) = select_boundary(&first);
    assert_eq!(boundary, 0);
    assert_eq!(l, around(0, 0));
    assert_eq!(r, aabb(969, -1, 1001, 1));
    // After the first bucket: 1 * 4 + 3 * (26 * 2) = 160.
    // After the second:       2 * (14 * 2) + 2 * (14 * 2) = 112.
    // After the third:        3 * (26 * 2) + 1 * 4 = 160.
    let second = [
        Bucket { size: 1, aabb: around(0, 0) },
        Bucket { size: 1, aabb: around(12, 0) },
        Bucket { size: 1, aabb: around(24, 0) },
        Bucket { size: 1, aabb: around(36, 0) },
    ];
    let (boundary, l, r) = select_boundary(&second);
    assert_eq!(boundary, 1);
    assert_eq!(l, aabb(-1, -1, 13, 1));
    assert_eq!(r, aabb(23, -1, 37, 1));
    // After the first bucket: 5 * 4 + 3 * (992 * 2) = 5972.
    // After the second:       6 * (12 * 2) + 2 * (972 * 2) = 4032.
    // After the third:        7 * (32 * 2) + 1 * 4 = 452.
    let third = [
        Bucket { size: 5, aabb: around(0, 0) },
        Bucket { size: 1, aabb: around(10, 0) },
        Bucket { size: 1, aabb: around(30, 0) },
        Bucket { size: 1, aabb: around(1000, 0) },
    ];
    let (boundary, l, r) = select_boundary(&third);
    assert_eq!(boundary, 2);
    assert_eq!(l, aabb(-1, -1, 31, 1));
    assert_eq!(r, around(1000, 0));
}

#[test]
fn select_boundary_takes_the_first_of_equals() {
    let buckets = [
        Bucket { size: 2, aabb: aabb(-5, -5, 105, 5) },
        Bucket::empty(),
        Bucket::empty(),
        Bucket { size: 2, aabb: aabb(-5, 95, 105, 105) },
    ];
    let (boundary, l, r) = select_boundary(&buckets);
    assert_eq!(boundary, 0);
    assert_eq!(l, aabb(-5, -5, 105, 5));
    assert_eq!(r, aabb(-5, 95, 105, 105));
}

#[test]
fn select_boundary_on_boxes_without_area() {
    let buckets = [
        Bucket { size: 1, aabb: aabb(0, 0, 0, 0) },
        Bucket { size: 1, aabb: aabb(5, 0, 5, 0) },
        Bucket::empty(),
        Bucket { size: 1, aabb: aabb(9, 0, 9, 0) },
    ];
    let (boundary, l, r) = select_boundary(&buckets);
    assert_eq!(boundary, 0);
    assert_eq!(l, aabb(0, 0, 0, 0));
    assert_eq!(r, aabb(5, 0, 9, 0));
}

#[test]
fn bucket_split_divides_at_the_cheapest_boundary() {
    let shapes = [around(1000, 0), around(0, 0), around(300, 0)];
    let indices = [0, 1, 2];
    let bounds = centroid_bounds_of_shapes(&indices, &shapes);
    let (l, l_aabb, r, r_aabb) = bucket_split(&indices, &shapes, &bounds, Axis::X);
    assert_eq!(l, vec![1, 2]);
    assert_eq!(l_aabb, aabb(-1, -1, 301, 1));
    assert_eq!(r, vec![0]);
    assert_eq!(r_aabb, around(1000, 0));
}
