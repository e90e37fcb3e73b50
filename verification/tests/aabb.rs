use bvh2d::aabb::{Bounded, AABB};
use bvh2d::axis::Axis;
use bvh2d::{Point2, Vector2, EPSILON};

fn aabb(min_x: i32, min_y: i32, max_x: i32, max_y: i32) -> AABB {
    AABB::with_bounds(Point2 { x: min_x, y: min_y }, Point2 { x: max_x, y: max_y })
}

#[test]
fn with_bounds_keeps_both_corners() {
    let b = aabb(1, 2, 3, 4);
    assert_eq!(b.min, Point2 { x: 1, y: 2 });
    assert_eq!(b.max, Point2 { x: 3, y: 4 });
}

#[test]
fn empty_box_has_its_corners_beyond_each_other() {
    let e = AABB::empty();
    assert_eq!(e, aabb(i32::MAX, i32::MAX, i32::MIN, i32::MIN));
    assert!(e.is_empty());
}

#[test]
fn empty_box_is_neutral_for_join() {
    for b in [aabb(-3, -2, 7, 9), aabb(0, 0, 0, 0), aabb(5, 5, 1, 1), AABB::empty()] {
        assert_eq!(AABB::empty().join(&b), b);
        assert_eq!(b.join(&AABB::empty()), b);
    }
}

#[test]
fn join_is_the_least_box_around_both() {
    let a = aabb(0, 0, 4, 2);
    let b = aabb(3, -1, 5, 1);
    assert_eq!(a.join(&b), aabb(0, -1, 5, 2));
    assert_eq!(b.join(&a), aabb(0, -1, 5, 2));
    assert_eq!(a.join(&a), a);
}

#[test]
fn join_is_associative() {
    let a = aabb(0, 0, 4, 2);
    let b = aabb(3, -1, 5, 1);
    let c = aabb(-9, 8, -7, 20);
    assert_eq!(a.join(&b).join(&c), a.join(&b.join(&c)));
}

#[test]
fn join_mut_joins_in_place() {
    let mut a = aabb(0, 0, 4, 2);
    a.join_mut(&aabb(3, -1, 5, 1));
    assert_eq!(a, aabb(0, -1, 5, 2));
}

#[test]
fn grow_reaches_out_to_the_point() {
    let a = aabb(0, 0, 4, 2);
    assert_eq!(a.grow(&Point2 { x: 9, y: -3 }), aabb(0, -3, 9, 2));
    assert_eq!(a.grow(&Point2 { x: 1, y: 1 }), a);
    assert_eq!(AABB::empty().grow(&Point2 { x: 7, y: 8 }), aabb(7, 8, 7, 8));
}

#[test]
fn size_is_max_minus_min() {
    assert_eq!(aabb(1, 2, 4, 10).size(), Vector2 { x: 3, y: 8 });
    assert_eq!(aabb(4, 10, 1, 2).size(), Vector2 { x: -3, y: -8 });
    assert_eq!(
        aabb(i32::MIN, i32::MIN, i32::MAX, i32::MAX).size(),
        Vector2 { x: 4294967295, y: 4294967295 }
    );
    assert_eq!(AABB::empty().size(), Vector2 { x: -4294967295, y: -4294967295 });
}

#[test]
fn center_is_half_a_size_beyond_min() {
    assert_eq!(aabb(0, 0, 10, 4).center(), Point2 { x: 5, y: 2 });
    assert_eq!(aabb(-5, -5, 5, 5).center(), Point2 { x: 0, y: 0 });
    assert_eq!(aabb(7, 7, 7, 7).center(), Point2 { x: 7, y: 7 });
}

#[test]
fn center_rounds_the_half_towards_zero() {
    assert_eq!(aabb(0, 0, 3, 5).center(), Point2 { x: 1, y: 2 });
    assert_eq!(aabb(-3, -5, 0, 0).center(), Point2 { x: -2, y: -3 });
    assert_eq!(aabb(0, 0, -3, -5).center(), Point2 { x: -1, y: -2 });
    assert_eq!(aabb(i32::MIN, i32::MIN, i32::MAX, i32::MAX).center(), Point2 { x: -1, y: -1 });
}

#[test]
fn is_empty_where_a_corner_lies_beyond_the_other() {
    assert!(!aabb(0, 0, 0, 0).is_empty());
    assert!(!aabb(0, 0, 1, 1).is_empty());
    assert!(aabb(1, 0, 0, 1).is_empty());
    assert!(aabb(0, 1, 1, 0).is_empty());
}

#[test]
fn surface_area_is_width_times_height() {
    assert_eq!(aabb(0, -1, 5, 2).surface_area(), 15);
    assert_eq!(aabb(3, 3, 3, 9).surface_area(), 0);
    assert_eq!(aabb(0, 0, -2, 3).surface_area(), -6);
    assert_eq!(aabb(0, 0, -2, -3).surface_area(), 6);
    assert_eq!(
        aabb(i32::MIN, i32::MIN, i32::MAX, i32::MAX).surface_area(),
        18446744065119617025
    );
}

#[test]
fn largest_axis_is_y_unless_x_is_longer() {
    assert!(aabb(0, 0, 5, 4).largest_axis() == Axis::X);
    assert!(aabb(0, 0, 4, 5).largest_axis() == Axis::Y);
    assert!(aabb(0, 0, 4, 4).largest_axis() == Axis::Y);
}

#[test]
fn index_picks_the_coordinate_of_the_axis() {
    let p = Point2 { x: -4, y: 9 };
    assert_eq!(p.index(Axis::X), -4);
    assert_eq!(p.index(Axis::Y), 9);
}

#[test]
fn contained_by_counts_the_faces_in() {
    let b = aabb(-5, -5, 5, 5);
    assert!(Point2 { x: 0, y: 0 }.contained_by(&b));
    assert!(Point2 { x: 5, y: 5 }.contained_by(&b));
    assert!(Point2 { x: -5, y: 5 }.contained_by(&b));
    assert!(Point2 { x: 5, y: -5 }.contained_by(&b));
    assert!(!Point2 { x: 6, y: 0 }.contained_by(&b));
    assert!(!Point2 { x: 0, y: 6 }.contained_by(&b));
    assert!(!Point2 { x: -6, y: 0 }.contained_by(&b));
    assert!(!Point2 { x: 0, y: -6 }.contained_by(&b));
}

#[test]
fn nothing_is_contained_by_the_empty_box() {
    let e = AABB::empty();
    assert!(!Point2 { x: 0, y: 0 }.contained_by(&e));
    assert!(!Point2 { x: i32::MAX, y: i32::MAX }.contained_by(&e));
    assert!(!Point2 { x: i32::MIN, y: i32::MIN }.contained_by(&e));
}

#[test]
fn a_box_is_its_own_bounding_box() {
    let b = aabb(1, 2, 3, 4);
    assert_eq!(b.aabb(), b);
}

#[test]
fn epsilon_is_the_least_extent_that_can_be_split() {
    assert_eq!(EPSILON, 1);
}
