use bvh2d::aabb::AABB;
use bvh2d::utils::{concatenate_vectors, joint_aabb_of_shapes, Bucket};
use bvh2d::Point2;

fn aabb(min_x: i32, min_y: i32, max_x: i32, max_y: i32) -> AABB {
    AABB::with_bounds(Point2 { x: min_x, y: min_y }, Point2 { x: max_x, y: max_y })
}

#[test]
fn concatenate_vectors_keeps_the_order() {
    let mut parts = vec![vec![4, 1], vec![], vec![9], vec![2, 2, 7]];
    let all = concatenate_vectors(&mut parts);
    assert_eq!(all, vec![4, 1, 9, 2, 2, 7]);
}

#[test]
fn concatenate_vectors_empties_its_sources() {
    let mut parts = vec![vec![4, 1], vec![9]];
    concatenate_vectors(&mut parts);
    assert_eq!(parts, vec![Vec::<i32>::new(), Vec::new()]);
}

#[test]
fn concatenate_vectors_of_nothing_is_empty() {
    let mut none: Vec<Vec<u8>> = Vec::new();
    assert_eq!(concatenate_vectors(&mut none), Vec::<u8>::new());
    let mut empties: Vec<Vec<u8>> = vec![Vec::new(), Vec::new()];
    assert_eq!(concatenate_vectors(&mut empties), Vec::<u8>::new());
}

#[test]
fn empty_bucket_counts_nothing_and_holds_the_empty_box() {
    assert_eq!(Bucket::empty(), Bucket { size: 0, aabb: AABB::empty() });
}

#[test]
fn add_aabb_counts_and_joins() {
    let mut bucket = Bucket::empty();
    bucket.add_aabb(&aabb(0, 0, 2, 2));
    assert_eq!(bucket, Bucket { size: 1, aabb: aabb(0, 0, 2, 2) });
    bucket.add_aabb(&aabb(5, -1, 6, 1));
    assert_eq!(bucket, Bucket { size: 2, aabb: aabb(0, -1, 6, 2) });
}

#[test]
fn join_bucket_adds_sizes_and_joins_boxes() {
    let a = Bucket { size: 3, aabb: aabb(0, 0, 2, 2) };
    let b = Bucket { size: 4, aabb: aabb(-1, 1, 1, 5) };
    assert_eq!(Bucket::join_bucket(a, &b), Bucket { size: 7, aabb: aabb(-1, 0, 2, 5) });
    assert_eq!(Bucket::join_bucket(Bucket::empty(), &b), b);
    assert_eq!(Bucket::join_bucket(a, &Bucket::empty()), a);
}

#[test]
fn join_bucket_is_commutative_and_associative() {
    let a = Bucket { size: 3, aabb: aabb(0, 0, 2, 2) };
    let b = Bucket { size: 4, aabb: aabb(-1, 1, 1, 5) };
    let c = Bucket { size: 1, aabb: aabb(10, 10, 11, 11) };
    assert_eq!(Bucket::join_bucket(a, &b), Bucket::join_bucket(b, &a));
    assert_eq!(
        Bucket::join_bucket(Bucket::join_bucket(a, &b), &c),
        Bucket::join_bucket(a, &Bucket::join_bucket(b, &c))
    );
}

#[test]
fn joint_aabb_of_shapes_joins_the_listed_boxes() {
    let shapes = [aabb(0, 0, 1, 1), aabb(10, 10, 11, 11), aabb(-4, 3, -2, 5)];
    assert_eq!(joint_aabb_of_shapes(&[0, 2], &shapes), aabb(-4, 0, 1, 5));
    assert_eq!(joint_aabb_of_shapes(&[1], &shapes), aabb(10, 10, 11, 11));
    assert_eq!(joint_aabb_of_shapes(&[2, 1, 0, 1], &shapes), aabb(-4, 0, 11, 11));
}

#[test]
fn joint_aabb_of_no_shapes_is_empty() {
    let shapes = [aabb(0, 0, 1, 1)];
    assert_eq!(joint_aabb_of_shapes(&[], &shapes), AABB::empty());
}
