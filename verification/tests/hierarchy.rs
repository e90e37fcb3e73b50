use bvh2d::aabb::{Bounded, AABB};
use bvh2d::bsh::{BSHNode, BSHTraverseIterator, BSH};
use bvh2d::bvh2d::{BVH2d, BVH2dNode, BVH2dTraverseIterator};
use bvh2d::Point2;

/// A square with sides of one unit, on a grid of tenths of a unit.
struct UnitSquare {
    center_x: i32,
    center_y: i32,
}

impl Bounded for UnitSquare {
    fn aabb(&self) -> AABB {
        aabb(
            self.center_x * 10 - 5,
            self.center_y * 10 - 5,
            self.center_x * 10 + 5,
            self.center_y * 10 + 5,
        )
    }
}

fn aabb(min_x: i32, min_y: i32, max_x: i32, max_y: i32) -> AABB {
    AABB::with_bounds(Point2 { x: min_x, y: min_y }, Point2 { x: max_x, y: max_y })
}

fn leaf(shape_index: usize) -> BVH2dNode {
    BVH2dNode::Leaf { shape_index }
}

fn node(child_l_index: usize, child_l_aabb: AABB, child_r_index: usize, child_r_aabb: AABB) -> BVH2dNode {
    BVH2dNode::Node { child_l_index, child_l_aabb, child_r_index, child_r_aabb }
}

fn query(hierarchy: &BVH2d, x: i32, y: i32) -> Vec<usize> {
    let point = Point2 { x, y };
    let mut walk = hierarchy.contains_iterator(&point);
    let mut found = Vec::new();
    while let Some(shape_index) = walk.next() {
        found.push(shape_index);
    }
    assert_eq!(walk.next(), None);
    found
}

fn scan(boxes: &[AABB], x: i32, y: i32) -> Vec<usize> {
    let point = Point2 { x, y };
    (0..boxes.len()).filter(|i| point.contained_by(&boxes[*i])).collect()
}

/// The shapes of the leaves below the node at `k`.
fn shapes_below(nodes: &[BVH2dNode], k: usize) -> Vec<usize> {
    match nodes[k] {
        BVH2dNode::Leaf { shape_index } => vec![shape_index],
        BVH2dNode::Node { child_l_index, child_r_index, .. } => {
            let mut all = shapes_below(nodes, child_l_index);
            all.extend(shapes_below(nodes, child_r_index));
            all
        }
    }
}

fn height(nodes: &[BVH2dNode], k: usize) -> usize {
    match nodes[k] {
        BVH2dNode::Leaf { .. } => 0,
        BVH2dNode::Node { child_l_index, child_r_index, .. } => {
            1 + height(nodes, child_l_index).max(height(nodes, child_r_index))
        }
    }
}

fn union_of(boxes: &[AABB], shapes: &[usize]) -> AABB {
    let mut all = AABB::empty();
    for i in shapes {
        all = all.join(&boxes[*i]);
    }
    all
}

/// Boxes from a fixed sequence of numbers: spread over a few hundred cells,
/// some of them without area, some of them on top of each other.
fn scattered(count: usize, seed: u64) -> Vec<AABB> {
    let mut state = seed;
    let mut step = |bound: u64| {
        state = state.wrapping_mul(6364136223846793005).wrapping_add(1442695040888963407);
        ((state >> 33) % bound) as i32
    };
    let mut boxes = Vec::new();
    for _ in 0..count {
        let x = step(400) - 200;
        let y = step(400) - 200;
        let w = step(40);
        let h = step(40);
        boxes.push(aabb(x, y, x + w, y + h));
    }
    boxes
}

fn assert_hierarchy_is_sound(boxes: &[AABB]) {
    let hierarchy = BVH2d::build_from_aabbs(boxes);
    let nodes = hierarchy.nodes();
    let n = boxes.len();
    assert_eq!(nodes.len(), 2 * n - 1);
    let leaves = nodes.iter().filter(|node| matches!(node, BVH2dNode::Leaf { .. })).count();
    assert_eq!(leaves, n);
    let mut below_root = shapes_below(nodes, 0);
    below_root.sort();
    assert_eq!(below_root, (0..n).collect::<Vec<usize>>());
    for k in 0..nodes.len() {
        if let BVH2dNode::Node { child_l_index, child_l_aabb, child_r_index, child_r_aabb } = nodes[k] {
            assert!(k < child_l_index && child_l_index < nodes.len());
            assert!(k < child_r_index && child_r_index < nodes.len());
            assert_eq!(child_l_aabb, union_of(boxes, &shapes_below(nodes, child_l_index)));
            assert_eq!(child_r_aabb, union_of(boxes, &shapes_below(nodes, child_r_index)));
        }
    }
}

fn four_squares() -> Vec<UnitSquare> {
    vec![
        UnitSquare { center_x: 0, center_y: 0 },
        UnitSquare { center_x: 10, center_y: 0 },
        UnitSquare { center_x: 0, center_y: 10 },
        UnitSquare { center_x: 10, center_y: 10 },
    ]
}

#[test]
fn four_unit_squares_are_found_by_the_points_inside_them() {
    let hierarchy = BVH2d::build(&four_squares());
    assert_eq!(query(&hierarchy, 5, 5), vec![0]);
    assert_eq!(query(&hierarchy, 102, 98), vec![3]);
    assert_eq!(query(&hierarchy, 50, 50), Vec::<usize>::new());
}

#[test]
fn four_unit_squares_lie_in_the_array_root_first() {
    let hierarchy = BVH2d::build(&four_squares());
    assert_eq!(
        hierarchy.nodes(),
        &vec![
            node(1, aabb(-5, -5, 105, 5), 4, aabb(-5, 95, 105, 105)),
            node(2, aabb(-5, -5, 5, 5), 3, aabb(95, -5, 105, 5)),
            leaf(0),
            leaf(1),
            node(5, aabb(-5, 95, 5, 105), 6, aabb(95, 95, 105, 105)),
            leaf(2),
            leaf(3),
        ]
    );
}

#[test]
fn build_asks_each_shape_for_its_box_and_builds_from_the_boxes() {
    let shapes = four_squares();
    let boxes: Vec<AABB> = shapes.iter().map(|shape| shape.aabb()).collect();
    assert_eq!(BVH2d::build(&shapes).nodes(), BVH2d::build_from_aabbs(&boxes).nodes());
    assert_eq!(BVH2d::build(&boxes).nodes(), BVH2d::build_from_aabbs(&boxes).nodes());
}

#[test]
fn no_shapes_give_no_nodes() {
    let none: [AABB; 0] = [];
    assert!(BVH2d::build(&none).nodes().is_empty());
    assert!(BVH2d::build_from_aabbs(&none).nodes().is_empty());
}

#[test]
fn single_shape_is_a_leaf_at_the_root() {
    let hierarchy = BVH2d::build(&[UnitSquare { center_x: 3, center_y: 4 }]);
    assert_eq!(hierarchy.nodes(), &vec![leaf(0)]);
    assert_eq!(query(&hierarchy, 30, 40), vec![0]);
    assert_eq!(query(&hierarchy, 25, 45), vec![0]);
}

#[test]
fn single_shape_is_yielded_for_every_point() {
    // No box stands before the root, so a walk always enters it.
    let hierarchy = BVH2d::build(&[UnitSquare { center_x: 3, center_y: 4 }]);
    assert_eq!(query(&hierarchy, 36, 40), vec![0]);
    assert_eq!(query(&hierarchy, -1000, 1000), vec![0]);
}

#[test]
fn two_shapes_are_told_apart() {
    let boxes = [aabb(0, 0, 10, 10), aabb(5, 5, 20, 20)];
    let hierarchy = BVH2d::build_from_aabbs(&boxes);
    assert_eq!(
        hierarchy.nodes(),
        &vec![node(1, boxes[0], 2, boxes[1]), leaf(0), leaf(1)]
    );
    assert_eq!(query(&hierarchy, 1, 1), vec![0]);
    assert_eq!(query(&hierarchy, 7, 7), vec![0, 1]);
    assert_eq!(query(&hierarchy, 15, 15), vec![1]);
    assert_eq!(query(&hierarchy, 21, 21), Vec::<usize>::new());
}

#[test]
fn shapes_are_divided_at_the_cheapest_boundary() {
    // Centers at 1000, 0 and 300 along x: the buckets are [1], [2], [], [0],
    // and dividing after the second bucket is cheapest.
    let boxes = [aabb(999, -1, 1001, 1), aabb(-1, -1, 1, 1), aabb(299, -1, 301, 1)];
    let hierarchy = BVH2d::build_from_aabbs(&boxes);
    assert_eq!(
        hierarchy.nodes(),
        &vec![
            node(1, aabb(-1, -1, 301, 1), 4, boxes[0]),
            node(2, boxes[1], 3, boxes[2]),
            leaf(1),
            leaf(2),
            leaf(0),
        ]
    );
}

#[test]
fn every_shape_has_one_leaf() {
    for (count, seed) in [(1, 1), (2, 2), (3, 3), (7, 4), (64, 5), (257, 6)] {
        let boxes = scattered(count, seed);
        let hierarchy = BVH2d::build_from_aabbs(&boxes);
        let nodes = hierarchy.nodes();
        assert_eq!(nodes.len(), 2 * count - 1);
        let mut shapes: Vec<usize> = nodes
            .iter()
            .filter_map(|node| match node {
                BVH2dNode::Leaf { shape_index } => Some(*shape_index),
                BVH2dNode::Node { .. } => None,
            })
            .collect();
        assert_eq!(shapes, shapes_below(nodes, 0));
        shapes.sort();
        assert_eq!(shapes, (0..count).collect::<Vec<usize>>());
    }
}

#[test]
fn child_boxes_are_the_joint_boxes_of_the_shapes_below() {
    for (count, seed) in [(2, 7), (3, 8), (10, 9), (100, 10), (333, 11)] {
        assert_hierarchy_is_sound(&scattered(count, seed));
    }
}

#[test]
fn walk_finds_what_a_scan_finds() {
    for (count, seed) in [(2, 12), (3, 13), (10, 14), (100, 15), (333, 16)] {
        let boxes = scattered(count, seed);
        let hierarchy = BVH2d::build_from_aabbs(&boxes);
        let mut x = -210;
        while x <= 250 {
            let mut y = -210;
            while y <= 250 {
                let mut found = query(&hierarchy, x, y);
                found.sort();
                assert_eq!(found, scan(&boxes, x, y));
                y += 7;
            }
            x += 7;
        }
    }
}

#[test]
fn walk_finds_shapes_on_their_faces_and_corners() {
    let boxes = scattered(50, 17);
    let hierarchy = BVH2d::build_from_aabbs(&boxes);
    for (i, b) in boxes.iter().enumerate() {
        for (x, y) in [
            (b.min.x, b.min.y),
            (b.min.x, b.max.y),
            (b.max.x, b.min.y),
            (b.max.x, b.max.y),
            (b.min.x - 1, b.min.y),
            (b.max.x, b.max.y + 1),
        ] {
            let mut found = query(&hierarchy, x, y);
            found.sort();
            assert_eq!(found, scan(&boxes, x, y));
            assert_eq!(found.contains(&i), Point2 { x, y }.contained_by(b));
        }
    }
}

#[test]
fn walk_yields_in_the_order_of_the_leaves() {
    let boxes = scattered(100, 18);
    let hierarchy = BVH2d::build_from_aabbs(&boxes);
    let leaves = shapes_below(hierarchy.nodes(), 0);
    let mut most = 0;
    let mut x = -200;
    while x <= 240 {
        let mut y = -200;
        while y <= 240 {
            let point = Point2 { x, y };
            let expected: Vec<usize> =
                leaves.iter().copied().filter(|i| point.contained_by(&boxes[*i])).collect();
            most = most.max(expected.len());
            assert_eq!(query(&hierarchy, x, y), expected);
            y += 5;
        }
        x += 5;
    }
    assert!(most >= 3);
}

#[test]
fn coinciding_centers_are_divided_in_the_middle() {
    let boxes = [aabb(-1, -1, 1, 1), aabb(-4, -2, 4, 2), aabb(0, 0, 0, 0), aabb(-9, -9, 9, 9), aabb(-3, -7, 3, 7)];
    let hierarchy = BVH2d::build_from_aabbs(&boxes);
    assert_eq!(
        hierarchy.nodes(),
        &vec![
            node(1, aabb(-4, -2, 4, 2), 4, aabb(-9, -9, 9, 9)),
            node(2, boxes[0], 3, boxes[1]),
            leaf(0),
            leaf(1),
            node(5, boxes[2], 6, aabb(-9, -9, 9, 9)),
            leaf(2),
            node(7, boxes[3], 8, boxes[4]),
            leaf(3),
            leaf(4),
        ]
    );
    assert_hierarchy_is_sound(&boxes);
    assert_eq!(query(&hierarchy, 0, 0), vec![0, 1, 2, 3, 4]);
    assert_eq!(query(&hierarchy, 3, 2), vec![1, 3, 4]);
    assert_eq!(query(&hierarchy, 9, 9), vec![3]);
    assert_eq!(query(&hierarchy, 10, 0), Vec::<usize>::new());
}

#[test]
fn identical_shapes_give_a_balanced_tree() {
    for (count, expected_height) in
        [(1, 0), (2, 1), (3, 2), (8, 3), (9, 4), (1000, 10), (1024, 10), (1025, 11)]
    {
        let boxes = vec![aabb(3, 3, 8, 8); count];
        let hierarchy = BVH2d::build_from_aabbs(&boxes);
        let nodes = hierarchy.nodes();
        assert_eq!(height(nodes, 0), expected_height);
        assert_eq!(shapes_below(nodes, 0), (0..count).collect::<Vec<usize>>());
        for k in 0..nodes.len() {
            if let BVH2dNode::Node { child_l_index, child_r_index, .. } = nodes[k] {
                let all = shapes_below(nodes, k).len();
                assert_eq!(shapes_below(nodes, child_l_index).len(), all / 2);
                assert_eq!(shapes_below(nodes, child_r_index).len(), all - all / 2);
            }
        }
    }
}

#[test]
fn identical_shapes_are_all_found_or_none() {
    for (count, expected_height) in [(2, 1), (8, 3), (9, 4), (1000, 10), (1024, 10)] {
        let boxes = vec![aabb(3, 3, 8, 8); count];
        let hierarchy = BVH2d::build_from_aabbs(&boxes);
        assert_hierarchy_is_sound(&boxes);
        assert_eq!(height(hierarchy.nodes(), 0), expected_height);
        assert_eq!(query(&hierarchy, 5, 5), (0..count).collect::<Vec<usize>>());
        assert_eq!(query(&hierarchy, 9, 5), Vec::<usize>::new());
    }
}

#[test]
fn shapes_in_a_row_without_area_are_divided() {
    let boxes: Vec<AABB> = (0..20).map(|i| aabb(i * 3, 0, i * 3, 0)).collect();
    assert_hierarchy_is_sound(&boxes);
    let hierarchy = BVH2d::build_from_aabbs(&boxes);
    assert_eq!(query(&hierarchy, 12, 0), vec![4]);
    assert_eq!(query(&hierarchy, 13, 0), Vec::<usize>::new());
}

#[test]
fn shapes_at_the_ends_of_the_plane_are_divided() {
    let boxes = [
        aabb(i32::MIN, i32::MIN, i32::MIN + 2, i32::MIN + 2),
        aabb(i32::MAX - 2, i32::MAX - 2, i32::MAX, i32::MAX),
        aabb(i32::MIN, i32::MIN, i32::MAX, i32::MAX),
        aabb(-1, -1, 1, 1),
    ];
    assert_hierarchy_is_sound(&boxes);
    let hierarchy = BVH2d::build_from_aabbs(&boxes);
    assert_eq!(query(&hierarchy, i32::MIN, i32::MIN), vec![0, 2]);
    assert_eq!(query(&hierarchy, i32::MAX, i32::MAX), vec![2, 1]);
    assert_eq!(query(&hierarchy, 0, 0), vec![2, 3]);
}

#[test]
fn building_twice_gives_the_same_nodes() {
    for (count, seed) in [(1, 19), (5, 20), (200, 21)] {
        let boxes = scattered(count, seed);
        let first = BVH2d::build_from_aabbs(&boxes);
        let second = BVH2d::build_from_aabbs(&boxes);
        assert_eq!(first.nodes(), second.nodes());
    }
}

#[test]
fn a_clone_has_the_same_nodes() {
    let hierarchy = BVH2d::build_from_aabbs(&scattered(30, 22));
    assert_eq!(hierarchy.clone().nodes(), hierarchy.nodes());
}

#[test]
fn each_walk_starts_anew() {
    let boxes = scattered(100, 23);
    let hierarchy = BVH2d::build_from_aabbs(&boxes);
    let here = Point2 { x: 10, y: 10 };
    let there = Point2 { x: -50, y: 60 };
    let mut first: BVH2dTraverseIterator = hierarchy.contains_iterator(&here);
    let mut second: BVH2dTraverseIterator = hierarchy.contains_iterator(&there);
    let mut found_here = Vec::new();
    let mut found_there = Vec::new();
    loop {
        let a = first.next();
        let b = second.next();
        found_here.extend(a);
        found_there.extend(b);
        if a.is_none() && b.is_none() {
            break;
        }
    }
    assert_eq!(found_here, query(&hierarchy, 10, 10));
    assert_eq!(found_there, query(&hierarchy, -50, 60));
}

#[test]
fn a_tree_as_high_as_it_can_be_is_walked_to_its_end() {
    // Each shape lies five times as far out as the one before, so each
    // division parts the outermost shape from all the others.
    let mut boxes = Vec::new();
    let mut x: i32 = 1;
    for _ in 0..14 {
        boxes.push(aabb(x, 0, x, 0));
        x *= 5;
    }
    let hierarchy = BVH2d::build_from_aabbs(&boxes);
    assert_hierarchy_is_sound(&boxes);
    assert_eq!(height(hierarchy.nodes(), 0), 13);
    assert_eq!(query(&hierarchy, 1, 0), vec![0]);
    assert_eq!(query(&hierarchy, 5, 0), vec![1]);
    assert_eq!(query(&hierarchy, 1220703125, 0), vec![13]);
    assert_eq!(query(&hierarchy, 2, 0), Vec::<usize>::new());
}

#[test]
fn the_hierarchy_goes_by_its_shorter_name_too() {
    let boxes = [aabb(0, 0, 10, 10), aabb(5, 5, 20, 20)];
    let hierarchy: BSH = BSH::build_from_aabbs(&boxes);
    let root: BSHNode = hierarchy.nodes()[0];
    assert_eq!(root, node(1, boxes[0], 2, boxes[1]));
    let point = Point2 { x: 15, y: 15 };
    let mut walk: BSHTraverseIterator = hierarchy.contains_iterator(&point);
    assert_eq!(walk.next(), Some(1));
    assert_eq!(walk.next(), None);
}

#[test]
fn node_builder_appends_behind_what_is_there() {
    let boxes = [aabb(0, 0, 10, 10), aabb(5, 5, 20, 20)];
    let mut nodes = vec![leaf(7), leaf(8)];
    let root = BVH2dNode::build(&boxes, &[1, 0], &mut nodes);
    assert_eq!(root, 2);
    assert_eq!(
        nodes,
        vec![leaf(7), leaf(8), node(3, boxes[0], 4, boxes[1]), leaf(0), leaf(1)]
    );
}

#[test]
fn node_builder_makes_a_leaf_of_a_single_shape() {
    let boxes = [aabb(0, 0, 10, 10), aabb(5, 5, 20, 20)];
    let mut nodes = Vec::new();
    assert_eq!(BVH2dNode::build(&boxes, &[1], &mut nodes), 0);
    assert_eq!(nodes, vec![leaf(1)]);
}

#[test]
fn node_builder_takes_a_shape_as_often_as_it_is_listed() {
    let boxes = [aabb(0, 0, 10, 10), aabb(50, 5, 60, 20)];
    let mut nodes = Vec::new();
    BVH2dNode::build(&boxes, &[0, 1, 0], &mut nodes);
    assert_eq!(
        nodes,
        vec![
            node(1, boxes[0], 4, boxes[1]),
            node(2, boxes[0], 3, boxes[0]),
            leaf(0),
            leaf(0),
            leaf(1),
        ]
    );
}

#[test]
fn no_child_box_is_empty() {
    for (count, seed) in [(2, 24), (50, 25), (300, 26)] {
        let hierarchy = BVH2d::build_from_aabbs(&scattered(count, seed));
        for node in hierarchy.nodes() {
            if let BVH2dNode::Node { child_l_aabb, child_r_aabb, .. } = node {
                assert!(!child_l_aabb.is_empty());
                assert!(!child_r_aabb.is_empty());
            }
        }
    }
}

#[test]
fn the_two_boxes_of_a_node_join_to_the_box_of_all_below() {
    let boxes = scattered(120, 27);
    let hierarchy = BVH2d::build_from_aabbs(&boxes);
    let nodes = hierarchy.nodes();
    for k in 0..nodes.len() {
        if let BVH2dNode::Node { child_l_aabb, child_r_aabb, .. } = nodes[k] {
            assert_eq!(child_l_aabb.join(&child_r_aabb), union_of(&boxes, &shapes_below(nodes, k)));
        }
    }
}

#[test]
fn a_walk_that_is_over_stays_over() {
    let boxes = [aabb(0, 0, 10, 10), aabb(5, 5, 20, 20)];
    let hierarchy = BVH2d::build_from_aabbs(&boxes);
    let point = Point2 { x: 7, y: 7 };
    let mut walk = hierarchy.contains_iterator(&point);
    assert_eq!(walk.next(), Some(0));
    assert_eq!(walk.next(), Some(1));
    for _ in 0..5 {
        assert_eq!(walk.next(), None);
    }
}

#[test]
fn shapes_with_the_same_boxes_give_the_same_nodes() {
    let squares = four_squares();
    let boxes: Vec<AABB> = squares.iter().map(|square| square.aabb()).collect();
    assert_eq!(BVH2d::build(&squares).nodes(), BVH2d::build(&boxes).nodes());
    assert_eq!(BVH2d::build(&squares).nodes(), BVH2d::build(&four_squares()).nodes());
}
