//! What holds of every hierarchy that the builder makes, and of every walk
//! through one.
//!
//! A hierarchy is one that the builder makes over shapes with the boxes
//! `boxes` where its nodes are `hierarchy_nodes(boxes)`: that is what both
//! builders promise of their result.
use vstd::prelude::*;

use crate::aabb::{are_boxes_of, Bounded, AABB};
use crate::bvh2d::bvh2d_impl::{
    all_indices, hierarchy_nodes, lemma_subtree_len, lemma_subtree_of_one, lemma_subtree_of_parts,
    subtree_nodes, BVH2d, BVH2dNode,
};
use crate::bvh2d::layout::{
    boxes_sound_at, holds_subtree, lemma_hierarchy_holds_itself, lemma_leaf_shapes_concat,
    lemma_leaf_shapes_of_one, lemma_subtree_boxes_sound, lemma_subtree_children_within,
    lemma_subtree_halved, lemma_subtree_hits, lemma_subtree_leaves_at,
    lemma_subtree_leaves_below, lemma_subtree_node,
};
use crate::bvh2d::partition::{
    centers_coincide, lemma_coincident_centers_are_halved, lemma_parts_join_to_whole, partition,
};
use crate::bvh2d::tree::{
    children_within, halved_at, halving_height, height_at, leaf_shapes, leaves_at,
    lemma_halving_height_is_logarithm, shape_contains,
};
use crate::utils::{joint_aabb, lemma_joint_aabb_concat, lemma_joint_aabb_not_empty};
use crate::Point2;
use vstd::arithmetic::power2::pow2;

verus! {

/// The positions of `count` shapes are the numbers below `count`, each once.
pub proof fn lemma_all_indices(count: nat)
    requires
        count <= usize::MAX,
    ensures
        all_indices(count).no_duplicates(),
        forall|i: usize| all_indices(count).contains(i) <==> i < count,
        forall|i: usize| i < count ==> all_indices(count).to_multiset().count(i) == 1,
        forall|i: usize| i >= count ==> all_indices(count).to_multiset().count(i) == 0,
{
    broadcast use vstd::seq_lib::to_multiset_contains;

    let all = all_indices(count);
    assert forall|i: usize| all.contains(i) <==> i < count by {
        if i < count {
            assert(all[i as int] == i);
        }
    }
    all.lemma_multiset_has_no_duplicates();
    assert forall|i: usize| i < count implies all.to_multiset().count(i) == 1 by {
        assert(all.contains(i));
        assert(all.to_multiset().count(i) > 0);
    }
}

/// A hierarchy over one shape or more has `2n - 1` nodes, and is the tree
/// over all the shapes as it lies in the array from the root on.
pub proof fn lemma_hierarchy_is_a_tree(hierarchy: BVH2d, boxes: Seq<AABB>)
    requires
        hierarchy@ == hierarchy_nodes(boxes),
        boxes.len() >= 1,
    ensures
        hierarchy@.len() == 2 * boxes.len() - 1,
        boxes.len() <= usize::MAX,
        holds_subtree(hierarchy@, boxes, all_indices(boxes.len()), 0),
{
    hierarchy.lemma_len_fits();
    lemma_subtree_len(boxes, all_indices(boxes.len()), 0);
    lemma_hierarchy_holds_itself(boxes, all_indices(boxes.len()));
}

/// Every shape has its leaf. A hierarchy over `n >= 1` shapes has `2n - 1`
/// nodes, `n` of them leaves, and among the leaves every shape is named by
/// exactly one, and nothing else is named. The shapes that are reached from
/// the root are those of the leaves, in the order of the array.
pub proof fn lemma_every_shape_has_one_leaf(hierarchy: BVH2d, boxes: Seq<AABB>)
    requires
        hierarchy@ == hierarchy_nodes(boxes),
        boxes.len() >= 1,
    ensures
        hierarchy@.len() == 2 * boxes.len() - 1,
        leaf_shapes(hierarchy@).len() == boxes.len(),
        leaf_shapes(hierarchy@).no_duplicates(),
        forall|i: usize| i < boxes.len() ==> leaf_shapes(hierarchy@).to_multiset().count(i) == 1,
        forall|i: usize| i >= boxes.len() ==> leaf_shapes(hierarchy@).to_multiset().count(i) == 0,
        leaves_at(hierarchy@, 0) == leaf_shapes(hierarchy@),
{
    let nodes = hierarchy@;
    let all = all_indices(boxes.len());
    lemma_hierarchy_is_a_tree(hierarchy, boxes);
    lemma_subtree_leaves_at(nodes, boxes, all, 0);
    lemma_all_indices(boxes.len());
    vstd::seq_lib::to_multiset_len(leaf_shapes(nodes));
    vstd::seq_lib::to_multiset_len(all);
    leaf_shapes(nodes).lemma_multiset_has_no_duplicates_conv();
}

/// The boxes in the nodes are sound. Every node with children holds, for
/// each child, the joint box of the shapes that are reached from that child:
/// the least box that holds the boxes of them all. The two boxes of a node,
/// joined, are the joint box of all the shapes that are reached from it.
pub proof fn lemma_child_boxes_are_joint_boxes(hierarchy: BVH2d, boxes: Seq<AABB>, k: int)
    requires
        hierarchy@ == hierarchy_nodes(boxes),
        0 <= k < hierarchy@.len(),
    ensures
        boxes_sound_at(hierarchy@, boxes, k),
        (match hierarchy@[k] {
            BVH2dNode::Leaf { .. } => true,
            BVH2dNode::Node { child_l_aabb, child_r_aabb, .. } => child_l_aabb.spec_join(
                child_r_aabb,
            ) == joint_aabb(leaves_at(hierarchy@, k), boxes),
        }),
{
    let nodes = hierarchy@;
    let all = all_indices(boxes.len());
    if boxes.len() == 0 {
        reveal(crate::bvh2d::bvh2d_impl::subtree_nodes);
    } else {
        lemma_hierarchy_is_a_tree(hierarchy, boxes);
        lemma_subtree_boxes_sound(nodes, boxes, all, 0);
        lemma_subtree_children_within(nodes, boxes, all, 0);
        assert(boxes_sound_at(nodes, boxes, k));
        assert(children_within(nodes, k, nodes.len() as int));
        match nodes[k] {
            BVH2dNode::Leaf { .. } => {},
            BVH2dNode::Node { child_l_index, child_r_index, .. } => {
                lemma_joint_aabb_concat(
                    leaves_at(nodes, child_l_index as int),
                    leaves_at(nodes, child_r_index as int),
                    boxes,
                );
            },
        }
    }
}

/// No box in the nodes is empty unless a shape's box is. Where none of the
/// shapes has an empty box, every node with children holds for each child a
/// box that is not empty.
pub proof fn lemma_child_boxes_are_not_empty(hierarchy: BVH2d, boxes: Seq<AABB>, k: int)
    requires
        hierarchy@ == hierarchy_nodes(boxes),
        0 <= k < hierarchy@.len(),
        forall|i: int| 0 <= i < boxes.len() ==> !(#[trigger] boxes[i]).spec_is_empty(),
    ensures
        (match hierarchy@[k] {
            BVH2dNode::Leaf { .. } => true,
            BVH2dNode::Node { child_l_aabb, child_r_aabb, .. } => !child_l_aabb.spec_is_empty()
                && !child_r_aabb.spec_is_empty(),
        }),
{
    let nodes = hierarchy@;
    let all = all_indices(boxes.len());
    if boxes.len() == 0 {
        reveal(crate::bvh2d::bvh2d_impl::subtree_nodes);
    } else {
        lemma_hierarchy_is_a_tree(hierarchy, boxes);
        lemma_subtree_boxes_sound(nodes, boxes, all, 0);
        lemma_subtree_children_within(nodes, boxes, all, 0);
        lemma_subtree_leaves_below(nodes, boxes, all, 0);
        lemma_all_indices(boxes.len());
        match nodes[k] {
            BVH2dNode::Leaf { .. } => {},
            BVH2dNode::Node { child_l_index, child_r_index, .. } => {
                assert(boxes_sound_at(nodes, boxes, k));
                assert(children_within(nodes, k, nodes.len() as int));
                let l = leaves_at(nodes, child_l_index as int);
                let r = leaves_at(nodes, child_r_index as int);
                assert forall|j: int| 0 <= j < l.len() implies !boxes[
                    #[trigger] l[j] as int
                ].spec_is_empty() by {
                    assert(all.contains(l[j]));
                }
                assert forall|j: int| 0 <= j < r.len() implies !boxes[
                    #[trigger] r[j] as int
                ].spec_is_empty() by {
                    assert(all.contains(r[j]));
                }
                lemma_joint_aabb_not_empty(l, boxes);
                lemma_joint_aabb_not_empty(r, boxes);
            },
        }
    }
}

/// Of shapes that are listed once each, those kept are listed once each.
pub proof fn lemma_kept_without_duplicates(shapes: Seq<usize>, keep: spec_fn(usize) -> bool)
    requires
        shapes.no_duplicates(),
    ensures
        shapes.filter(keep).no_duplicates(),
    decreases shapes.len(),
{
    reveal(Seq::filter);
    if shapes.len() > 0 {
        let rest = shapes.drop_last();
        lemma_kept_without_duplicates(rest, keep);
        if keep(shapes.last()) {
            if rest.filter(keep).contains(shapes.last()) {
                rest.lemma_filter_contains_rev(keep, shapes.last());
                let at = choose|at: int| 0 <= at < rest.len() && rest[at] == shapes.last();
                assert(shapes[at] == shapes[shapes.len() - 1]);
            }
        }
    }
}

/// A walk finds what a scan of all the boxes finds. In a hierarchy over two
/// or more shapes, the walk for a point yields exactly the shapes whose box
/// holds the point, each of them once: those of the leaves, in the order of
/// the array, whose box holds the point.
///
/// A hierarchy over a single shape holds no box: see [`lemma_single_shape`].
pub proof fn lemma_walk_finds_containing_shapes(hierarchy: BVH2d, boxes: Seq<AABB>, point: Point2)
    requires
        hierarchy@ == hierarchy_nodes(boxes),
        boxes.len() >= 2,
    ensures
        hierarchy.hits(point) == leaf_shapes(hierarchy@).filter(shape_contains(boxes, point)),
        hierarchy.hits(point).no_duplicates(),
        forall|i: usize|
            hierarchy.hits(point).contains(i) <==> i < boxes.len() && boxes[i as int].contains(
                point,
            ),
{
    broadcast use vstd::seq_lib::to_multiset_contains;

    let nodes = hierarchy@;
    let all = all_indices(boxes.len());
    let leaves = leaf_shapes(nodes);
    let keep = shape_contains(boxes, point);
    let hits = hierarchy.hits(point);
    lemma_every_shape_has_one_leaf(hierarchy, boxes);
    lemma_hierarchy_is_a_tree(hierarchy, boxes);
    lemma_subtree_hits(nodes, boxes, all, 0, point);
    lemma_kept_without_duplicates(leaves, keep);
    assert forall|i: usize| hits.contains(i) <==> i < boxes.len() && boxes[i as int].contains(
        point,
    ) by {
        if hits.contains(i) {
            leaves.lemma_filter_contains_rev(keep, i);
            assert(leaves.to_multiset().count(i) > 0);
            let at = choose|at: int| 0 <= at < hits.len() && hits[at] == i;
            leaves.lemma_filter_pred(keep, at);
        }
        if i < boxes.len() && boxes[i as int].contains(point) {
            assert(leaves.to_multiset().count(i) > 0);
            assert(leaves.contains(i));
            let at = choose|at: int| 0 <= at < leaves.len() && leaves[at] == i;
            leaves.lemma_filter_contains(keep, at);
        }
    }
}

/// A hierarchy over a single shape is a single leaf, and the walk for any
/// point yields that shape: no box stands before the root, so the walk
/// enters it whether or not the shape's box holds the point.
pub proof fn lemma_single_shape(hierarchy: BVH2d, boxes: Seq<AABB>, point: Point2)
    requires
        hierarchy@ == hierarchy_nodes(boxes),
        boxes.len() == 1,
    ensures
        hierarchy@ == seq![BVH2dNode::Leaf { shape_index: 0 }],
        hierarchy.hits(point) == seq![0usize],
{
    lemma_subtree_of_one(boxes, all_indices(1), 0);
}

/// Shapes whose centers all coincide still get a tree, and a balanced one.
/// Every node has half of the shapes below it, rounded down, below its left
/// child and the others below its right child. The leaves name the shapes in
/// their own order. The tree is as high as the logarithm of the number of
/// shapes to the base two, rounded up.
pub proof fn lemma_coincident_centers_give_halved_tree(hierarchy: BVH2d, boxes: Seq<AABB>)
    requires
        hierarchy@ == hierarchy_nodes(boxes),
        boxes.len() >= 1,
        forall|i: int|
            0 <= i < boxes.len() ==> (#[trigger] boxes[i]).spec_center() == boxes[0].spec_center(),
    ensures
        hierarchy@.len() == 2 * boxes.len() - 1,
        leaf_shapes(hierarchy@) == all_indices(boxes.len()),
        forall|k: int| 0 <= k < hierarchy@.len() ==> #[trigger] halved_at(hierarchy@, k),
        height_at(hierarchy@, 0) == halving_height(boxes.len()),
        boxes.len() <= pow2(height_at(hierarchy@, 0)),
        boxes.len() >= 2 ==> pow2((height_at(hierarchy@, 0) - 1) as nat) < boxes.len(),
{
    let all = all_indices(boxes.len());
    lemma_hierarchy_is_a_tree(hierarchy, boxes);
    lemma_every_shape_has_one_leaf(hierarchy, boxes);
    assert(centers_coincide(all, boxes));
    lemma_subtree_halved(hierarchy@, boxes, all, 0);
    lemma_halving_height_is_logarithm(boxes.len());
}

/// Building twice gives the same. Two hierarchies that the builder made over
/// shapes that have the same boxes, and each shape no other box than its
/// one, have the same nodes, and their walks yield the same for every point.
pub proof fn lemma_same_boxes_same_nodes<First: Bounded, Second: Bounded>(
    first: BVH2d,
    first_shapes: Seq<First>,
    second: BVH2d,
    second_shapes: Seq<Second>,
    point: Point2,
)
    requires
        exists|boxes: Seq<AABB>|
            are_boxes_of(boxes, first_shapes) && first@ == #[trigger] hierarchy_nodes(boxes),
        exists|boxes: Seq<AABB>|
            are_boxes_of(boxes, second_shapes) && second@ == #[trigger] hierarchy_nodes(boxes),
        forall|a: Seq<AABB>, b: Seq<AABB>|
            #[trigger] are_boxes_of(a, first_shapes) && #[trigger] are_boxes_of(b, second_shapes)
                ==> a == b,
    ensures
        first@ == second@,
        first.hits(point) == second.hits(point),
{
    let a = choose|boxes: Seq<AABB>|
        are_boxes_of(boxes, first_shapes) && first@ == #[trigger] hierarchy_nodes(boxes);
    let b = choose|boxes: Seq<AABB>|
        are_boxes_of(boxes, second_shapes) && second@ == #[trigger] hierarchy_nodes(boxes);
    assert(a == b);
}

/// The root of a tree that the builder appends to an array, over two or more
/// shapes, holds for each child the joint box of the shapes that are reached
/// from the child, and the two boxes, joined, are the joint box of all the
/// shapes of the tree.
pub proof fn lemma_subtree_root_boxes(
    nodes: Seq<BVH2dNode>,
    boxes: Seq<AABB>,
    indices: Seq<usize>,
    base: int,
)
    requires
        holds_subtree(nodes, boxes, indices, base),
        indices.len() >= 2,
    ensures
        (match nodes[base] {
            BVH2dNode::Leaf { .. } => false,
            BVH2dNode::Node { child_l_index, child_l_aabb, child_r_index, child_r_aabb } => {
                &&& child_l_aabb == joint_aabb(leaves_at(nodes, child_l_index as int), boxes)
                &&& child_r_aabb == joint_aabb(leaves_at(nodes, child_r_index as int), boxes)
                &&& child_l_aabb.spec_join(child_r_aabb) == joint_aabb(indices, boxes)
            },
        }),
{
    lemma_subtree_node(nodes, boxes, indices, base);
    lemma_subtree_boxes_sound(nodes, boxes, indices, base);
    assert(boxes_sound_at(nodes, boxes, base));
    lemma_parts_join_to_whole(indices, boxes);
}

/// The leaves of a tree that the builder appends to an array, over shapes
/// whose centers coincide, name the shapes
/// in the order in which they are listed.
pub proof fn lemma_coincident_leaf_shapes(boxes: Seq<AABB>, indices: Seq<usize>, base: int)
    requires
        indices.len() >= 1,
        centers_coincide(indices, boxes),
    ensures
        leaf_shapes(subtree_nodes(boxes, indices, base)) == indices,
    decreases indices.len(),
{
    if indices.len() == 1 {
        lemma_subtree_of_one(boxes, indices, base);
        lemma_leaf_shapes_of_one(BVH2dNode::Leaf { shape_index: indices[0] });
        assert(indices == seq![indices[0]]);
    } else {
        let parts = partition(indices, boxes);
        let mid = indices.len() as int / 2;
        lemma_coincident_centers_are_halved(indices, boxes);
        lemma_subtree_of_parts(boxes, indices, base);
        let left = subtree_nodes(boxes, parts.left, base + 1);
        let right = subtree_nodes(boxes, parts.right, base + 2 * parts.left.len());
        let root = subtree_nodes(boxes, indices, base).take(1);
        assert(subtree_nodes(boxes, indices, base) == root + left + right);
        lemma_coincident_leaf_shapes(boxes, parts.left, base + 1);
        lemma_coincident_leaf_shapes(boxes, parts.right, base + 2 * parts.left.len());
        lemma_leaf_shapes_concat(root + left, right);
        lemma_leaf_shapes_concat(root, left);
        assert(root == seq![subtree_nodes(boxes, indices, base)[0]]);
        lemma_leaf_shapes_of_one(subtree_nodes(boxes, indices, base)[0]);
        assert(leaf_shapes(root) + leaf_shapes(left) == leaf_shapes(left));
        assert(indices.take(mid) + indices.skip(mid) == indices);
    }
}

} // verus!
