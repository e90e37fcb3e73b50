//! How a tree lies in the array of nodes, and what follows from it for the
//! nodes of a tree that the builder made.
use vstd::prelude::*;

use crate::aabb::AABB;
use crate::bvh2d::bvh2d_impl::{
    all_indices, hierarchy_nodes, lemma_subtree_of_one, lemma_subtree_of_parts, subtree_nodes,
    BVH2dNode,
};
use crate::bvh2d::partition::{
    centers_coincide, divides, lemma_coincident_centers_are_halved, lemma_divides_parts,
    lemma_partition_divides, partition,
};
use crate::bvh2d::tree::{
    children_follow, children_within, halved_at, halving_height, height_at, hits_at, hits_below,
    leaf_shapes, leaves_at, lemma_halving_height_grows, shape_contains,
};
use crate::utils::{
    joint_aabb, lemma_joint_aabb_contains, lemma_joint_aabb_permutation, lemma_joint_aabb_single,
};
use crate::Point2;
use vstd::seq_lib::lemma_multiset_commutative;

verus! {

/// Whether the tree over the shapes at `indices` lies in the array from
/// position `base` on.
pub open spec fn holds_subtree(
    nodes: Seq<BVH2dNode>,
    boxes: Seq<AABB>,
    indices: Seq<usize>,
    base: int,
) -> bool {
    &&& indices.len() >= 1
    &&& 0 <= base
    &&& base + 2 * indices.len() - 1 <= nodes.len() <= usize::MAX
    &&& nodes.subrange(base, base + 2 * indices.len() - 1) == subtree_nodes(boxes, indices, base)
}

/// Where the tree over one shape lies, a leaf that names the shape lies.
pub proof fn lemma_subtree_leaf(
    nodes: Seq<BVH2dNode>,
    boxes: Seq<AABB>,
    indices: Seq<usize>,
    base: int,
)
    requires
        holds_subtree(nodes, boxes, indices, base),
        indices.len() == 1,
    ensures
        nodes[base] == (BVH2dNode::Leaf { shape_index: indices[0] }),
{
    lemma_subtree_of_one(boxes, indices, base);
    assert(nodes[base] == nodes.subrange(base, base + 1)[0]);
}

/// Where the tree over two or more shapes lies, a node lies that holds the
/// boxes of the two parts, followed by the tree over the one part and then by
/// the tree over the other.
pub proof fn lemma_subtree_node(
    nodes: Seq<BVH2dNode>,
    boxes: Seq<AABB>,
    indices: Seq<usize>,
    base: int,
)
    requires
        holds_subtree(nodes, boxes, indices, base),
        indices.len() >= 2,
    ensures
        ({
            let parts = partition(indices, boxes);
            let right_base = base + 2 * parts.left.len();
            &&& divides(parts, indices, boxes)
            &&& parts.left.len() + parts.right.len() == indices.len()
            &&& nodes[base] == (BVH2dNode::Node {
                child_l_index: (base + 1) as usize,
                child_l_aabb: parts.left_aabb,
                child_r_index: right_base as usize,
                child_r_aabb: parts.right_aabb,
            })
            &&& holds_subtree(nodes, boxes, parts.left, base + 1)
            &&& holds_subtree(nodes, boxes, parts.right, right_base)
        }),
{
    let parts = partition(indices, boxes);
    let right_base = base + 2 * parts.left.len();
    let end = base + 2 * indices.len() - 1;
    lemma_partition_divides(indices, boxes);
    lemma_divides_parts(parts, indices, boxes);
    lemma_subtree_of_parts(boxes, indices, base);
    let whole = subtree_nodes(boxes, indices, base);
    let left = subtree_nodes(boxes, parts.left, base + 1);
    let right = subtree_nodes(boxes, parts.right, right_base);
    assert(nodes[base] == nodes.subrange(base, end)[0]);
    assert(nodes.subrange(base + 1, right_base) =~= left) by {
        assert forall|j: int| 0 <= j < left.len() implies nodes.subrange(base + 1, right_base)[j]
            == left[j] by {
            assert(nodes[base + 1 + j] == nodes.subrange(base, end)[1 + j]);
        }
    }
    assert(nodes.subrange(right_base, end) =~= right) by {
        assert forall|j: int| 0 <= j < right.len() implies nodes.subrange(right_base, end)[j]
            == right[j] by {
            assert(nodes[right_base + j] == nodes.subrange(base, end)[1 + left.len() + j]);
        }
    }
}

/// In a tree that lies in the array, every node's children lie behind it and
/// within the tree.
pub proof fn lemma_subtree_children_within(
    nodes: Seq<BVH2dNode>,
    boxes: Seq<AABB>,
    indices: Seq<usize>,
    base: int,
)
    requires
        holds_subtree(nodes, boxes, indices, base),
    ensures
        forall|k: int|
            base <= k < base + 2 * indices.len() - 1 ==> #[trigger] children_within(
                nodes,
                k,
                base + 2 * indices.len() - 1,
            ),
    decreases indices.len(),
{
    let end = base + 2 * indices.len() - 1;
    if indices.len() == 1 {
        lemma_subtree_leaf(nodes, boxes, indices, base);
    } else {
        let parts = partition(indices, boxes);
        let right_base = base + 2 * parts.left.len();
        lemma_subtree_node(nodes, boxes, indices, base);
        lemma_subtree_children_within(nodes, boxes, parts.left, base + 1);
        lemma_subtree_children_within(nodes, boxes, parts.right, right_base);
        assert forall|k: int| base <= k < end implies #[trigger] children_within(nodes, k, end) by {
            if k == base {
            } else if k < right_base {
                assert(children_within(nodes, k, right_base));
            } else {
                assert(children_within(nodes, k, end));
            }
        }
    }
}

/// Where the nodes of the tree over the given shapes were appended to an
/// array, the tree lies in the array from the old end on.
pub proof fn lemma_subtree_appended(
    before: Seq<BVH2dNode>,
    boxes: Seq<AABB>,
    indices: Seq<usize>,
)
    requires
        indices.len() >= 1,
        before.len() + 2 * indices.len() - 1 <= usize::MAX,
    ensures
        holds_subtree(
            before + subtree_nodes(boxes, indices, before.len() as int),
            boxes,
            indices,
            before.len() as int,
        ),
{
    let tree = subtree_nodes(boxes, indices, before.len() as int);
    crate::bvh2d::bvh2d_impl::lemma_subtree_len(boxes, indices, before.len() as int);
    assert((before + tree).subrange(before.len() as int, before.len() + tree.len() as int) == tree);
}

/// The tree over the given shapes lies at the start of its own array.
pub proof fn lemma_hierarchy_holds_itself(boxes: Seq<AABB>, indices: Seq<usize>)
    requires
        indices.len() >= 1,
        2 * indices.len() - 1 <= usize::MAX,
    ensures
        holds_subtree(subtree_nodes(boxes, indices, 0), boxes, indices, 0),
{
    let nodes = subtree_nodes(boxes, indices, 0);
    crate::bvh2d::bvh2d_impl::lemma_subtree_len(boxes, indices, 0);
    assert(nodes.subrange(0, nodes.len() as int) == nodes);
}

/// In a hierarchy, every node's children lie behind it in the array.
pub proof fn lemma_hierarchy_children_follow(boxes: Seq<AABB>)
    requires
        2 * boxes.len() <= usize::MAX + 1,
    ensures
        children_follow(hierarchy_nodes(boxes)),
{
    let nodes = hierarchy_nodes(boxes);
    if boxes.len() == 0 {
        reveal(subtree_nodes);
    } else {
        crate::bvh2d::bvh2d_impl::lemma_subtree_len(boxes, all_indices(boxes.len()), 0);
        lemma_hierarchy_holds_itself(boxes, all_indices(boxes.len()));
        lemma_subtree_children_within(nodes, boxes, all_indices(boxes.len()), 0);
    }
}

/// Whether the boxes that the node at `k` holds for its children, if it has
/// any, are the joint boxes of the shapes reached from them.
pub open spec fn boxes_sound_at(nodes: Seq<BVH2dNode>, boxes: Seq<AABB>, k: int) -> bool {
    match nodes[k] {
        BVH2dNode::Leaf { .. } => true,
        BVH2dNode::Node { child_l_index, child_l_aabb, child_r_index, child_r_aabb } => {
            &&& child_l_aabb == joint_aabb(leaves_at(nodes, child_l_index as int), boxes)
            &&& child_r_aabb == joint_aabb(leaves_at(nodes, child_r_index as int), boxes)
        },
    }
}

/// The leaves of a single node: its shape if it is a leaf, none if not.
pub proof fn lemma_leaf_shapes_of_one(node: BVH2dNode)
    ensures
        leaf_shapes(seq![node]) == (match node {
            BVH2dNode::Leaf { shape_index } => seq![shape_index],
            BVH2dNode::Node { .. } => Seq::<usize>::empty(),
        }),
{
    reveal_with_fuel(leaf_shapes, 2);
    assert(seq![node].drop_last() == Seq::<BVH2dNode>::empty());
    match node {
        BVH2dNode::Leaf { shape_index } => {
            assert(Seq::<usize>::empty().push(shape_index) == seq![shape_index]);
        },
        BVH2dNode::Node { .. } => {},
    }
}

/// The leaves of two runs of nodes, one after the other, are the leaves of
/// the first followed by those of the second.
pub proof fn lemma_leaf_shapes_concat(a: Seq<BVH2dNode>, b: Seq<BVH2dNode>)
    ensures
        leaf_shapes(a + b) == leaf_shapes(a) + leaf_shapes(b),
    decreases b.len(),
{
    if b.len() == 0 {
        assert(a + b == a);
        assert(leaf_shapes(a) + Seq::<usize>::empty() == leaf_shapes(a));
    } else {
        assert((a + b).drop_last() == a + b.drop_last());
        lemma_leaf_shapes_concat(a, b.drop_last());
        match b.last() {
            BVH2dNode::Leaf { shape_index } => {
                assert((leaf_shapes(a) + leaf_shapes(b.drop_last())).push(shape_index)
                    == leaf_shapes(a) + leaf_shapes(b.drop_last()).push(shape_index));
            },
            BVH2dNode::Node { .. } => {},
        }
    }
}

/// The leaves of the tree over some shapes name those shapes, each as often
/// as it is listed.
pub proof fn lemma_subtree_leaf_shapes(boxes: Seq<AABB>, indices: Seq<usize>, base: int)
    requires
        indices.len() >= 1,
    ensures
        leaf_shapes(subtree_nodes(boxes, indices, base)).to_multiset() == indices.to_multiset(),
    decreases indices.len(),
{
    if indices.len() == 1 {
        lemma_subtree_of_one(boxes, indices, base);
        lemma_leaf_shapes_of_one(BVH2dNode::Leaf { shape_index: indices[0] });
        assert(indices == seq![indices[0]]);
    } else {
        let parts = partition(indices, boxes);
        lemma_partition_divides(indices, boxes);
        lemma_divides_parts(parts, indices, boxes);
        lemma_subtree_of_parts(boxes, indices, base);
        let left = subtree_nodes(boxes, parts.left, base + 1);
        let right = subtree_nodes(boxes, parts.right, base + 2 * parts.left.len());
        let root = subtree_nodes(boxes, indices, base).take(1);
        assert(subtree_nodes(boxes, indices, base) == root + left + right);
        lemma_subtree_leaf_shapes(boxes, parts.left, base + 1);
        lemma_subtree_leaf_shapes(boxes, parts.right, base + 2 * parts.left.len());
        lemma_leaf_shapes_concat(root + left, right);
        lemma_leaf_shapes_concat(root, left);
        assert(root == seq![subtree_nodes(boxes, indices, base)[0]]);
        lemma_leaf_shapes_of_one(subtree_nodes(boxes, indices, base)[0]);
        assert(leaf_shapes(root) + leaf_shapes(left) == leaf_shapes(left));
        lemma_multiset_commutative(leaf_shapes(left), leaf_shapes(right));
    }
}

/// The shapes reached from the root of a tree that lies in the array are
/// those of the tree's leaves, in the order of the array.
pub proof fn lemma_subtree_leaves_at(
    nodes: Seq<BVH2dNode>,
    boxes: Seq<AABB>,
    indices: Seq<usize>,
    base: int,
)
    requires
        holds_subtree(nodes, boxes, indices, base),
    ensures
        leaves_at(nodes, base) == leaf_shapes(subtree_nodes(boxes, indices, base)),
        leaves_at(nodes, base).to_multiset() == indices.to_multiset(),
    decreases indices.len(),
{
    lemma_subtree_leaf_shapes(boxes, indices, base);
    if indices.len() == 1 {
        lemma_subtree_leaf(nodes, boxes, indices, base);
        lemma_subtree_of_one(boxes, indices, base);
        lemma_leaf_shapes_of_one(BVH2dNode::Leaf { shape_index: indices[0] });
    } else {
        let parts = partition(indices, boxes);
        let right_base = base + 2 * parts.left.len();
        lemma_subtree_node(nodes, boxes, indices, base);
        lemma_subtree_of_parts(boxes, indices, base);
        let left = subtree_nodes(boxes, parts.left, base + 1);
        let right = subtree_nodes(boxes, parts.right, right_base);
        let root = subtree_nodes(boxes, indices, base).take(1);
        assert(subtree_nodes(boxes, indices, base) == root + left + right);
        lemma_subtree_leaves_at(nodes, boxes, parts.left, base + 1);
        lemma_subtree_leaves_at(nodes, boxes, parts.right, right_base);
        lemma_leaf_shapes_concat(root + left, right);
        lemma_leaf_shapes_concat(root, left);
        assert(root == seq![subtree_nodes(boxes, indices, base)[0]]);
        lemma_leaf_shapes_of_one(subtree_nodes(boxes, indices, base)[0]);
        assert(leaf_shapes(root) + leaf_shapes(left) == leaf_shapes(left));
    }
}

/// In a tree that lies in the array, shapes are reached from every node, and
/// only shapes of the tree.
pub proof fn lemma_subtree_leaves_below(
    nodes: Seq<BVH2dNode>,
    boxes: Seq<AABB>,
    indices: Seq<usize>,
    base: int,
)
    requires
        holds_subtree(nodes, boxes, indices, base),
    ensures
        forall|k: int|
            base <= k < base + 2 * indices.len() - 1 ==> (#[trigger] leaves_at(nodes, k)).len() > 0,
        forall|k: int, j: int|
            base <= k < base + 2 * indices.len() - 1 && 0 <= j < leaves_at(nodes, k).len()
                ==> indices.contains(#[trigger] leaves_at(nodes, k)[j]),
    decreases indices.len(),
{
    broadcast use vstd::seq_lib::to_multiset_contains;

    let end = base + 2 * indices.len() - 1;
    lemma_subtree_leaves_at(nodes, boxes, indices, base);
    vstd::seq_lib::to_multiset_len(leaves_at(nodes, base));
    vstd::seq_lib::to_multiset_len(indices);
    assert forall|j: int| 0 <= j < leaves_at(nodes, base).len() implies indices.contains(
        #[trigger] leaves_at(nodes, base)[j],
    ) by {
        let shape = leaves_at(nodes, base)[j];
        assert(leaves_at(nodes, base).contains(shape));
        assert(leaves_at(nodes, base).to_multiset().count(shape) > 0);
    }
    if indices.len() >= 2 {
        let parts = partition(indices, boxes);
        let right_base = base + 2 * parts.left.len();
        lemma_subtree_node(nodes, boxes, indices, base);
        lemma_subtree_leaves_below(nodes, boxes, parts.left, base + 1);
        lemma_subtree_leaves_below(nodes, boxes, parts.right, right_base);
        assert forall|k: int, j: int|
            base <= k < end && 0 <= j < leaves_at(nodes, k).len() implies indices.contains(
            #[trigger] leaves_at(nodes, k)[j],
        ) by {
            let shape = leaves_at(nodes, k)[j];
            if k == base {
            } else if k < right_base {
                assert(parts.left.contains(shape));
                assert(parts.left.to_multiset().count(shape) > 0);
                assert(indices.to_multiset().count(shape) > 0);
            } else {
                assert(parts.right.contains(shape));
                assert(parts.right.to_multiset().count(shape) > 0);
                assert(indices.to_multiset().count(shape) > 0);
            }
        }
    }
}

/// In a tree that lies in the array, every node holds for each child the
/// joint box of the shapes reached from that child.
pub proof fn lemma_subtree_boxes_sound(
    nodes: Seq<BVH2dNode>,
    boxes: Seq<AABB>,
    indices: Seq<usize>,
    base: int,
)
    requires
        holds_subtree(nodes, boxes, indices, base),
    ensures
        forall|k: int|
            base <= k < base + 2 * indices.len() - 1 ==> #[trigger] boxes_sound_at(nodes, boxes, k),
    decreases indices.len(),
{
    let end = base + 2 * indices.len() - 1;
    if indices.len() == 1 {
        lemma_subtree_leaf(nodes, boxes, indices, base);
    } else {
        let parts = partition(indices, boxes);
        let right_base = base + 2 * parts.left.len();
        lemma_subtree_node(nodes, boxes, indices, base);
        lemma_subtree_boxes_sound(nodes, boxes, parts.left, base + 1);
        lemma_subtree_boxes_sound(nodes, boxes, parts.right, right_base);
        lemma_subtree_leaves_at(nodes, boxes, parts.left, base + 1);
        lemma_subtree_leaves_at(nodes, boxes, parts.right, right_base);
        lemma_joint_aabb_permutation(leaves_at(nodes, base + 1), parts.left, boxes);
        lemma_joint_aabb_permutation(leaves_at(nodes, right_base), parts.right, boxes);
        assert forall|k: int| base <= k < end implies #[trigger] boxes_sound_at(nodes, boxes, k) by {
            if k == base {
            } else if k < right_base {
                assert(boxes_sound_at(nodes, boxes, k));
            } else {
                assert(boxes_sound_at(nodes, boxes, k));
            }
        }
    }
}

/// Of shapes none of whose boxes holds the point, none is kept.
pub proof fn lemma_none_kept(shapes: Seq<usize>, boxes: Seq<AABB>, point: Point2)
    requires
        forall|j: int| 0 <= j < shapes.len() ==> !boxes[#[trigger] shapes[j] as int].contains(point),
    ensures
        shapes.filter(shape_contains(boxes, point)) == Seq::<usize>::empty(),
    decreases shapes.len(),
{
    reveal(Seq::filter);
    if shapes.len() > 0 {
        let rest = shapes.drop_last();
        assert forall|j: int| 0 <= j < rest.len() implies !boxes[#[trigger] rest[j] as int].contains(
            point,
        ) by {
            assert(rest[j] == shapes[j]);
        }
        lemma_none_kept(rest, boxes, point);
        assert(shapes.last() == shapes[shapes.len() - 1]);
    }
}

/// A single shape is kept where its box holds the point.
pub proof fn lemma_one_kept(shape: usize, boxes: Seq<AABB>, point: Point2)
    ensures
        boxes[shape as int].contains(point) ==> seq![shape].filter(shape_contains(boxes, point))
            == seq![shape],
        !boxes[shape as int].contains(point) ==> seq![shape].filter(shape_contains(boxes, point))
            == Seq::<usize>::empty(),
{
    reveal_with_fuel(Seq::filter, 2);
    assert(seq![shape].drop_last() == Seq::<usize>::empty());
    assert(Seq::<usize>::empty().push(shape) == seq![shape]);
}

/// A walk that comes to a tree in the array yields, of the shapes reached
/// from the tree's root and in their order, those whose box holds the point:
/// from a root with children in any case, and from any root that it enters as
/// a child with the joint box of the tree's shapes.
pub proof fn lemma_subtree_hits(
    nodes: Seq<BVH2dNode>,
    boxes: Seq<AABB>,
    indices: Seq<usize>,
    base: int,
    point: Point2,
)
    requires
        holds_subtree(nodes, boxes, indices, base),
    ensures
        indices.len() >= 2 ==> hits_at(nodes, base, point) == leaves_at(nodes, base).filter(
            shape_contains(boxes, point),
        ),
        forall|k: int|
            0 <= k < base ==> #[trigger] hits_below(
                nodes,
                k,
                base,
                joint_aabb(indices, boxes),
                point,
            ) == leaves_at(nodes, base).filter(shape_contains(boxes, point)),
    decreases indices.len(),
{
    let kept = leaves_at(nodes, base).filter(shape_contains(boxes, point));
    let joint = joint_aabb(indices, boxes);
    lemma_subtree_leaves_at(nodes, boxes, indices, base);
    if indices.len() == 1 {
        lemma_subtree_leaf(nodes, boxes, indices, base);
        lemma_one_kept(indices[0], boxes, point);
        assert(indices == seq![indices[0]]);
        lemma_joint_aabb_single(indices[0], boxes);
    } else {
        let parts = partition(indices, boxes);
        let right_base = base + 2 * parts.left.len();
        lemma_subtree_node(nodes, boxes, indices, base);
        lemma_subtree_hits(nodes, boxes, parts.left, base + 1, point);
        lemma_subtree_hits(nodes, boxes, parts.right, right_base, point);
        assert(hits_below(nodes, base, base + 1, parts.left_aabb, point) == leaves_at(
            nodes,
            base + 1,
        ).filter(shape_contains(boxes, point)));
        assert(hits_below(nodes, base, right_base, parts.right_aabb, point) == leaves_at(
            nodes,
            right_base,
        ).filter(shape_contains(boxes, point)));
        Seq::filter_distributes_over_add(
            leaves_at(nodes, base + 1),
            leaves_at(nodes, right_base),
            shape_contains(boxes, point),
        );
        assert(hits_at(nodes, base, point) == kept);
        if !joint.contains(point) {
            assert forall|j: int| 0 <= j < leaves_at(nodes, base).len() implies !boxes[
                #[trigger] leaves_at(nodes, base)[j] as int
            ].contains(point) by {
                broadcast use vstd::seq_lib::to_multiset_contains;

                let shape = leaves_at(nodes, base)[j];
                assert(leaves_at(nodes, base).contains(shape));
                assert(leaves_at(nodes, base).to_multiset().count(shape) > 0);
                assert(indices.contains(shape));
                let at = choose|at: int| 0 <= at < indices.len() && indices[at] == shape;
                if boxes[shape as int].contains(point) {
                    lemma_joint_aabb_contains(indices, boxes, at, point);
                }
            }
            lemma_none_kept(leaves_at(nodes, base), boxes, point);
        }
    }
}

/// In a tree over shapes whose centers coincide, the shapes are reached in
/// the order in which they are listed, every node has half of its shapes on
/// either side, and the tree is as low as halving makes it.
pub proof fn lemma_subtree_halved(
    nodes: Seq<BVH2dNode>,
    boxes: Seq<AABB>,
    indices: Seq<usize>,
    base: int,
)
    requires
        holds_subtree(nodes, boxes, indices, base),
        centers_coincide(indices, boxes),
    ensures
        leaves_at(nodes, base) == indices,
        height_at(nodes, base) == halving_height(indices.len()),
        forall|k: int|
            base <= k < base + 2 * indices.len() - 1 ==> #[trigger] halved_at(nodes, k),
    decreases indices.len(),
{
    let end = base + 2 * indices.len() - 1;
    if indices.len() == 1 {
        lemma_subtree_leaf(nodes, boxes, indices, base);
        assert(indices == seq![indices[0]]);
    } else {
        let parts = partition(indices, boxes);
        let right_base = base + 2 * parts.left.len();
        let mid = indices.len() as int / 2;
        lemma_subtree_node(nodes, boxes, indices, base);
        lemma_coincident_centers_are_halved(indices, boxes);
        lemma_subtree_halved(nodes, boxes, parts.left, base + 1);
        lemma_subtree_halved(nodes, boxes, parts.right, right_base);
        assert(indices.take(mid) + indices.skip(mid) == indices);
        lemma_halving_height_grows(parts.left.len(), parts.right.len());
        assert(height_at(nodes, base) == halving_height(indices.len()));
        assert forall|k: int| base <= k < end implies #[trigger] halved_at(nodes, k) by {
            if k == base {
            } else if k < right_base {
                assert(halved_at(nodes, k));
            } else {
                assert(halved_at(nodes, k));
            }
        }
    }
}

} // verus!
