//! How the array of nodes is read as a tree: which shapes lie below a node,
//! and which of them a walk for a point comes to.
use vstd::arithmetic::power2::{lemma2_to64, lemma_pow2_unfold, pow2};
use vstd::prelude::*;

use crate::aabb::AABB;
use crate::bvh2d::bvh2d_impl::BVH2dNode;
use crate::Point2;

verus! {

/// Whether the children of the node at `k`, if it has any, lie behind it and
/// before `end`.
pub open spec fn children_within(nodes: Seq<BVH2dNode>, k: int, end: int) -> bool {
    match nodes[k] {
        BVH2dNode::Leaf { .. } => true,
        BVH2dNode::Node { child_l_index, child_r_index, .. } => k < child_l_index < end && k
            < child_r_index < end,
    }
}

/// Whether every node's children lie behind it in the array.
pub open spec fn children_follow(nodes: Seq<BVH2dNode>) -> bool {
    forall|k: int| 0 <= k < nodes.len() ==> #[trigger] children_within(nodes, k, nodes.len() as int)
}

/// The shapes of the leaves among the nodes, in the order of the array.
pub open spec fn leaf_shapes(nodes: Seq<BVH2dNode>) -> Seq<usize>
    decreases nodes.len(),
{
    if nodes.len() == 0 {
        Seq::empty()
    } else {
        match nodes.last() {
            BVH2dNode::Leaf { shape_index } => leaf_shapes(nodes.drop_last()).push(shape_index),
            BVH2dNode::Node { .. } => leaf_shapes(nodes.drop_last()),
        }
    }
}

/// The shapes that are reached from the node at `k`, the left subtree's
/// before the right one's.
pub open spec fn leaves_at(nodes: Seq<BVH2dNode>, k: int) -> Seq<usize>
    decreases nodes.len() - k,
{
    if 0 <= k < nodes.len() {
        match nodes[k] {
            BVH2dNode::Leaf { shape_index } => seq![shape_index],
            BVH2dNode::Node { child_l_index, child_r_index, .. } => {
                if k < child_l_index < nodes.len() && k < child_r_index < nodes.len() {
                    leaves_at(nodes, child_l_index as int) + leaves_at(nodes, child_r_index as int)
                } else {
                    Seq::empty()
                }
            },
        }
    } else {
        Seq::empty()
    }
}

/// The shapes that a walk for `point` yields from the child at `child` of the
/// node at `k`: none where the child's box does not hold the point, else
/// those that the walk yields from the child.
pub open spec fn hits_below(
    nodes: Seq<BVH2dNode>,
    k: int,
    child: int,
    child_aabb: AABB,
    point: Point2,
) -> Seq<usize>
    decreases nodes.len() - k, 0nat,
{
    if 0 <= k < child < nodes.len() && child_aabb.contains(point) {
        hits_at(nodes, child, point)
    } else {
        Seq::empty()
    }
}

/// The shapes that a walk for `point` yields once it has come to the node at
/// `k`, in the order in which it yields them. A leaf yields its shape. A
/// node's children are entered only where their box holds the point, the
/// left before the right.
pub open spec fn hits_at(nodes: Seq<BVH2dNode>, k: int, point: Point2) -> Seq<usize>
    decreases nodes.len() - k, 1nat,
{
    if 0 <= k < nodes.len() {
        match nodes[k] {
            BVH2dNode::Leaf { shape_index } => seq![shape_index],
            BVH2dNode::Node { child_l_index, child_l_aabb, child_r_index, child_r_aabb } => {
                hits_below(nodes, k, child_l_index as int, child_l_aabb, point) + hits_below(
                    nodes,
                    k,
                    child_r_index as int,
                    child_r_aabb,
                    point,
                )
            },
        }
    } else {
        Seq::empty()
    }
}

/// Whether the box of the shape at an index holds the point.
pub open spec fn shape_contains(boxes: Seq<AABB>, point: Point2) -> spec_fn(usize) -> bool {
    |i: usize| boxes[i as int].contains(point)
}

/// The shapes that a walk for `point` yields once it has come back to the
/// node at `k`, which it had entered before: a leaf's shape, or what it
/// yields from a node's right child.
pub open spec fn hits_after(nodes: Seq<BVH2dNode>, k: int, point: Point2) -> Seq<usize> {
    match nodes[k] {
        BVH2dNode::Leaf { shape_index } => seq![shape_index],
        BVH2dNode::Node { child_r_index, child_r_aabb, .. } => hits_below(
            nodes,
            k,
            child_r_index as int,
            child_r_aabb,
            point,
        ),
    }
}

/// The shapes that a walk for `point` yields as it comes back to the nodes
/// on its stack, from the last node pushed to the first.
pub open spec fn hits_of_stack(nodes: Seq<BVH2dNode>, stack: Seq<usize>, point: Point2) -> Seq<
    usize,
>
    decreases stack.len(),
{
    if stack.len() == 0 {
        Seq::empty()
    } else {
        hits_after(nodes, stack.last() as int, point) + hits_of_stack(
            nodes,
            stack.drop_last(),
            point,
        )
    }
}

/// The height of the tree below the child at `child` of the node at `k`.
pub open spec fn height_below(nodes: Seq<BVH2dNode>, k: int, child: int) -> nat
    decreases nodes.len() - k, 0nat,
{
    if 0 <= k < child < nodes.len() {
        height_at(nodes, child)
    } else {
        0
    }
}

/// The height of the tree below the node at `k`: none below a leaf, and
/// below a node one more than below the higher of its children.
pub open spec fn height_at(nodes: Seq<BVH2dNode>, k: int) -> nat
    decreases nodes.len() - k, 1nat,
{
    if 0 <= k < nodes.len() {
        match nodes[k] {
            BVH2dNode::Leaf { .. } => 0,
            BVH2dNode::Node { child_l_index, child_r_index, .. } => {
                let left = height_below(nodes, k, child_l_index as int);
                let right = height_below(nodes, k, child_r_index as int);
                if left > right {
                    left + 1
                } else {
                    right + 1
                }
            },
        }
    } else {
        0
    }
}

/// A bound on the steps that a walk takes from the child at `child` of the
/// node at `k`.
pub open spec fn steps_below(nodes: Seq<BVH2dNode>, k: int, child: int) -> nat
    decreases nodes.len() - k, 0nat,
{
    if 0 <= k < child < nodes.len() {
        steps_at(nodes, child)
    } else {
        0
    }
}

/// A bound on the steps that a walk takes once it has come to the node at
/// `k`: two at the node itself, and those below its children.
pub open spec fn steps_at(nodes: Seq<BVH2dNode>, k: int) -> nat
    decreases nodes.len() - k, 1nat,
{
    if 0 <= k < nodes.len() {
        match nodes[k] {
            BVH2dNode::Leaf { .. } => 2,
            BVH2dNode::Node { child_l_index, child_r_index, .. } => 2 + steps_below(
                nodes,
                k,
                child_l_index as int,
            ) + steps_below(nodes, k, child_r_index as int),
        }
    } else {
        0
    }
}

/// A bound on the steps that a walk takes once it has come back to the node
/// at `k`.
pub open spec fn steps_after(nodes: Seq<BVH2dNode>, k: int) -> nat {
    match nodes[k] {
        BVH2dNode::Leaf { .. } => 1,
        BVH2dNode::Node { child_r_index, .. } => 1 + steps_below(nodes, k, child_r_index as int),
    }
}

/// A bound on the steps that a walk takes as it comes back to the nodes on
/// its stack.
pub open spec fn steps_of_stack(nodes: Seq<BVH2dNode>, stack: Seq<usize>) -> nat
    decreases stack.len(),
{
    if stack.len() == 0 {
        0
    } else {
        steps_after(nodes, stack.last() as int) + steps_of_stack(nodes, stack.drop_last())
    }
}

/// Whether the node at `k`, if it has children, has half of the shapes below
/// it, rounded down, below its left child, and the others below its right
/// child.
pub open spec fn halved_at(nodes: Seq<BVH2dNode>, k: int) -> bool {
    match nodes[k] {
        BVH2dNode::Leaf { .. } => true,
        BVH2dNode::Node { child_l_index, child_r_index, .. } => {
            let all = leaves_at(nodes, k).len();
            &&& leaves_at(nodes, child_l_index as int).len() == all / 2
            &&& leaves_at(nodes, child_r_index as int).len() == all - all / 2
        },
    }
}

/// The height of a tree over `count` shapes that halves them at every node:
/// the number of times that `count` can be halved, rounding up, before one
/// is left.
pub open spec fn halving_height(count: nat) -> nat
    decreases count,
{
    if count <= 1 {
        0
    } else {
        1 + halving_height((count - count / 2) as nat)
    }
}

/// More shapes make the halving tree no lower.
pub proof fn lemma_halving_height_grows(fewer: nat, more: nat)
    requires
        fewer <= more,
    ensures
        halving_height(fewer) <= halving_height(more),
    decreases more,
{
    if fewer > 1 {
        lemma_halving_height_grows((fewer - fewer / 2) as nat, (more - more / 2) as nat);
    }
}

/// The height of the halving tree over `count` shapes is the logarithm of
/// `count` to the base two, rounded up: the least `h` with `count <= 2^h`.
pub proof fn lemma_halving_height_is_logarithm(count: nat)
    requires
        count >= 1,
    ensures
        count <= pow2(halving_height(count)),
        count >= 2 ==> pow2((halving_height(count) - 1) as nat) < count,
    decreases count,
{
    if count == 1 {
        lemma2_to64();
    } else {
        let half = (count - count / 2) as nat;
        let below = halving_height(half);
        lemma_halving_height_is_logarithm(half);
        lemma_pow2_unfold(below + 1);
        if half >= 2 {
            lemma_pow2_unfold(below);
            assert(pow2(below) < count) by {
                // `pow2(below)` is even and below `2 * half`, which is `count`
                // or the odd `count + 1`.
                assert(pow2(below) == 2 * pow2((below - 1) as nat));
            }
        } else {
            lemma2_to64();
        }
    }
}

} // verus!
