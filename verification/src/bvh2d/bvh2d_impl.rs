//! The hierarchy and its builder.
use vstd::prelude::*;

use crate::aabb::{are_boxes_of, Bounded, AABB};
use crate::bvh2d::iter::{BVH2dTraverseIterator, WalkState};
use crate::bvh2d::layout::{holds_subtree, lemma_hierarchy_children_follow, lemma_subtree_appended};
use crate::bvh2d::partition::{
    bucket_split, lemma_divides_parts, lemma_partition_by_extent, lemma_partition_divides,
    partition,
};
use crate::bvh2d::split::centroid_bounds_of_shapes;
use crate::bvh2d::tree::{children_follow, hits_at};
use crate::utils::{indices_in_range, joint_aabb_of_shapes};
use crate::{Point2, EPSILON};

verus! {

/// A node of the hierarchy. The nodes lie in one array and name each other
/// by their positions in it.
#[derive(Copy, Clone, Debug, PartialEq, Eq, Structural)]
pub enum BVH2dNode {
    /// One shape, named by its position among the shapes that the hierarchy
    /// was built from.
    Leaf { shape_index: usize },
    /// Two subtrees, each with the joint box of the shapes below it.
    Node { child_l_index: usize, child_l_aabb: AABB, child_r_index: usize, child_r_aabb: AABB },
}

/// The nodes of the tree over the shapes at `indices`, as they lie in the
/// array from position `base` on: the root, then its left subtree, then its
/// right subtree. A single shape is a leaf; more are divided as
/// [`partition`] says.
///
/// Both parts of a division are shorter than the whole, which
/// [`lemma_partition_divides`] shows: the test for it here is what lets the
/// definition go down into the parts, and never fails for two or more shapes
/// ([`lemma_subtree_of_parts`]).
#[verifier::opaque]
pub open spec fn subtree_nodes(boxes: Seq<AABB>, indices: Seq<usize>, base: int) -> Seq<BVH2dNode>
    decreases indices.len(),
{
    if indices.len() == 0 {
        Seq::empty()
    } else if indices.len() == 1 {
        seq![BVH2dNode::Leaf { shape_index: indices[0] }]
    } else {
        let parts = partition(indices, boxes);
        if 0 < parts.left.len() < indices.len() && 0 < parts.right.len() < indices.len() {
            let left = subtree_nodes(boxes, parts.left, base + 1);
            let right = subtree_nodes(boxes, parts.right, base + 1 + left.len());
            seq![
                BVH2dNode::Node {
                    child_l_index: (base + 1) as usize,
                    child_l_aabb: parts.left_aabb,
                    child_r_index: (base + 1 + left.len()) as usize,
                    child_r_aabb: parts.right_aabb,
                },
            ] + left + right
        } else {
            Seq::empty()
        }
    }
}

/// The positions `0, 1, ..` of `count` shapes.
pub open spec fn all_indices(count: nat) -> Seq<usize> {
    Seq::new(count, |i: int| i as usize)
}

/// The nodes of the hierarchy over all the boxes; none where there is no box.
pub open spec fn hierarchy_nodes(boxes: Seq<AABB>) -> Seq<BVH2dNode> {
    subtree_nodes(boxes, all_indices(boxes.len()), 0)
}

/// The tree over two or more shapes: a node that names its children and
/// holds their boxes, then the tree over the one part, then the tree over
/// the other.
pub proof fn lemma_subtree_of_parts(boxes: Seq<AABB>, indices: Seq<usize>, base: int)
    requires
        indices.len() >= 2,
    ensures
        ({
            let parts = partition(indices, boxes);
            let left = subtree_nodes(boxes, parts.left, base + 1);
            let right = subtree_nodes(boxes, parts.right, base + 2 * parts.left.len());
            &&& left.len() == 2 * parts.left.len() - 1
            &&& right.len() == 2 * parts.right.len() - 1
            &&& subtree_nodes(boxes, indices, base) == seq![
                BVH2dNode::Node {
                    child_l_index: (base + 1) as usize,
                    child_l_aabb: parts.left_aabb,
                    child_r_index: (base + 2 * parts.left.len()) as usize,
                    child_r_aabb: parts.right_aabb,
                },
            ] + left + right
        }),
{
    reveal(subtree_nodes);
    let parts = partition(indices, boxes);
    lemma_partition_divides(indices, boxes);
    lemma_divides_parts(parts, indices, boxes);
    lemma_subtree_len(boxes, parts.left, base + 1);
    lemma_subtree_len(boxes, parts.right, base + 2 * parts.left.len());
}

/// The tree over one shape is a leaf that names it.
pub proof fn lemma_subtree_of_one(boxes: Seq<AABB>, indices: Seq<usize>, base: int)
    requires
        indices.len() == 1,
    ensures
        subtree_nodes(boxes, indices, base) == seq![BVH2dNode::Leaf { shape_index: indices[0] }],
{
    reveal(subtree_nodes);
}

/// A tree over `n` shapes has `2n - 1` nodes.
pub proof fn lemma_subtree_len(boxes: Seq<AABB>, indices: Seq<usize>, base: int)
    requires
        indices.len() >= 1,
    ensures
        subtree_nodes(boxes, indices, base).len() == 2 * indices.len() - 1,
    decreases indices.len(),
{
    reveal(subtree_nodes);
    if indices.len() >= 2 {
        let parts = partition(indices, boxes);
        lemma_partition_divides(indices, boxes);
        lemma_divides_parts(parts, indices, boxes);
        lemma_subtree_len(boxes, parts.left, base + 1);
        let left = subtree_nodes(boxes, parts.left, base + 1);
        lemma_subtree_len(boxes, parts.right, base + 1 + left.len());
    }
}

impl BVH2dNode {
    /// Appends to `nodes` the tree over the shapes at `indices` and gives the
    /// position of its root.
    pub fn build(shapes: &[AABB], indices: &[usize], nodes: &mut Vec<BVH2dNode>) -> (node_index:
        usize)
        requires
            indices@.len() >= 1,
            indices_in_range(indices@, shapes@),
        ensures
            node_index == old(nodes)@.len(),
            final(nodes)@ == old(nodes)@ + subtree_nodes(
                shapes@,
                indices@,
                old(nodes)@.len() as int,
            ),
            final(nodes)@.len() == old(nodes)@.len() + 2 * indices@.len() - 1,
            holds_subtree(final(nodes)@, shapes@, indices@, node_index as int),
        decreases indices@.len(),
    {
        proof {
            lemma_subtree_len(shapes@, indices@, nodes@.len() as int);
        }
        // A single shape is not divided any further.
        if indices.len() == 1 {
            let shape_index = indices[0];
            let node_index = nodes.len();
            nodes.push(BVH2dNode::Leaf { shape_index });
            proof {
                lemma_subtree_of_one(shapes@, indices@, node_index as int);
                assert(nodes.len() == nodes@.len());
                lemma_subtree_appended(old(nodes)@, shapes@, indices@);
                assert(nodes@ == old(nodes)@ + seq![BVH2dNode::Leaf { shape_index }]);
            }
            return node_index;
        }
        let centroid_bounds = centroid_bounds_of_shapes(indices, shapes);

        // The children come to lie behind their parent, so its place is
        // taken now and filled once both children are known.
        let node_index = nodes.len();
        nodes.push(BVH2dNode::Leaf { shape_index: 0 });

        // The axis along which the centers spread most.
        let split_axis = centroid_bounds.largest_axis();
        let split_axis_size: i64 = centroid_bounds.max.index(split_axis) as i64
            - centroid_bounds.min.index(split_axis) as i64;

        let ghost parts = partition(indices@, shapes@);
        proof {
            lemma_partition_divides(indices@, shapes@);
            lemma_divides_parts(parts, indices@, shapes@);
            lemma_subtree_of_parts(shapes@, indices@, node_index as int);
            lemma_partition_by_extent(indices@, shapes@);
        }
        let (child_l_index, child_l_aabb, child_r_index, child_r_aabb) = if split_axis_size
            < EPSILON {
            // The centers coincide: the list is cut in the middle.
            let (child_l_indices, child_r_indices) = indices.split_at(indices.len() / 2);
            let child_l_aabb = joint_aabb_of_shapes(child_l_indices, shapes);
            let child_r_aabb = joint_aabb_of_shapes(child_r_indices, shapes);
            proof {
                assert(child_l_indices@ == indices@.take(indices@.len() as int / 2));
                assert(child_r_indices@ == indices@.skip(indices@.len() as int / 2));
            }
            let child_l_index = BVH2dNode::build(shapes, child_l_indices, nodes);
            let child_r_index = BVH2dNode::build(shapes, child_r_indices, nodes);
            (child_l_index, child_l_aabb, child_r_index, child_r_aabb)
        } else {
            // The centers spread: the cheapest boundary between the buckets
            // along the axis divides the shapes.
            let (child_l_indices, child_l_aabb, child_r_indices, child_r_aabb) = bucket_split(
                indices,
                shapes,
                &centroid_bounds,
                split_axis,
            );
            let child_l_index = BVH2dNode::build(shapes, child_l_indices.as_slice(), nodes);
            let child_r_index = BVH2dNode::build(shapes, child_r_indices.as_slice(), nodes);
            (child_l_index, child_l_aabb, child_r_index, child_r_aabb)
        };

        nodes[node_index] = BVH2dNode::Node {
            child_l_index,
            child_l_aabb,
            child_r_index,
            child_r_aabb,
        };
        proof {
            assert(nodes@ =~= old(nodes)@ + subtree_nodes(
                shapes@,
                indices@,
                old(nodes)@.len() as int,
            ));
            assert(nodes.len() == nodes@.len());
            lemma_subtree_appended(old(nodes)@, shapes@, indices@);
        }
        node_index
    }
}

/// A hierarchy of bounding boxes over a sequence of shapes.
///
/// Its view is the array of its nodes, the root first: empty where the
/// hierarchy was built from no shape.
#[derive(Debug)]
pub struct BVH2d {
    pub(crate) nodes: Vec<BVH2dNode>,
}

impl View for BVH2d {
    type V = Seq<BVH2dNode>;

    closed spec fn view(&self) -> Seq<BVH2dNode> {
        self.nodes@
    }
}

impl Clone for BVH2d {
    fn clone(&self) -> (copy: Self)
        ensures
            copy@ == self@,
    {
        proof {
            use_type_invariant(self);
        }
        let nodes = self.nodes.clone();
        assert(nodes@ =~= self.nodes@);
        BVH2d { nodes }
    }
}

impl BVH2d {
    /// Every node's children lie behind it in the array.
    #[verifier::type_invariant]
    spec fn well_formed(&self) -> bool {
        children_follow(self.nodes@)
    }

    /// A hierarchy has no more nodes than can be counted.
    pub proof fn lemma_len_fits(self)
        ensures
            self@.len() <= usize::MAX,
    {
        assert(self.nodes.len() == self.nodes@.len());
    }

    /// Builds the hierarchy over the shapes. Each shape is asked for its box
    /// once, and the hierarchy is that of [`BVH2d::build_from_aabbs`] over
    /// the boxes that were given.
    pub fn build<Shape: Bounded>(shapes: &[Shape]) -> (hierarchy: BVH2d)
        ensures
            exists|boxes: Seq<AABB>|
                are_boxes_of(boxes, shapes@) && hierarchy@ == #[trigger] hierarchy_nodes(boxes),
            shapes@.len() == 0 ==> hierarchy@.len() == 0,
            shapes@.len() > 0 ==> hierarchy@.len() == 2 * shapes@.len() - 1,
    {
        let mut boxes: Vec<AABB> = Vec::with_capacity(shapes.len());
        let mut i: usize = 0;
        while i < shapes.len()
            invariant
                i <= shapes@.len(),
                boxes@.len() == i,
                forall|j: int|
                    0 <= j < i ==> call_ensures(Shape::aabb, (&shapes@[j],), #[trigger] boxes@[j]),
            decreases shapes@.len() - i,
        {
            boxes.push(shapes[i].aabb());
            i += 1;
        }
        let hierarchy = BVH2d::build_from_aabbs(boxes.as_slice());
        assert(are_boxes_of(boxes@, shapes@) && hierarchy@ == hierarchy_nodes(boxes@));
        hierarchy
    }

    /// Builds the hierarchy over shapes with the given boxes.
    pub fn build_from_aabbs(aabbs: &[AABB]) -> (hierarchy: BVH2d)
        ensures
            hierarchy@ == hierarchy_nodes(aabbs@),
            aabbs@.len() == 0 ==> hierarchy@.len() == 0,
            aabbs@.len() > 0 ==> hierarchy@.len() == 2 * aabbs@.len() - 1,
    {
        let expected_node_count = match aabbs.len().checked_mul(2) {
            Some(count) => count,
            None => aabbs.len(),
        };
        let mut nodes = Vec::with_capacity(expected_node_count);
        let mut indices: Vec<usize> = Vec::with_capacity(aabbs.len());
        let mut i: usize = 0;
        while i < aabbs.len()
            invariant
                i <= aabbs@.len(),
                indices@ == all_indices(i as nat),
            decreases aabbs@.len() - i,
        {
            indices.push(i);
            proof {
                assert(indices@ =~= all_indices((i + 1) as nat));
            }
            i += 1;
        }
        if indices.len() > 0 {
            BVH2dNode::build(aabbs, indices.as_slice(), &mut nodes);
        } else {
            proof {
                reveal(subtree_nodes);
            }
        }
        assert(nodes@ =~= hierarchy_nodes(aabbs@));
        proof {
            assert(nodes.len() == nodes@.len());
            lemma_hierarchy_children_follow(aabbs@);
        }
        BVH2d { nodes }
    }

    /// The shapes that a walk for `point` yields, in the order in which it
    /// yields them.
    pub open spec fn hits(&self, point: Point2) -> Seq<usize> {
        hits_at(self@, 0, point)
    }

    /// A walk through the hierarchy for `point`, from the root. In a
    /// hierarchy over two or more shapes it yields the shapes whose box holds
    /// the point, each once. A hierarchy over no shapes has no root to walk
    /// from.
    pub fn contains_iterator<'a>(&'a self, point: &Point2) -> (walk: BVH2dTraverseIterator<'a>)
        requires
            self@.len() > 0,
        ensures
            walk@ == (WalkState {
                hierarchy: *self,
                point: *point,
                stack: Seq::empty(),
                node_index: 0,
                has_node: true,
            }),
            walk.well_formed(),
            walk.pending() == self.hits(*point),
    {
        BVH2dTraverseIterator::new(self, point)
    }

    /// The nodes, the root first. The children of each lie behind it.
    pub fn nodes(&self) -> (nodes: &Vec<BVH2dNode>)
        ensures
            nodes@ == self@,
            children_follow(nodes@),
    {
        proof {
            use_type_invariant(self);
        }
        &self.nodes
    }
}

} // verus!
