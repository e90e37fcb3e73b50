//! The walk through a hierarchy that finds the shapes around a point.
use vstd::prelude::*;

use crate::bvh2d::bvh2d_impl::{BVH2d, BVH2dNode};
use crate::bvh2d::tree::{
    children_follow, children_within, height_at, hits_after, hits_at, hits_of_stack, steps_at,
    steps_of_stack,
};
use crate::Point2;

verus! {

/// Whether the node at `k` lies lower in the tree than the node that is kept
/// at position `j - 1` of the stack; where nothing is kept before it, whether
/// it lies no higher than the root.
pub open spec fn below(nodes: Seq<BVH2dNode>, stack: Seq<usize>, k: int, j: int) -> bool {
    if j > 0 {
        height_at(nodes, k) < height_at(nodes, stack[j - 1] as int)
    } else {
        height_at(nodes, k) <= height_at(nodes, 0)
    }
}

/// What a walk holds at any time: the hierarchy and the point it walks for,
/// the nodes it has kept to come back to, the node at hand, and whether there
/// is a node at hand at all.
pub struct WalkState {
    pub hierarchy: BVH2d,
    pub point: Point2,
    pub stack: Seq<usize>,
    pub node_index: usize,
    pub has_node: bool,
}

impl WalkState {
    /// Whether the walk is one through its hierarchy: the node at hand and
    /// the nodes kept are nodes of the hierarchy, each of them lower in the
    /// tree than the one kept before it.
    pub open spec fn well_formed(self) -> bool {
        &&& self.has_node ==> self.node_index < self.hierarchy@.len()
        &&& self.has_node ==> below(
            self.hierarchy@,
            self.stack,
            self.node_index as int,
            self.stack.len() as int,
        )
        &&& forall|j: int| 0 <= j < self.stack.len() ==> #[trigger] self.stack[j] < self.hierarchy@.len()
        &&& forall|j: int|
            0 <= j < self.stack.len() ==> #[trigger] below(
                self.hierarchy@,
                self.stack,
                self.stack[j] as int,
                j,
            )
    }

    /// Whether the walk is over: no node is at hand and none is kept.
    pub open spec fn is_over(self) -> bool {
        !self.has_node && self.stack.len() == 0
    }

    /// The shapes that the walk yields from the node at hand.
    pub open spec fn pending_ahead(self) -> Seq<usize> {
        if self.has_node {
            hits_at(self.hierarchy@, self.node_index as int, self.point)
        } else {
            Seq::empty()
        }
    }

    /// The shapes that the walk has yet to yield, in the order in which it
    /// will yield them: those from the node at hand, then those from the
    /// nodes kept, the last one kept first.
    pub open spec fn pending(self) -> Seq<usize> {
        self.pending_ahead() + hits_of_stack(self.hierarchy@, self.stack, self.point)
    }

    /// A bound on the steps that the walk has yet to take.
    pub open spec fn steps(self) -> nat {
        (if self.has_node {
            steps_at(self.hierarchy@, self.node_index as int)
        } else {
            0
        }) + steps_of_stack(self.hierarchy@, self.stack)
    }

    /// The walk after it has tried to go on into a child of the node at
    /// hand, the child at `child` with the box `child_aabb`: it stands at the
    /// child where the child's box holds the point, and has no node at hand
    /// where it does not.
    pub open spec fn moved_into(self, child: usize, child_aabb: crate::aabb::AABB) -> WalkState {
        if child_aabb.contains(self.point) {
            WalkState { node_index: child, has_node: true, ..self }
        } else {
            WalkState { has_node: false, ..self }
        }
    }

    /// The walk after it has tried to go on into the left child of the node
    /// at hand. At a leaf it has no node at hand afterwards.
    pub open spec fn moved_left(self) -> WalkState {
        match self.hierarchy@[self.node_index as int] {
            BVH2dNode::Node { child_l_index, child_l_aabb, .. } => self.moved_into(
                child_l_index,
                child_l_aabb,
            ),
            BVH2dNode::Leaf { .. } => WalkState { has_node: false, ..self },
        }
    }

    /// The walk after it has tried to go on into the right child of the node
    /// at hand. At a leaf it has no node at hand afterwards.
    pub open spec fn moved_right(self) -> WalkState {
        match self.hierarchy@[self.node_index as int] {
            BVH2dNode::Node { child_r_index, child_r_aabb, .. } => self.moved_into(
                child_r_index,
                child_r_aabb,
            ),
            BVH2dNode::Leaf { .. } => WalkState { has_node: false, ..self },
        }
    }

    /// The walk once it keeps the node at hand for later.
    pub open spec fn kept_node(self) -> WalkState {
        WalkState { stack: self.stack.push(self.node_index), ..self }
    }

    /// The walk once it has come back to the node that it kept last: that
    /// node is at its hand and kept no longer, but not one to go on from
    /// before the walk has looked at it.
    pub open spec fn came_back(self) -> WalkState {
        WalkState {
            stack: self.stack.drop_last(),
            node_index: self.stack.last(),
            has_node: false,
            ..self
        }
    }

    /// What the walk yields next, and the walk as it is then. A walk that is
    /// over yields nothing and stays as it is. A walk with a node at hand
    /// keeps it and tries to go on into its left child. A walk without one
    /// comes back to the node it kept last: from a node with children it
    /// tries to go on into the right child, and at a leaf it stops and
    /// yields the leaf's shape.
    pub open spec fn advanced(self) -> (Option<usize>, WalkState)
        decreases self.steps(),
        when self.well_formed() && children_follow(self.hierarchy@)
    {
        if self.is_over() {
            (None, self)
        } else if self.has_node {
            proof {
                assert(children_within(
                    self.hierarchy@,
                    self.node_index as int,
                    self.hierarchy@.len() as int,
                ));
                assert(self.stack.push(self.node_index).drop_last() == self.stack);
            }
            self.kept_node().moved_left().advanced()
        } else {
            let back = self.came_back();
            match self.hierarchy@[back.node_index as int] {
                BVH2dNode::Node { .. } => {
                    proof {
                        assert(children_within(
                            self.hierarchy@,
                            back.node_index as int,
                            self.hierarchy@.len() as int,
                        ));
                    }
                    back.moved_right().advanced()
                },
                BVH2dNode::Leaf { shape_index } => (Some(shape_index), back),
            }
        }
    }

    /// A walk keeps no more nodes than there are on the longest way from the
    /// root to a leaf.
    pub proof fn lemma_depth_within_height(self)
        requires
            self.well_formed(),
        ensures
            self.stack.len() <= height_at(self.hierarchy@, 0) + 1,
    {
        self.lemma_kept_lower_and_lower(self.stack.len() as int);
    }

    /// The node kept at position `j - 1` of the stack lies at least `j - 1`
    /// lower than the root.
    proof fn lemma_kept_lower_and_lower(self, j: int)
        requires
            self.well_formed(),
            0 <= j <= self.stack.len(),
        ensures
            j > 0 ==> height_at(self.hierarchy@, self.stack[j - 1] as int) + j <= height_at(
                self.hierarchy@,
                0,
            ) + 1,
        decreases j,
    {
        if j > 0 {
            self.lemma_kept_lower_and_lower(j - 1);
            assert(below(self.hierarchy@, self.stack, self.stack[j - 1] as int, j - 1));
        }
    }
}

/// A walk through a hierarchy for one point.
///
/// The walk goes depth first, the left child before the right, and enters a
/// child only where the child's box holds the point. Each call of
/// [`BVH2dTraverseIterator::next`] goes on to the next leaf and yields its
/// shape.
pub struct BVH2dTraverseIterator<'a> {
    bvh2d: &'a BVH2d,
    point: Point2,
    stack: Vec<usize>,
    node_index: usize,
    has_node: bool,
}

impl<'a> View for BVH2dTraverseIterator<'a> {
    type V = WalkState;

    closed spec fn view(&self) -> WalkState {
        WalkState {
            hierarchy: *self.bvh2d,
            point: self.point,
            stack: self.stack@,
            node_index: self.node_index,
            has_node: self.has_node,
        }
    }
}

impl<'a> BVH2dTraverseIterator<'a> {
    /// Whether the walk is one through its hierarchy.
    pub open spec fn well_formed(&self) -> bool {
        self@.well_formed()
    }

    /// The hierarchy that is walked through.
    pub open spec fn hierarchy(&self) -> BVH2d {
        self@.hierarchy
    }

    /// The number of nodes that the walk keeps on its stack.
    pub open spec fn depth(&self) -> nat {
        self@.stack.len()
    }

    /// The shapes that the walk has yet to yield, in the order in which it
    /// will yield them.
    pub open spec fn pending(&self) -> Seq<usize> {
        self@.pending()
    }

    /// The walk that stands at the root.
    pub(crate) fn new(bvh2d: &'a BVH2d, point: &Point2) -> (walk: Self)
        requires
            bvh2d@.len() > 0,
        ensures
            walk@ == (WalkState {
                hierarchy: *bvh2d,
                point: *point,
                stack: Seq::empty(),
                node_index: 0,
                has_node: true,
            }),
            walk.well_formed(),
            walk.pending() == hits_at(bvh2d@, 0, *point),
    {
        let walk = BVH2dTraverseIterator {
            bvh2d,
            point: *point,
            stack: Vec::new(),
            node_index: 0,
            has_node: true,
        };
        assert(walk.pending() == hits_at(bvh2d@, 0, *point)) by {
            assert(hits_of_stack(bvh2d@, walk@.stack, *point) == Seq::<usize>::empty());
            assert(walk@.pending_ahead() + Seq::<usize>::empty() == walk@.pending_ahead());
        }
        walk
    }

    /// Whether no node is kept.
    fn is_stack_empty(&self) -> (empty: bool)
        ensures
            empty == (self@.stack.len() == 0),
    {
        self.stack.len() == 0
    }

    /// Keeps a node for later.
    fn stack_push(&mut self, node: usize)
        ensures
            final(self)@ == (WalkState { stack: old(self)@.stack.push(node), ..old(self)@ }),
    {
        self.stack.push(node);
    }

    /// Takes back the node that was kept last.
    fn stack_pop(&mut self) -> (node: usize)
        requires
            old(self)@.stack.len() > 0,
        ensures
            node == old(self)@.stack.last(),
            final(self)@ == (WalkState { stack: old(self)@.stack.drop_last(), ..old(self)@ }),
    {
        let node = self.stack.pop().unwrap();
        node
    }

    /// Goes on from the node at hand into its left child, where there is one
    /// and its box holds the point; else the walk has no node at hand
    /// afterwards. Nothing else of the walk changes.
    fn move_left(&mut self)
        requires
            old(self)@.node_index < old(self)@.hierarchy@.len(),
        ensures
            final(self)@ == old(self)@.moved_left(),
            !final(self)@.has_node ==> final(self)@.node_index == old(self)@.node_index,
            final(self)@.has_node ==> final(self)@.node_index < final(self)@.hierarchy@.len(),
    {
        let nodes = self.bvh2d.nodes();
        assert(children_within(nodes@, self.node_index as int, nodes@.len() as int));
        match nodes[self.node_index] {
            BVH2dNode::Node { child_l_index, child_l_aabb, .. } => {
                if self.point.contained_by(&child_l_aabb) {
                    self.node_index = child_l_index;
                    self.has_node = true;
                } else {
                    self.has_node = false;
                }
            },
            BVH2dNode::Leaf { .. } => {
                self.has_node = false;
            },
        }
    }

    /// Goes on from the node at hand into its right child, where there is
    /// one and its box holds the point; else the walk has no node at hand
    /// afterwards. Nothing else of the walk changes.
    fn move_right(&mut self)
        requires
            old(self)@.node_index < old(self)@.hierarchy@.len(),
        ensures
            final(self)@ == old(self)@.moved_right(),
            !final(self)@.has_node ==> final(self)@.node_index == old(self)@.node_index,
            final(self)@.has_node ==> final(self)@.node_index < final(self)@.hierarchy@.len(),
    {
        let nodes = self.bvh2d.nodes();
        assert(children_within(nodes@, self.node_index as int, nodes@.len() as int));
        match nodes[self.node_index] {
            BVH2dNode::Node { child_r_index, child_r_aabb, .. } => {
                if self.point.contained_by(&child_r_aabb) {
                    self.node_index = child_r_index;
                    self.has_node = true;
                } else {
                    self.has_node = false;
                }
            },
            BVH2dNode::Leaf { .. } => {
                self.has_node = false;
            },
        }
    }

    /// Goes on to the next leaf that the walk comes to and yields its shape;
    /// yields nothing once the walk is over, and then leaves the walk as it
    /// is.
    pub fn next(&mut self) -> (item: Option<usize>)
        requires
            old(self).well_formed(),
        ensures
            final(self).well_formed(),
            final(self)@.hierarchy == old(self)@.hierarchy,
            final(self)@.point == old(self)@.point,
            !final(self)@.has_node,
            (match item {
                Some(shape_index) => {
                    &&& old(self).pending().len() > 0
                    &&& shape_index == old(self).pending()[0]
                    &&& final(self).pending() == old(self).pending().skip(1)
                    &&& final(self)@.node_index < final(self)@.hierarchy@.len()
                    &&& final(self)@.hierarchy@[final(self)@.node_index as int] == (BVH2dNode::Leaf {
                        shape_index,
                    })
                },
                None => {
                    &&& old(self).pending().len() == 0
                    &&& final(self).pending().len() == 0
                    &&& final(self)@.is_over()
                    &&& final(self).depth() == 0
                },
            }),
            old(self)@.is_over() ==> item is None && final(self)@ == old(self)@,
            (item, final(self)@) == old(self)@.advanced(),
    {
        loop
            invariant
                self.well_formed(),
                self@.hierarchy == old(self)@.hierarchy,
                self@.point == old(self)@.point,
                self.pending() == old(self).pending(),
                self@.advanced() == old(self)@.advanced(),
                old(self)@.is_over() ==> self@ == old(self)@,
            ensures
                self@.is_over(),
                children_follow(self@.hierarchy@),
            decreases self@.steps(),
        {
            let ghost before = self@;
            let nodes = self.bvh2d.nodes();
            if self.is_stack_empty() && !self.has_node {
                // The walk is over.
                break;
            }
            if self.has_node {
                // Keep the node at hand, and try to go on into its left child.
                proof {
                    assert(children_within(nodes@, self.node_index as int, nodes@.len() as int));
                    assert(before.stack.push(self.node_index).drop_last() == before.stack);
                }
                self.stack_push(self.node_index);
                self.move_left();
                proof {
                    assert forall|j: int| 0 <= j < self@.stack.len() implies #[trigger] below(
                        nodes@,
                        self@.stack,
                        self@.stack[j] as int,
                        j,
                    ) by {
                        if j < before.stack.len() {
                            assert(below(nodes@, before.stack, before.stack[j] as int, j));
                        }
                    }
                    let kept = hits_of_stack(nodes@, before.stack, before.point);
                    let after = hits_after(nodes@, before.node_index as int, before.point);
                    assert(self@.pending_ahead() + (after + kept) == (self@.pending_ahead() + after)
                        + kept);
                }
            } else {
                // Go back to the node that was kept last.
                proof {
                    assert(before.pending_ahead() + hits_of_stack(nodes@, before.stack, before.point)
                        == hits_of_stack(nodes@, before.stack, before.point));
                }
                self.node_index = self.stack_pop();
                proof {
                    let last = before.stack.len() - 1;
                    assert(before.stack[last] < nodes@.len());
                    assert(below(nodes@, before.stack, before.stack[last] as int, last));
                    assert(children_within(nodes@, self.node_index as int, nodes@.len() as int));
                    assert forall|j: int| 0 <= j < self@.stack.len() implies #[trigger] below(
                        nodes@,
                        self@.stack,
                        self@.stack[j] as int,
                        j,
                    ) by {
                        assert(below(nodes@, before.stack, before.stack[j] as int, j));
                    }
                }
                match nodes[self.node_index] {
                    BVH2dNode::Node { .. } => {
                        // A node was kept: try to go on into its right child.
                        self.move_right();
                    },
                    BVH2dNode::Leaf { shape_index } => {
                        // A leaf was kept: the walk has come to its shape.
                        self.has_node = false;
                        proof {
                            let kept = hits_of_stack(nodes@, self@.stack, self@.point);
                            assert(self.pending() == kept);
                            assert((seq![shape_index] + kept).skip(1) == kept);
                        }
                        return Some(shape_index);
                    },
                }
            }
        }
        proof {
            assert(self.pending() == Seq::<usize>::empty());
        }
        None
    }
}

} // verus!
