//! The walk through a hierarchy, under the hierarchy's shorter name.
use vstd::prelude::*;

use crate::bvh2d::bvh2d_impl::{BVH2d, BVH2dNode};
use crate::bvh2d::iter::BVH2dTraverseIterator;

verus! {

/// A hierarchy of bounding boxes over a sequence of shapes.
pub type BSH = BVH2d;

/// A node of a hierarchy.
pub type BSHNode = BVH2dNode;

/// A walk through a hierarchy for one point.
pub type BSHTraverseIterator<'a> = BVH2dTraverseIterator<'a>;

} // verus!
