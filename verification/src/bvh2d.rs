//! The hierarchy: how it is built, what it holds, and how it is walked.
pub mod bvh2d_impl;
pub mod iter;
pub mod laws;
pub mod layout;
pub mod partition;
pub mod split;
pub mod tree;

pub use crate::bvh2d::bvh2d_impl::{BVH2d, BVH2dNode};
pub use crate::bvh2d::iter::BVH2dTraverseIterator;
