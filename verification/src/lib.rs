//! A bounding volume hierarchy over axis-aligned boxes on the integer plane.
//!
//! The hierarchy is built once from a sequence of shapes, each of which knows
//! its bounding box, and afterwards answers the question "which shapes' boxes
//! hold this point". Every function is verified against a mathematical model
//! of the tree, so the answers are proved to be exactly those of a linear scan.
use vstd::prelude::*;

pub mod aabb;
pub mod axis;
pub mod bsh;
pub mod bvh2d;
pub mod utils;

use crate::aabb::AABB;

verus! {

/// Extent of the centers below which they cannot be told apart by a bucket
/// split: on the integer grid, an extent of zero.
pub const EPSILON: i64 = 1;

/// A point of the plane.
#[derive(Copy, Clone, Debug, PartialEq, Eq, Structural)]
pub struct Point2 {
    pub x: i32,
    pub y: i32,
}

/// A difference of two points. Its components are wider than a point's, so
/// that the difference of any two points can be held.
#[derive(Copy, Clone, Debug, PartialEq, Eq, Structural)]
pub struct Vector2 {
    pub x: i64,
    pub y: i64,
}

impl Point2 {
    /// Whether the point lies in the box; the box's faces belong to it.
    pub fn contained_by(&self, aabb: &AABB) -> (inside: bool)
        ensures
            inside == aabb.contains(*self),
    {
        aabb.min.x <= self.x && self.x <= aabb.max.x && aabb.min.y <= self.y && self.y
            <= aabb.max.y
    }
}

} // verus!
