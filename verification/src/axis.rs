//! The two axes of the plane.
use vstd::prelude::*;

use crate::Point2;

verus! {

/// An axis of the plane.
#[derive(Copy, Clone, Debug, PartialEq, Eq, Structural)]
pub enum Axis {
    X,
    Y,
}

impl Point2 {
    /// The coordinate along `axis`, as a mathematical integer.
    pub open spec fn spec_index(self, axis: Axis) -> int {
        match axis {
            Axis::X => self.x as int,
            Axis::Y => self.y as int,
        }
    }

    /// The coordinate along `axis`.
    pub fn index(&self, axis: Axis) -> (coordinate: i32)
        ensures
            coordinate == self.spec_index(axis),
    {
        match axis {
            Axis::X => self.x,
            Axis::Y => self.y,
        }
    }
}

} // verus!
