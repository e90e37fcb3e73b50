//! Axis-aligned bounding boxes.
use vstd::prelude::*;

use crate::axis::Axis;
use crate::{Point2, Vector2};

verus! {

/// An axis-aligned box, given by its least and greatest corner.
///
/// A box with `min` beyond `max` on either axis holds no point. One such box,
/// [`AABB::empty`], is the neutral element of [`AABB::join`].
#[derive(Copy, Clone, Debug, PartialEq, Eq, Structural)]
pub struct AABB {
    pub min: Point2,
    pub max: Point2,
}

/// Something that has a bounding box.
///
/// Nothing is asked of an implementation. What an implementation promises of
/// its box, the contracts of the hierarchy hand on: see [`are_boxes_of`].
pub trait Bounded {
    /// The bounding box of the shape.
    fn aabb(&self) -> AABB;
}

/// Whether `boxes` are boxes of the shapes, one for each in their order: for
/// each shape a box that its `aabb` may give, by what the implementation
/// promises of it.
pub open spec fn are_boxes_of<Shape: Bounded>(boxes: Seq<AABB>, shapes: Seq<Shape>) -> bool {
    &&& boxes.len() == shapes.len()
    &&& forall|i: int|
        0 <= i < shapes.len() ==> call_ensures(Shape::aabb, (&shapes[i],), #[trigger] boxes[i])
}

impl Bounded for AABB {
    fn aabb(&self) -> (aabb: AABB)
        ensures
            aabb == *self,
    {
        *self
    }
}

/// The lesser of two integers.
pub open spec fn spec_min(a: int, b: int) -> int {
    if a < b {
        a
    } else {
        b
    }
}

/// The greater of two integers.
pub open spec fn spec_max(a: int, b: int) -> int {
    if a > b {
        a
    } else {
        b
    }
}

/// Half of `d`, rounded towards zero.
pub open spec fn spec_half(d: int) -> int {
    if d >= 0 {
        d / 2
    } else {
        -((-d) / 2)
    }
}

impl AABB {
    /// Whether `p` lies in the box, faces included.
    pub open spec fn contains(self, p: Point2) -> bool {
        self.min.x <= p.x <= self.max.x && self.min.y <= p.y <= self.max.y
    }

    /// The box that holds no point and is neutral for [`AABB::spec_join`].
    pub open spec fn spec_empty() -> AABB {
        AABB {
            min: Point2 { x: i32::MAX, y: i32::MAX },
            max: Point2 { x: i32::MIN, y: i32::MIN },
        }
    }

    /// The least box that holds both boxes.
    pub open spec fn spec_join(self, other: AABB) -> AABB {
        AABB {
            min: Point2 {
                x: spec_min(self.min.x as int, other.min.x as int) as i32,
                y: spec_min(self.min.y as int, other.min.y as int) as i32,
            },
            max: Point2 {
                x: spec_max(self.max.x as int, other.max.x as int) as i32,
                y: spec_max(self.max.y as int, other.max.y as int) as i32,
            },
        }
    }

    /// The least box that holds the box and the point.
    pub open spec fn spec_grow(self, p: Point2) -> AABB {
        self.spec_join(AABB { min: p, max: p })
    }

    /// Width and height: `max - min`, negative where the box is inverted.
    pub open spec fn spec_size(self) -> Vector2 {
        Vector2 {
            x: (self.max.x - self.min.x) as i64,
            y: (self.max.y - self.min.y) as i64,
        }
    }

    /// The point half a size beyond `min`, each half rounded towards zero.
    pub open spec fn spec_center(self) -> Point2 {
        Point2 {
            x: (self.min.x + spec_half(self.max.x - self.min.x)) as i32,
            y: (self.min.y + spec_half(self.max.y - self.min.y)) as i32,
        }
    }

    /// Whether no point lies in the box.
    pub open spec fn spec_is_empty(self) -> bool {
        self.min.x > self.max.x || self.min.y > self.max.y
    }

    /// Width times height.
    pub open spec fn spec_surface_area(self) -> int {
        (self.max.x - self.min.x) * (self.max.y - self.min.y)
    }

    /// The axis along which the box is longer; `Y` where both are equal.
    pub open spec fn spec_largest_axis(self) -> Axis {
        if self.max.x - self.min.x > self.max.y - self.min.y {
            Axis::X
        } else {
            Axis::Y
        }
    }

    /// The extent of the box along `axis`.
    pub open spec fn spec_extent(self, axis: Axis) -> int {
        self.max.spec_index(axis) - self.min.spec_index(axis)
    }

    /// The box between the two corners.
    pub fn with_bounds(min: Point2, max: Point2) -> (aabb: AABB)
        ensures
            aabb == (AABB { min, max }),
    {
        AABB { min, max }
    }

    /// The box that holds no point and is neutral for [`AABB::join`].
    pub fn empty() -> (aabb: AABB)
        ensures
            aabb == Self::spec_empty(),
    {
        AABB {
            min: Point2 { x: i32::MAX, y: i32::MAX },
            max: Point2 { x: i32::MIN, y: i32::MIN },
        }
    }

    /// The least box that holds both boxes.
    pub fn join(&self, other: &AABB) -> (joined: AABB)
        ensures
            joined == self.spec_join(*other),
    {
        AABB::with_bounds(
            Point2 {
                x: if self.min.x < other.min.x { self.min.x } else { other.min.x },
                y: if self.min.y < other.min.y { self.min.y } else { other.min.y },
            },
            Point2 {
                x: if self.max.x > other.max.x { self.max.x } else { other.max.x },
                y: if self.max.y > other.max.y { self.max.y } else { other.max.y },
            },
        )
    }

    /// Widens the box to the least box that holds the other box too.
    pub fn join_mut(&mut self, other: &AABB)
        ensures
            *final(self) == old(self).spec_join(*other),
    {
        let joined = self.join(other);
        *self = joined;
    }

    /// The least box that holds the box and the point.
    pub fn grow(&self, other: &Point2) -> (grown: AABB)
        ensures
            grown == self.spec_grow(*other),
    {
        self.join(&AABB { min: *other, max: *other })
    }

    /// Width and height, negative where `min` lies beyond `max`.
    pub fn size(&self) -> (size: Vector2)
        ensures
            size == self.spec_size(),
    {
        let max_x: i64 = self.max.x as i64;
        let min_x: i64 = self.min.x as i64;
        let max_y: i64 = self.max.y as i64;
        let min_y: i64 = self.min.y as i64;
        Vector2 { x: max_x - min_x, y: max_y - min_y }
    }

    /// The point in the middle, half a size beyond `min`.
    pub fn center(&self) -> (center: Point2)
        ensures
            center == self.spec_center(),
    {
        let size = self.size();
        let min_x: i64 = self.min.x as i64;
        let min_y: i64 = self.min.y as i64;
        let x: i64 = min_x + size.x / 2;
        let y: i64 = min_y + size.y / 2;
        Point2 { x: x as i32, y: y as i32 }
    }

    /// Whether no point lies in the box.
    pub fn is_empty(&self) -> (empty: bool)
        ensures
            empty == self.spec_is_empty(),
    {
        self.min.x > self.max.x || self.min.y > self.max.y
    }

    /// Width times height.
    pub fn surface_area(&self) -> (area: i128)
        ensures
            area == self.spec_surface_area(),
            -0x1_0000_0000_0000_0000 < area < 0x1_0000_0000_0000_0000,
    {
        let size = self.size();
        let w: i128 = size.x as i128;
        let h: i128 = size.y as i128;
        proof {
            lemma_surface_area_bounds(*self);
        }
        w * h
    }

    /// The axis along which the box is longer; `Y` where both are equal.
    pub fn largest_axis(&self) -> (axis: Axis)
        ensures
            axis == self.spec_largest_axis(),
    {
        let size = self.size();
        if size.x > size.y {
            Axis::X
        } else {
            Axis::Y
        }
    }
}

} // verus!

verus! {

/// A box has one bounding box, itself: the boxes of boxes are those boxes.
pub proof fn lemma_boxes_of_boxes(boxes: Seq<AABB>, shapes: Seq<AABB>)
    requires
        are_boxes_of(boxes, shapes),
    ensures
        boxes == shapes,
{
    assert(boxes =~= shapes);
}

/// The empty box is neutral for the union of boxes, on either side.
pub proof fn lemma_join_empty(a: AABB)
    ensures
        AABB::spec_empty().spec_join(a) == a,
        a.spec_join(AABB::spec_empty()) == a,
{
}

/// The union of boxes does not depend on the order of the two.
pub proof fn lemma_join_commutative(a: AABB, b: AABB)
    ensures
        a.spec_join(b) == b.spec_join(a),
{
}

/// The union of three boxes does not depend on how they are grouped.
pub proof fn lemma_join_associative(a: AABB, b: AABB, c: AABB)
    ensures
        a.spec_join(b).spec_join(c) == a.spec_join(b.spec_join(c)),
{
}

/// The area of a box, whichever way its corners lie, is below `2^64` in
/// magnitude.
pub proof fn lemma_surface_area_bounds(a: AABB)
    ensures
        -0x1_0000_0000_0000_0000 < a.spec_surface_area() < 0x1_0000_0000_0000_0000,
{
    let w = a.max.x - a.min.x;
    let h = a.max.y - a.min.y;
    assert(-0x1_0000_0000_0000_0000 < w * h < 0x1_0000_0000_0000_0000) by (nonlinear_arith)
        requires
            -0x1_0000_0000 < w < 0x1_0000_0000,
            -0x1_0000_0000 < h < 0x1_0000_0000,
    ;
}

} // verus!
