//! Axis-aligned bounding boxes.

use vstd::prelude::*;
use crate::tile::WORLD_LIMIT;

verus! {

/// A rectangle with its top-left corner at `(x, y)`, in world units.
#[derive(Clone, Copy, Debug, PartialEq, Eq, Structural)]
pub struct Bounds {
    pub x: i64,
    pub y: i64,
    pub w: i64,
    pub h: i64,
}

impl Bounds {
    /// Corner and extent lie within the world's limits.
    pub open spec fn wf(&self) -> bool {
        &&& -WORLD_LIMIT <= self.x <= WORLD_LIMIT
        &&& -WORLD_LIMIT <= self.y <= WORLD_LIMIT
        &&& 0 <= self.w <= WORLD_LIMIT
        &&& 0 <= self.h <= WORLD_LIMIT
    }

    /// The two rectangles overlap, edges included.
    pub open spec fn overlaps(&self, o: &Bounds) -> bool {
        &&& self.x <= o.x + o.w
        &&& o.x <= self.x + self.w
        &&& self.y <= o.y + o.h
        &&& o.y <= self.y + self.h
    }

    pub fn new(x: i64, y: i64, w: i64, h: i64) -> (r: Bounds)
        ensures
            r == (Bounds { x, y, w, h }),
    {
        Bounds { x, y, w, h }
    }

    /// Whether the two rectangles overlap, edges included.
    pub fn intersects(&self, o: &Bounds) -> (r: bool)
        requires
            self.wf(),
            o.wf(),
        ensures
            r == self.overlaps(o),
    {
        self.x <= o.x + o.w && o.x <= self.x + self.w && self.y <= o.y + o.h && o.y <= self.y + self.h
    }

    /// The same rectangle moved to corner `(x, y)`.
    pub fn position(&self, x: i64, y: i64) -> (r: Bounds)
        ensures
            r == (Bounds { x, y, w: self.w, h: self.h }),
    {
        Bounds { x, y, w: self.w, h: self.h }
    }
}

} // verus!
