use vstd::prelude::*;

use crate::item::Vector;

verus! {

/// Whether the half-open intervals `[s1, e1)` and `[s2, e2)` share a point.
/// An empty interval shares a point with nothing.
pub open spec fn intervals_overlap(s1: int, e1: int, s2: int, e2: int) -> bool {
    &&& s1 < e1
    &&& s2 < e2
    &&& s1 < e2
    &&& s2 < e1
}

/// An axis-aligned rectangle spanning `[x, x + w)` by `[y, y + h)`.
#[derive(Debug, Clone, Copy, PartialEq, Eq, Structural)]
pub struct Rectangle {
    pub x: u32,
    pub y: u32,
    pub w: u32,
    pub h: u32,
}

impl Rectangle {
    /// The point lies in the half-open box.
    pub open spec fn covers(self, p: (u32, u32)) -> bool {
        &&& self.x <= p.0 < self.x + self.w
        &&& self.y <= p.1 < self.y + self.h
    }

    /// The two boxes overlap on both axes.
    pub open spec fn overlaps(self, other: Rectangle) -> bool {
        &&& intervals_overlap(self.x as int, self.x + self.w, other.x as int, other.x + other.w)
        &&& intervals_overlap(self.y as int, self.y + self.h, other.y as int, other.y + other.h)
    }

    /// The far edges lie within the coordinate space, so every sub-box has a
    /// representable origin.
    pub open spec fn fits(self) -> bool {
        &&& self.x + self.w <= u32::MAX + 1
        &&& self.y + self.h <= u32::MAX + 1
    }

    /// The four quadrants of half width and half height, in the order
    /// north-west, north-east, south-west, south-east.
    pub open spec fn quadrant(self, i: int) -> Rectangle {
        let hw = self.w / 2;
        let hh = self.h / 2;
        if i == 0 {
            Rectangle { x: self.x, y: self.y, w: hw, h: hh }
        } else if i == 1 {
            Rectangle { x: (self.x + hw) as u32, y: self.y, w: hw, h: hh }
        } else if i == 2 {
            Rectangle { x: self.x, y: (self.y + hh) as u32, w: hw, h: hh }
        } else {
            Rectangle { x: (self.x + hw) as u32, y: (self.y + hh) as u32, w: hw, h: hh }
        }
    }

    /// Each quadrant lies inside its rectangle and fits the coordinate space.
    pub proof fn lemma_quadrant_inside(self, i: int, p: (u32, u32))
        requires
            self.fits(),
        ensures
            self.quadrant(i).fits(),
            self.quadrant(i).covers(p) ==> self.covers(p),
    {
    }

    /// No point lies in two different quadrants.
    pub proof fn lemma_quadrants_disjoint(self, i: int, j: int, p: (u32, u32))
        requires
            self.fits(),
            0 <= i < 4,
            0 <= j < 4,
            i != j,
        ensures
            !(self.quadrant(i).covers(p) && self.quadrant(j).covers(p)),
    {
    }

    /// Two rectangles that share a point overlap.
    pub proof fn lemma_common_point_overlaps(self, other: Rectangle, p: (u32, u32))
        requires
            self.covers(p),
            other.covers(p),
        ensures
            self.overlaps(other),
            other.overlaps(self),
    {
    }

    /// Creates a rectangle from its origin and extents.
    pub fn new(x: u32, y: u32, w: u32, h: u32) -> (r: Self)
        ensures
            r == (Rectangle { x, y, w, h }),
    {
        Self { x, y, w, h }
    }

    /// The north-west corner, which is the origin.
    pub fn top_left_corner(&self) -> (r: (u32, u32))
        ensures
            r == (self.x, self.y),
    {
        (self.x, self.y)
    }

    /// Whether the far edges lie within the coordinate space; see [`Self::fits`].
    pub(crate) fn in_space(&self) -> (r: bool)
        ensures
            r == self.fits(),
    {
        self.x as u64 + self.w as u64 <= 0x1_0000_0000u64 && self.y as u64 + self.h as u64
            <= 0x1_0000_0000u64
    }

    /// The `i`-th quadrant; see [`Self::quadrant`].
    pub(crate) fn quadrant_at(&self, i: usize) -> (r: Rectangle)
        requires
            self.fits(),
        ensures
            r == self.quadrant(i as int),
    {
        let w = self.w / 2;
        let h = self.h / 2;
        if i == 0 {
            Rectangle::new(self.x, self.y, w, h)
        } else if i == 1 {
            Rectangle::new(self.x + w, self.y, w, h)
        } else if i == 2 {
            Rectangle::new(self.x, self.y + h, w, h)
        } else {
            Rectangle::new(self.x + w, self.y + h, w, h)
        }
    }

    /// Whether the item's point lies in the rectangle.
    pub fn contains<T: Vector>(&self, item: &T) -> (r: bool)
        ensures
            r == self.covers(item.point()),
    {
        let (x, y) = item.as_point();
        self.x <= x && (x as u64) < self.x as u64 + self.w as u64 && self.y <= y && (y as u64)
            < self.y as u64 + self.h as u64
    }

    /// Whether the two rectangles overlap; see [`intervals_overlap`].
    pub fn intersects(&self, range: &Rectangle) -> (r: bool)
        ensures
            r == self.overlaps(*range),
    {
        Self::range_intersects(self.get_range_x(), range.get_range_x())
            && Self::range_intersects(self.get_range_y(), range.get_range_y())
    }

    /// The horizontal extent as `(start, end)`.
    fn get_range_x(&self) -> (r: (u64, u64))
        ensures
            r.0 == self.x,
            r.1 == self.x + self.w,
    {
        (self.x as u64, self.x as u64 + self.w as u64)
    }

    /// The vertical extent as `(start, end)`.
    fn get_range_y(&self) -> (r: (u64, u64))
        ensures
            r.0 == self.y,
            r.1 == self.y + self.h,
    {
        (self.y as u64, self.y as u64 + self.h as u64)
    }

    /// Whether two half-open intervals, each given as `(start, end)`, overlap:
    /// taking first the one that starts earlier, the later one must be
    /// non-empty and start before the earlier one ends.
    fn range_intersects(range1: (u64, u64), range2: (u64, u64)) -> (r: bool)
        ensures
            r == intervals_overlap(range1.0 as int, range1.1 as int, range2.0 as int, range2.1 as int),
    {
        let (first, second) = if range1.0 > range2.0 {
            (range2, range1)
        } else {
            (range1, range2)
        };
        second.0 < second.1 && second.0 < first.1
    }
}

/// Overlap does not depend on the order of the two rectangles.
pub proof fn lemma_overlaps_symmetric(a: Rectangle, b: Rectangle)
    ensures
        a.overlaps(b) == b.overlaps(a),
{
}

/// A rectangle without area overlaps nothing.
pub proof fn lemma_flat_overlaps_nothing(a: Rectangle, b: Rectangle)
    requires
        a.w == 0 || a.h == 0,
    ensures
        !a.overlaps(b),
        !b.overlaps(a),
{
}

} // verus!
