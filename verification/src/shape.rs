//! Axis-aligned rectangles: their edges, whether two of them overlap or
//! touch, and which side of one a moving rectangle has crossed.

use crate::geom::P2;
use crate::geom::V2;
use vstd::prelude::*;

verus! {

/// A side of a rectangle.
#[derive(Copy, Clone, Debug, PartialEq, Eq, Structural)]
pub enum RectSide {
    Top,
    Bottom,
    Left,
    Right,
}

/// The part of the plane that a rectangle covers: its top-left corner and
/// its extent, over the unbounded integers.
pub struct Area {
    pub x: int,
    pub y: int,
    pub w: int,
    pub h: int,
}

impl Area {
    pub open spec fn left(self) -> int {
        self.x
    }

    pub open spec fn right(self) -> int {
        self.x + self.w
    }

    pub open spec fn top(self) -> int {
        self.y
    }

    pub open spec fn bottom(self) -> int {
        self.y + self.h
    }

    /// The two areas share interior: edges that only meet do not count.
    pub open spec fn overlaps(self, other: Area) -> bool {
        &&& self.left() < other.right()
        &&& other.left() < self.right()
        &&& self.top() < other.bottom()
        &&& other.top() < self.bottom()
    }

    /// The two areas share at least an edge point.
    pub open spec fn touches(self, other: Area) -> bool {
        &&& self.left() <= other.right()
        &&& other.left() <= self.right()
        &&& self.top() <= other.bottom()
        &&& other.top() <= self.bottom()
    }

    /// The side of `self` through which a rectangle came in that moved from
    /// `before` to `after`. The sides are tried in the order right, left,
    /// bottom, top, and the first one that `before` lay beyond and `after`
    /// has passed is the answer.
    pub open spec fn crossed_side(self, before: Area, after: Area) -> RectSide {
        if before.left() >= self.right() && after.left() < self.right() {
            RectSide::Right
        } else if before.right() <= self.left() && after.right() > self.left() {
            RectSide::Left
        } else if before.top() >= self.bottom() && after.top() < self.bottom() {
            RectSide::Bottom
        } else {
            RectSide::Top
        }
    }

    /// The same extent with its left edge at `x`.
    pub open spec fn at_x(self, x: int) -> Area {
        Area { x, ..self }
    }

    /// The same extent with its top edge at `y`.
    pub open spec fn at_y(self, y: int) -> Area {
        Area { y, ..self }
    }
}

/// A rectangle given by its top-left corner and its size.
#[derive(Copy, Clone, Debug)]
pub struct Rect {
    pub pos: P2,
    pub size: V2,
}

impl View for Rect {
    type V = Area;

    open spec fn view(&self) -> Area {
        Area {
            x: self.pos.x as int,
            y: self.pos.y as int,
            w: self.size.x as int,
            h: self.size.y as int,
        }
    }
}

impl Rect {
    pub fn new(pos: P2, size: V2) -> (r: Rect)
        ensures
            r == (Rect { pos, size }),
    {
        Rect { pos, size }
    }

    #[inline]
    pub fn left(&self) -> (e: i128)
        ensures
            e == self@.left(),
    {
        self.pos.x as i128
    }

    #[inline]
    pub fn right(&self) -> (e: i128)
        ensures
            e == self@.right(),
    {
        self.pos.x as i128 + self.size.x as i128
    }

    #[inline]
    pub fn top(&self) -> (e: i128)
        ensures
            e == self@.top(),
    {
        self.pos.y as i128
    }

    #[inline]
    pub fn bottom(&self) -> (e: i128)
        ensures
            e == self@.bottom(),
    {
        self.pos.y as i128 + self.size.y as i128
    }

    pub fn overlaps(&self, other: &Rect) -> (r: bool)
        ensures
            r == self@.overlaps(other@),
    {
        !(self.right() <= other.left() || self.left() >= other.right() || self.top()
            >= other.bottom() || self.bottom() <= other.top())
    }

    pub fn touches(&self, other: &Rect) -> (r: bool)
        ensures
            r == self@.touches(other@),
    {
        !(self.right() < other.left() || self.left() > other.right() || self.top()
            > other.bottom() || self.bottom() < other.top())
    }

    /// Which side of `self` the rectangle crossed that stood at `rect_t0`,
    /// clear of `self`, and now stands at `rect_t1`, inside it.
    pub fn collided_side(&self, rect_t0: &Rect, rect_t1: &Rect) -> (side: RectSide)
        requires
            !self@.overlaps(rect_t0@),
            self@.overlaps(rect_t1@),
        ensures
            side == self@.crossed_side(rect_t0@, rect_t1@),
            side == RectSide::Right ==> rect_t0@.left() >= self@.right() > rect_t1@.left(),
            side == RectSide::Left ==> rect_t0@.right() <= self@.left() < rect_t1@.right(),
            side == RectSide::Bottom ==> rect_t0@.top() >= self@.bottom() > rect_t1@.top(),
            side == RectSide::Top ==> rect_t0@.bottom() <= self@.top() < rect_t1@.bottom(),
    {
        if rect_t0.left() >= self.right() && rect_t1.left() < self.right() {
            RectSide::Right
        } else if rect_t0.right() <= self.left() && rect_t1.right() > self.left() {
            RectSide::Left
        } else if rect_t0.top() >= self.bottom() && rect_t1.top() < self.bottom() {
            RectSide::Bottom
        } else {
            RectSide::Top
        }
    }
}

} // verus!
