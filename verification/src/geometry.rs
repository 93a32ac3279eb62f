//! Integer geometry in logical pixels: rectangles and the small arithmetic
//! helpers (clamping, halving toward zero) that the placement rules share.

use vstd::prelude::*;

verus! {

/// An axis-aligned rectangle in logical pixels: top-left corner and size.
#[derive(Clone, Copy, Debug, PartialEq, Eq, Structural)]
pub struct Rect {
    pub x: i32,
    pub y: i32,
    pub w: i32,
    pub h: i32,
}

/// `a + b` saturated to the `i32` range.
pub open spec fn sat_add(a: int, b: int) -> int {
    if a + b > i32::MAX {
        i32::MAX as int
    } else if a + b < i32::MIN {
        i32::MIN as int
    } else {
        a + b
    }
}

/// `a / b` rounded toward zero (Rust's integer division), for `b > 0`.
pub open spec fn div_trunc(a: int, b: int) -> int {
    if a >= 0 {
        a / b
    } else {
        -((-a) / b)
    }
}

/// `v` limited to `[lo, hi]`.
pub open spec fn clamp_to(v: int, lo: int, hi: int) -> int {
    if v < lo {
        lo
    } else if v > hi {
        hi
    } else {
        v
    }
}

/// The larger of two integers.
pub open spec fn max_of(a: int, b: int) -> int {
    if a >= b {
        a
    } else {
        b
    }
}

/// The smaller of two integers.
pub open spec fn min_of(a: int, b: int) -> int {
    if a <= b {
        a
    } else {
        b
    }
}

/// `v` limited to `[lo, hi]`; `lo <= hi` as `i32::clamp` demands.
pub fn clamp_i32(v: i32, lo: i32, hi: i32) -> (r: i32)
    requires
        lo <= hi,
    ensures
        r == clamp_to(v as int, lo as int, hi as int),
{
    if v < lo {
        lo
    } else if v > hi {
        hi
    } else {
        v
    }
}

/// The larger of two `i32`s.
pub fn max_i32(a: i32, b: i32) -> (r: i32)
    ensures
        r == max_of(a as int, b as int),
{
    if a >= b {
        a
    } else {
        b
    }
}

/// The smaller of two `i32`s.
pub fn min_i32(a: i32, b: i32) -> (r: i32)
    ensures
        r == min_of(a as int, b as int),
{
    if a <= b {
        a
    } else {
        b
    }
}

/// `a + b` saturated to the `i32` range.
pub fn sat_add_i32(a: i32, b: i32) -> (r: i32)
    ensures
        r == sat_add(a as int, b as int),
{
    let s = a as i64 + b as i64;
    if s > i32::MAX as i64 {
        i32::MAX
    } else if s < i32::MIN as i64 {
        i32::MIN
    } else {
        s as i32
    }
}

impl Rect {
    pub fn new(x: i32, y: i32, w: i32, h: i32) -> (r: Rect)
        ensures
            r == (Rect { x, y, w, h }),
    {
        Rect { x, y, w, h }
    }

    /// Whether the point lies inside: the left/top edges are inside, the
    /// right/bottom edges (computed with saturation) are not.
    pub open spec fn spec_contains(self, px: i32, py: i32) -> bool {
        &&& px >= self.x
        &&& px < sat_add(self.x as int, self.w as int)
        &&& py >= self.y
        &&& py < sat_add(self.y as int, self.h as int)
    }

    /// Whether the point lies inside (see [`Rect::spec_contains`]).
    pub fn contains(&self, px: i32, py: i32) -> (r: bool)
        ensures
            r == self.spec_contains(px, py),
    {
        px >= self.x && px < sat_add_i32(self.x, self.w) && py >= self.y && py < sat_add_i32(self.y, self.h)
    }

    /// Whether the two rectangles share interior points (touching edges do not count).
    pub open spec fn spec_overlaps(self, o: Rect) -> bool {
        &&& self.x < sat_add(o.x as int, o.w as int)
        &&& o.x < sat_add(self.x as int, self.w as int)
        &&& self.y < sat_add(o.y as int, o.h as int)
        &&& o.y < sat_add(self.y as int, self.h as int)
    }

    /// Whether the two rectangles share interior points (see [`Rect::spec_overlaps`]).
    pub fn overlaps(&self, o: &Rect) -> (r: bool)
        ensures
            r == self.spec_overlaps(*o),
    {
        self.x < sat_add_i32(o.x, o.w) && o.x < sat_add_i32(self.x, self.w) && self.y < sat_add_i32(o.y, o.h)
            && o.y < sat_add_i32(self.y, self.h)
    }
}

} // verus!
