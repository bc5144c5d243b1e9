//! Rectangles and the halving rule that every split applies.

use vstd::prelude::*;

verus! {

/// An axis-aligned rectangle in logical output coordinates.
#[derive(Clone, Copy, Debug, PartialEq, Eq, Structural)]
pub struct Rect {
    pub x: i32,
    pub y: i32,
    pub w: i32,
    pub h: i32,
}

/// The direction along which a region is divided.
///
/// `Horizontal` divides the width (children left and right); `Vertical`
/// divides the height (children top and bottom).
#[derive(Clone, Copy, Debug, PartialEq, Eq, Structural)]
pub enum Split {
    Vertical,
    Horizontal,
}

impl Rect {
    /// Sizes are non-negative and the far edges fit the coordinate type.
    pub open spec fn valid(self) -> bool {
        &&& 0 <= self.w
        &&& 0 <= self.h
        &&& self.x + self.w <= i32::MAX
        &&& self.y + self.h <= i32::MAX
    }

    pub open spec fn area(self) -> int {
        self.w * self.h
    }

    pub fn new(x: i32, y: i32, w: i32, h: i32) -> (r: Rect)
        ensures
            r == (Rect { x, y, w, h }),
    {
        Rect { x, y, w, h }
    }
}

/// The first child's rectangle: the floor half along `axis`.
pub open spec fn first_half(r: Rect, axis: Split) -> Rect {
    match axis {
        Split::Horizontal => Rect { x: r.x, y: r.y, w: (r.w / 2) as i32, h: r.h },
        Split::Vertical => Rect { x: r.x, y: r.y, w: r.w, h: (r.h / 2) as i32 },
    }
}

/// The second child's rectangle: the remainder, placed right after the first.
pub open spec fn second_half(r: Rect, axis: Split) -> Rect {
    match axis {
        Split::Horizontal => Rect {
            x: (r.x + r.w / 2) as i32,
            y: r.y,
            w: (r.w - r.w / 2) as i32,
            h: r.h,
        },
        Split::Vertical => Rect {
            x: r.x,
            y: (r.y + r.h / 2) as i32,
            w: r.w,
            h: (r.h - r.h / 2) as i32,
        },
    }
}

/// Divides `r` along `axis`: the first part gets the floor half, the second
/// the remainder.
pub fn halves(r: Rect, axis: Split) -> (res: (Rect, Rect))
    requires
        r.valid(),
    ensures
        res.0 == first_half(r, axis),
        res.1 == second_half(r, axis),
        res.0.valid(),
        res.1.valid(),
{
    match axis {
        Split::Horizontal => {
            let half = r.w / 2;
            (Rect { x: r.x, y: r.y, w: half, h: r.h }, Rect {
                x: r.x + half,
                y: r.y,
                w: r.w - half,
                h: r.h,
            })
        },
        Split::Vertical => {
            let half = r.h / 2;
            (Rect { x: r.x, y: r.y, w: r.w, h: half }, Rect {
                x: r.x,
                y: r.y + half,
                w: r.w,
                h: r.h - half,
            })
        },
    }
}

/// `a` and `b` tile `r` exactly when divided along `axis`: they share the
/// undivided dimension, `a` starts at `r`'s origin, `b` starts where `a`
/// ends, their sizes along the axis add up to `r`'s, and `b` is the larger by
/// at most one unit.
pub open spec fn tiles(r: Rect, a: Rect, b: Rect, axis: Split) -> bool {
    &&& a.x == r.x && a.y == r.y
    &&& a.area() + b.area() == r.area()
    &&& match axis {
        Split::Horizontal => {
            &&& a.h == r.h && b.h == r.h
            &&& b.y == a.y && b.x == a.x + a.w
            &&& a.w + b.w == r.w
            &&& 0 <= b.w - a.w <= 1
        },
        Split::Vertical => {
            &&& a.w == r.w && b.w == r.w
            &&& b.x == a.x && b.y == a.y + a.h
            &&& a.h + b.h == r.h
            &&& 0 <= b.h - a.h <= 1
        },
    }
}

/// The two halves of a valid rectangle are valid and tile it exactly.
pub proof fn lemma_halves_tile(r: Rect, axis: Split)
    requires
        r.valid(),
    ensures
        first_half(r, axis).valid(),
        second_half(r, axis).valid(),
        tiles(r, first_half(r, axis), second_half(r, axis), axis),
{
    let a = first_half(r, axis);
    let b = second_half(r, axis);
    match axis {
        Split::Horizontal => {
            assert(a.w * r.h + b.w * r.h == r.w * r.h) by (nonlinear_arith)
                requires
                    a.w + b.w == r.w,
            ;
        },
        Split::Vertical => {
            assert(r.w * a.h + r.w * b.h == r.w * r.h) by (nonlinear_arith)
                requires
                    a.h + b.h == r.h,
            ;
        },
    }
}

} // verus!
