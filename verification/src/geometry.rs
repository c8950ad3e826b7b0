//! Integer pixel geometry. E-ink framebuffers are addressed in whole pixels, so
//! everything here is `i32`.

use vstd::prelude::*;

verus! {

/// True when `x` is representable as an `i32`.
pub open spec fn fits_i32(x: int) -> bool {
    i32::MIN <= x <= i32::MAX
}

pub open spec fn max_int(a: int, b: int) -> int {
    if a >= b { a } else { b }
}

pub open spec fn min_int(a: int, b: int) -> int {
    if a <= b { a } else { b }
}

/// A width/height pair in pixels.
#[derive(Debug, Clone, Copy, PartialEq, Eq, Structural, Default)]
pub struct Size {
    pub w: i32,
    pub h: i32,
}

impl Size {
    pub fn new(w: i32, h: i32) -> (s: Size)
        ensures
            s == (Size { w, h }),
    {
        Size { w, h }
    }

    pub open spec fn zero() -> Size {
        Size { w: 0, h: 0 }
    }
}

/// A point in pixels, origin top-left.
#[derive(Debug, Clone, Copy, PartialEq, Eq, Structural, Default)]
pub struct Point {
    pub x: i32,
    pub y: i32,
}

impl Point {
    pub fn new(x: i32, y: i32) -> (p: Point)
        ensures
            p == (Point { x, y }),
    {
        Point { x, y }
    }
}

/// An axis-aligned rectangle in pixels.
#[derive(Debug, Clone, Copy, PartialEq, Eq, Structural, Default)]
pub struct Rect {
    pub x: i32,
    pub y: i32,
    pub w: i32,
    pub h: i32,
}

impl Rect {
    /// Right edge as a mathematical integer.
    pub open spec fn right_spec(self) -> int {
        self.x + self.w
    }

    /// Bottom edge as a mathematical integer.
    pub open spec fn bottom_spec(self) -> int {
        self.y + self.h
    }

    /// Both far edges are representable, so `right`/`bottom` do not overflow.
    pub open spec fn edges_fit(self) -> bool {
        fits_i32(self.right_spec()) && fits_i32(self.bottom_spec())
    }

    pub open spec fn is_empty_spec(self) -> bool {
        self.w <= 0 || self.h <= 0
    }

    pub open spec fn zero() -> Rect {
        Rect { x: 0, y: 0, w: 0, h: 0 }
    }

    /// Half-open containment of a point.
    pub open spec fn contains_spec(self, p: Point) -> bool {
        self.x <= p.x < self.right_spec() && self.y <= p.y < self.bottom_spec()
    }

    pub open spec fn area_spec(self) -> int {
        max_int(self.w as int, 0) * max_int(self.h as int, 0)
    }

    /// Integer result of `union` (no overflow reasoning).
    pub open spec fn union_spec(self, other: Rect) -> Rect {
        if self.is_empty_spec() {
            other
        } else if other.is_empty_spec() {
            self
        } else {
            let x = min_int(self.x as int, other.x as int);
            let y = min_int(self.y as int, other.y as int);
            let r = max_int(self.right_spec(), other.right_spec());
            let b = max_int(self.bottom_spec(), other.bottom_spec());
            Rect { x: x as i32, y: y as i32, w: (r - x) as i32, h: (b - y) as i32 }
        }
    }

    /// The conditions under which `union` computes without overflow.
    pub open spec fn union_fits(self, other: Rect) -> bool {
        self.is_empty_spec() || other.is_empty_spec() || {
            let x = min_int(self.x as int, other.x as int);
            let y = min_int(self.y as int, other.y as int);
            &&& self.edges_fit()
            &&& other.edges_fit()
            &&& fits_i32(max_int(self.right_spec(), other.right_spec()) - x)
            &&& fits_i32(max_int(self.bottom_spec(), other.bottom_spec()) - y)
        }
    }

    pub open spec fn intersection_spec(self, other: Rect) -> Rect {
        let x = max_int(self.x as int, other.x as int);
        let y = max_int(self.y as int, other.y as int);
        let r = min_int(self.right_spec(), other.right_spec());
        let b = min_int(self.bottom_spec(), other.bottom_spec());
        if r <= x || b <= y {
            Rect::zero()
        } else {
            Rect { x: x as i32, y: y as i32, w: (r - x) as i32, h: (b - y) as i32 }
        }
    }

    pub open spec fn contains_rect_spec(self, other: Rect) -> bool {
        other.is_empty_spec() || (other.x >= self.x && other.y >= self.y
            && other.right_spec() <= self.right_spec() && other.bottom_spec()
            <= self.bottom_spec())
    }

    pub open spec fn intersects_spec(self, other: Rect) -> bool {
        &&& !self.is_empty_spec()
        &&& !other.is_empty_spec()
        &&& self.x < other.right_spec()
        &&& other.x < self.right_spec()
        &&& self.y < other.bottom_spec()
        &&& other.y < self.bottom_spec()
    }

    pub open spec fn inset_fits(self, pad: i32) -> bool {
        &&& fits_i32(self.x + pad)
        &&& fits_i32(self.y + pad)
        &&& fits_i32(2 * pad)
        &&& fits_i32(self.w - 2 * pad)
        &&& fits_i32(self.h - 2 * pad)
    }

    pub open spec fn inset_spec(self, pad: i32) -> Rect {
        Rect {
            x: (self.x + pad) as i32,
            y: (self.y + pad) as i32,
            w: max_int(self.w - 2 * pad, 0) as i32,
            h: max_int(self.h - 2 * pad, 0) as i32,
        }
    }

    pub fn new(x: i32, y: i32, w: i32, h: i32) -> (r: Rect)
        ensures
            r == (Rect { x, y, w, h }),
    {
        Rect { x, y, w, h }
    }

    pub fn from_origin_size(origin: Point, size: Size) -> (r: Rect)
        ensures
            r == (Rect { x: origin.x, y: origin.y, w: size.w, h: size.h }),
    {
        Rect { x: origin.x, y: origin.y, w: size.w, h: size.h }
    }

    pub fn size(&self) -> (s: Size)
        ensures
            s == (Size { w: self.w, h: self.h }),
    {
        Size::new(self.w, self.h)
    }

    pub fn right(&self) -> (r: i32)
        requires
            fits_i32(self.right_spec()),
        ensures
            r == self.right_spec(),
    {
        self.x + self.w
    }

    pub fn bottom(&self) -> (b: i32)
        requires
            fits_i32(self.bottom_spec()),
        ensures
            b == self.bottom_spec(),
    {
        self.y + self.h
    }

    /// Area in pixels; negative extents count as zero.
    pub fn area(&self) -> (a: i64)
        ensures
            a == self.area_spec(),
            a >= 0,
    {
        let w: i64 = if self.w > 0 { self.w as i64 } else { 0 };
        let h: i64 = if self.h > 0 { self.h as i64 } else { 0 };
        assert(0 <= w * h <= (i32::MAX as int) * (i32::MAX as int)) by (nonlinear_arith)
            requires
                0 <= w <= i32::MAX,
                0 <= h <= i32::MAX,
        ;
        w * h
    }

    pub fn is_empty(&self) -> (e: bool)
        ensures
            e == self.is_empty_spec(),
    {
        self.w <= 0 || self.h <= 0
    }

    /// True if `p` lies within the rectangle (left/top inclusive, right/bottom
    /// exclusive).
    pub fn contains(&self, p: Point) -> (c: bool)
        requires
            self.edges_fit(),
        ensures
            c == self.contains_spec(p),
    {
        p.x >= self.x && p.x < self.right() && p.y >= self.y && p.y < self.bottom()
    }

    /// The smallest rectangle containing both `self` and `other`. Empty
    /// rectangles are ignored so `union` acts as a damage accumulator.
    pub fn union(&self, other: Rect) -> (u: Rect)
        requires
            self.union_fits(other),
        ensures
            u == self.union_spec(other),
    {
        if self.is_empty() {
            return other;
        }
        if other.is_empty() {
            return *self;
        }
        let x = if self.x <= other.x { self.x } else { other.x };
        let y = if self.y <= other.y { self.y } else { other.y };
        let sr = self.right();
        let or = other.right();
        let sb = self.bottom();
        let ob = other.bottom();
        let right = if sr >= or { sr } else { or };
        let bottom = if sb >= ob { sb } else { ob };
        Rect::new(x, y, right - x, bottom - y)
    }

    /// The overlapping region of the two rectangles (the zero rectangle if they
    /// don't intersect).
    pub fn intersection(&self, other: Rect) -> (i: Rect)
        requires
            self.edges_fit(),
            other.edges_fit(),
        ensures
            i == self.intersection_spec(other),
    {
        let x = if self.x >= other.x { self.x } else { other.x };
        let y = if self.y >= other.y { self.y } else { other.y };
        let sr = self.right();
        let or = other.right();
        let sb = self.bottom();
        let ob = other.bottom();
        let right = if sr <= or { sr } else { or };
        let bottom = if sb <= ob { sb } else { ob };
        if right <= x || bottom <= y {
            Rect::new(0, 0, 0, 0)
        } else {
            Rect::new(x, y, right - x, bottom - y)
        }
    }

    /// True if `other` lies entirely within `self`. Empty rectangles are
    /// contained by anything.
    pub fn contains_rect(&self, other: Rect) -> (c: bool)
        requires
            self.edges_fit(),
            other.is_empty_spec() || other.edges_fit(),
        ensures
            c == self.contains_rect_spec(other),
    {
        other.is_empty() || (other.x >= self.x && other.y >= self.y && other.right()
            <= self.right() && other.bottom() <= self.bottom())
    }

    /// True if the two rectangles overlap at all.
    pub fn intersects(&self, other: Rect) -> (b: bool)
        requires
            self.is_empty_spec() || other.is_empty_spec() || (self.edges_fit()
                && other.edges_fit()),
        ensures
            b == self.intersects_spec(other),
    {
        !self.is_empty() && !other.is_empty() && self.x < other.right() && other.x
            < self.right() && self.y < other.bottom() && other.y < self.bottom()
    }

    /// Whether the right and bottom edges fit an `i32`.
    pub fn edges_fit_check(&self) -> (b: bool)
        ensures
            b == self.edges_fit(),
    {
        let r = self.x as i64 + self.w as i64;
        let b = self.y as i64 + self.h as i64;
        i32::MIN as i64 <= r && r <= i32::MAX as i64 && i32::MIN as i64 <= b && b <= i32::MAX as i64
    }

    /// Whether `union` can take these operands.
    pub fn union_fits_check(&self, other: Rect) -> (b: bool)
        ensures
            b == self.union_fits(other),
    {
        if self.is_empty() || other.is_empty() {
            return true;
        }
        if !self.edges_fit_check() || !other.edges_fit_check() {
            return false;
        }
        let x = if self.x <= other.x { self.x as i64 } else { other.x as i64 };
        let y = if self.y <= other.y { self.y as i64 } else { other.y as i64 };
        let sr = self.x as i64 + self.w as i64;
        let or = other.x as i64 + other.w as i64;
        let sb = self.y as i64 + self.h as i64;
        let ob = other.y as i64 + other.h as i64;
        let r = if sr >= or { sr } else { or };
        let b = if sb >= ob { sb } else { ob };
        let dw = r - x;
        let dh = b - y;
        i32::MIN as i64 <= dw && dw <= i32::MAX as i64 && i32::MIN as i64 <= dh && dh <= i32::MAX as i64
    }

    /// Whether `inset` can take `pad`.
    pub fn inset_fits_check(&self, pad: i32) -> (b: bool)
        ensures
            b == self.inset_fits(pad),
    {
        let lo = i32::MIN as i64;
        let hi = i32::MAX as i64;
        let p = pad as i64;
        let x = self.x as i64 + p;
        let y = self.y as i64 + p;
        let two = 2 * p;
        let w = self.w as i64 - 2 * p;
        let h = self.h as i64 - 2 * p;
        lo <= x && x <= hi && lo <= y && y <= hi && lo <= two && two <= hi && lo <= w && w <= hi && lo <= h && h <= hi
    }

    /// Insets the rectangle on all sides by `pad` (clamped at zero size).
    pub fn inset(&self, pad: i32) -> (r: Rect)
        requires
            self.inset_fits(pad),
        ensures
            r == self.inset_spec(pad),
    {
        let w = self.w - 2 * pad;
        let h = self.h - 2 * pad;
        Rect::new(self.x + pad, self.y + pad, if w > 0 { w } else { 0 }, if h > 0 { h } else { 0 })
    }
}

/// `union` ignores an empty operand, so it can accumulate damage from an
/// empty start.
pub proof fn law_union_ignores_empty(a: Rect, b: Rect)
    ensures
        a.is_empty_spec() ==> a.union_spec(b) == b,
        b.is_empty_spec() && !a.is_empty_spec() ==> a.union_spec(b) == a,
{
}

/// The union of two non-empty rectangles contains both, and lies within
/// every rectangle that contains both: it is the smallest.
pub proof fn law_union_is_least_bound(a: Rect, b: Rect, c: Rect)
    requires
        a.union_fits(b),
        !a.is_empty_spec(),
        !b.is_empty_spec(),
    ensures
        a.union_spec(b).contains_rect_spec(a),
        a.union_spec(b).contains_rect_spec(b),
        c.contains_rect_spec(a) && c.contains_rect_spec(b) ==> c.contains_rect_spec(a.union_spec(b)),
        a.union_spec(b) == b.union_spec(a),
{
}

/// The intersection lies within both rectangles, and holds exactly the
/// points that both hold.
pub proof fn law_intersection_within_both(a: Rect, b: Rect, p: Point)
    requires
        a.edges_fit(),
        b.edges_fit(),
    ensures
        a.contains_rect_spec(a.intersection_spec(b)),
        b.contains_rect_spec(a.intersection_spec(b)),
        a.intersection_spec(b).contains_spec(p) <==> (a.contains_spec(p) && b.contains_spec(p)),
{
}

/// Two rectangles intersect exactly when their intersection is not empty.
pub proof fn law_intersects_iff_overlap(a: Rect, b: Rect)
    requires
        a.edges_fit(),
        b.edges_fit(),
    ensures
        a.intersects_spec(b) <==> !a.intersection_spec(b).is_empty_spec(),
        a.intersects_spec(b) == b.intersects_spec(a),
{
}

/// Every rectangle contains the empty ones, and itself.
pub proof fn law_contains_rect_empty_and_self(a: Rect, e: Rect)
    requires
        e.is_empty_spec(),
    ensures
        a.contains_rect_spec(e),
        a.contains_rect_spec(a),
{
}

} // verus!
