//! Exact page geometry.
//!
//! A coordinate counts ten-thousandths of a point. Widths, areas and products
//! of them are computed in wider integers, so nothing is rounded and nothing
//! overflows.

use vstd::math::{abs, max, min};
use vstd::prelude::*;

verus! {

/// Units in one point.
pub const POINT: i32 = 10_000;

/// Why four coordinates do not make a box.
#[derive(Debug, Clone, Copy, PartialEq, Eq, Structural)]
pub enum GeometryError {
    /// The box would have no positive width.
    EmptyWidth,
    /// The box would have no positive height.
    EmptyHeight,
}

impl GeometryError {
    /// Human-readable reason.
    pub fn message(&self) -> (text: &'static str)
        ensures
            text@ == self.text(),
    {
        match self {
            GeometryError::EmptyWidth => "box width must be positive",
            GeometryError::EmptyHeight => "box height must be positive",
        }
    }

    /// Human-readable reason.
    pub open spec fn text(self) -> Seq<char> {
        match self {
            GeometryError::EmptyWidth => "box width must be positive"@,
            GeometryError::EmptyHeight => "box height must be positive"@,
        }
    }
}

/// A position on the page; `y` grows downwards.
#[derive(Debug, Clone, Copy, PartialEq, Eq, Structural)]
pub struct Point {
    pub x: i32,
    pub y: i32,
}

impl Point {
    /// The point at the given coordinates.
    pub fn new(x: i32, y: i32) -> (point: Point)
        ensures
            point == (Point { x, y }),
    {
        Point { x, y }
    }
}

/// The segment on which the glyphs of a run rest.
#[derive(Debug, Clone, Copy, PartialEq, Eq, Structural)]
pub struct Baseline {
    pub start: Point,
    pub end: Point,
}

/// An axis-aligned box.
#[derive(Debug, Clone, Copy, PartialEq, Eq, Structural)]
pub struct Bbox {
    pub left: i32,
    pub top: i32,
    pub right: i32,
    pub bottom: i32,
}

/// Length shared by two intervals; negative when they are apart.
pub open spec fn signed_overlap(a0: int, a1: int, b0: int, b1: int) -> int {
    min(a1, b1) - max(a0, b0)
}

/// Length shared by two intervals, or zero.
pub open spec fn shared(a0: int, a1: int, b0: int, b1: int) -> int {
    max(signed_overlap(a0, a1, b0, b1), 0)
}

/// Distance between two intervals, or zero when they touch or overlap.
pub open spec fn interval_gap(a0: int, a1: int, b0: int, b1: int) -> int {
    max(max(a0 - b1, b0 - a1), 0)
}

impl Bbox {
    /// Whether the box has positive width and height.
    pub open spec fn valid(self) -> bool {
        self.left < self.right && self.top < self.bottom
    }

    /// Horizontal extent.
    pub open spec fn wide(self) -> int {
        self.right - self.left
    }

    /// Vertical extent.
    pub open spec fn high(self) -> int {
        self.bottom - self.top
    }

    /// Covered area.
    pub open spec fn size(self) -> int {
        self.wide() * self.high()
    }

    /// Twice the horizontal centre.
    pub open spec fn mid_x2(self) -> int {
        self.left + self.right
    }

    /// Twice the vertical centre.
    pub open spec fn mid_y2(self) -> int {
        self.top + self.bottom
    }

    /// The smallest box that holds both.
    pub open spec fn join(self, other: Bbox) -> Bbox {
        Bbox {
            left: min(self.left as int, other.left as int) as i32,
            top: min(self.top as int, other.top as int) as i32,
            right: max(self.right as int, other.right as int) as i32,
            bottom: max(self.bottom as int, other.bottom as int) as i32,
        }
    }

    /// Horizontal length shared with another box; negative when apart.
    pub open spec fn overlap_x(self, other: Bbox) -> int {
        signed_overlap(
            self.left as int,
            self.right as int,
            other.left as int,
            other.right as int,
        )
    }

    /// Vertical length shared with another box; negative when apart.
    pub open spec fn overlap_y(self, other: Bbox) -> int {
        signed_overlap(
            self.top as int,
            self.bottom as int,
            other.top as int,
            other.bottom as int,
        )
    }

    /// Horizontal distance to another box, or zero.
    pub open spec fn gap_x(self, other: Bbox) -> int {
        interval_gap(self.left as int, self.right as int, other.left as int, other.right as int)
    }

    /// Area shared with another box.
    pub open spec fn shared_area(self, other: Bbox) -> int {
        max(self.overlap_x(other), 0) * max(self.overlap_y(other), 0)
    }

    /// Whether another box lies inside this one, edges included.
    pub open spec fn holds(self, inner: Bbox) -> bool {
        inner.left >= self.left && inner.top >= self.top && inner.right <= self.right
            && inner.bottom <= self.bottom
    }

    /// Makes a box, or says which extent is not positive.
    pub fn new(left: i32, top: i32, right: i32, bottom: i32) -> (made: Result<Bbox, GeometryError>)
        ensures
            match made {
                Ok(bbox) => bbox == (Bbox { left, top, right, bottom }) && bbox.valid(),
                Err(GeometryError::EmptyWidth) => right <= left,
                Err(GeometryError::EmptyHeight) => left < right && bottom <= top,
            },
    {
        if right <= left {
            Err(GeometryError::EmptyWidth)
        } else if bottom <= top {
            Err(GeometryError::EmptyHeight)
        } else {
            Ok(Bbox { left, top, right, bottom })
        }
    }

    /// Whether the box has positive width and height.
    pub fn is_valid(&self) -> (yes: bool)
        ensures
            yes == self.valid(),
    {
        self.left < self.right && self.top < self.bottom
    }

    /// Horizontal extent.
    pub fn width(&self) -> (w: i64)
        ensures
            w == self.wide(),
    {
        self.right as i64 - self.left as i64
    }

    /// Vertical extent.
    pub fn height(&self) -> (h: i64)
        ensures
            h == self.high(),
    {
        self.bottom as i64 - self.top as i64
    }

    /// Covered area.
    pub fn area(&self) -> (a: i128)
        ensures
            a == self.size(),
            -0x2_0000_0000_0000_0000 <= a <= 0x2_0000_0000_0000_0000,
    {
        let w: i128 = self.width() as i128;
        let h: i128 = self.height() as i128;
        proof {
            lemma_extent_product(w as int, h as int);
        }
        w * h
    }

    /// Twice the horizontal centre.
    pub fn center_x2(&self) -> (x: i64)
        ensures
            x == self.mid_x2(),
    {
        self.left as i64 + self.right as i64
    }

    /// Twice the vertical centre.
    pub fn center_y2(&self) -> (y: i64)
        ensures
            y == self.mid_y2(),
    {
        self.top as i64 + self.bottom as i64
    }

    /// The smallest box that holds both.
    pub fn union(&self, other: &Bbox) -> (u: Bbox)
        ensures
            u == self.join(*other),
            self.valid() && other.valid() ==> u.valid(),
    {
        Bbox {
            left: if self.left <= other.left {
                self.left
            } else {
                other.left
            },
            top: if self.top <= other.top {
                self.top
            } else {
                other.top
            },
            right: if self.right >= other.right {
                self.right
            } else {
                other.right
            },
            bottom: if self.bottom >= other.bottom {
                self.bottom
            } else {
                other.bottom
            },
        }
    }

    /// Horizontal length shared with another box; negative when apart.
    pub fn horizontal_overlap(&self, other: &Bbox) -> (o: i64)
        ensures
            o == self.overlap_x(*other),
    {
        min_i64(self.right as i64, other.right as i64) - max_i64(
            self.left as i64,
            other.left as i64,
        )
    }

    /// Vertical length shared with another box; negative when apart.
    pub fn vertical_overlap(&self, other: &Bbox) -> (o: i64)
        ensures
            o == self.overlap_y(*other),
    {
        min_i64(self.bottom as i64, other.bottom as i64) - max_i64(
            self.top as i64,
            other.top as i64,
        )
    }

    /// Horizontal distance to another box, or zero.
    pub fn horizontal_gap(&self, other: &Bbox) -> (g: i64)
        ensures
            g == self.gap_x(*other),
            0 <= g <= 0x1_0000_0000,
    {
        max_i64(
            max_i64(
                self.left as i64 - other.right as i64,
                other.left as i64 - self.right as i64,
            ),
            0,
        )
    }

    /// Area shared with another box.
    pub fn intersection_area(&self, other: &Bbox) -> (a: i128)
        ensures
            a == self.shared_area(*other),
            0 <= a <= 0x2_0000_0000_0000_0000,
    {
        let w: i128 = max_i64(self.horizontal_overlap(other), 0) as i128;
        let h: i128 = max_i64(self.vertical_overlap(other), 0) as i128;
        proof {
            lemma_extent_product(w as int, h as int);
        }
        w * h
    }

    /// Whether another box lies inside this one, edges included.
    pub fn contains(&self, inner: &Bbox) -> (yes: bool)
        ensures
            yes == self.holds(*inner),
    {
        inner.left >= self.left && inner.top >= self.top && inner.right <= self.right
            && inner.bottom <= self.bottom
    }
}

/// Two 33-bit extents multiply without leaving 66 bits.
proof fn lemma_extent_product(w: int, h: int)
    requires
        -0x1_0000_0000 <= w <= 0x1_0000_0000,
        -0x1_0000_0000 <= h <= 0x1_0000_0000,
    ensures
        -0x2_0000_0000_0000_0000 <= w * h <= 0x2_0000_0000_0000_0000,
        w >= 0 && h >= 0 ==> w * h >= 0,
{
    assert(-0x2_0000_0000_0000_0000 <= w * h <= 0x2_0000_0000_0000_0000) by (nonlinear_arith)
        requires
            -0x1_0000_0000 <= w <= 0x1_0000_0000,
            -0x1_0000_0000 <= h <= 0x1_0000_0000,
    ;
    if w >= 0 && h >= 0 {
        assert(w * h >= 0) by (nonlinear_arith)
            requires
                w >= 0,
                h >= 0,
        ;
    }
}

/// A valid box covers a positive area.
pub proof fn valid_box_has_area(b: Bbox)
    requires
        b.valid(),
    ensures
        b.size() > 0,
{
    let w = b.wide();
    let h = b.high();
    assert(w * h > 0) by (nonlinear_arith)
        requires
            w > 0,
            h > 0,
    ;
}

/// The smaller of two numbers.
pub fn min_i64(a: i64, b: i64) -> (m: i64)
    ensures
        m == min(a as int, b as int),
{
    if a <= b {
        a
    } else {
        b
    }
}

/// The larger of two numbers.
pub fn max_i64(a: i64, b: i64) -> (m: i64)
    ensures
        m == max(a as int, b as int),
{
    if a >= b {
        a
    } else {
        b
    }
}

/// The nearest 32-bit number.
pub open spec fn narrowed(n: int) -> int {
    if n > i32::MAX {
        i32::MAX as int
    } else if n < i32::MIN {
        i32::MIN as int
    } else {
        n
    }
}

/// The nearest 32-bit number.
pub fn narrow(n: i64) -> (m: i32)
    ensures
        m == narrowed(n as int),
{
    if n > i32::MAX as i64 {
        i32::MAX
    } else if n < i32::MIN as i64 {
        i32::MIN
    } else {
        n as i32
    }
}

/// The distance between two numbers.
pub fn distance(a: i64, b: i64) -> (d: i128)
    ensures
        d == abs(a - b),
        0 <= d <= 0x1_0000_0000_0000_0000,
{
    let difference: i128 = a as i128 - b as i128;
    if difference < 0 {
        -difference
    } else {
        difference
    }
}

/// The quotient by a positive number, rounded down.
pub fn floor_div(n: i128, d: i128) -> (q: i128)
    requires
        0 < d,
        n > i128::MIN,
    ensures
        q == n as int / d as int,
{
    if n >= 0 {
        n / d
    } else {
        let m: i128 = -n;
        let q: i128 = m / d;
        let r: i128 = m % d;
        proof {
            let mi = m as int;
            let di = d as int;
            let qi = q as int;
            let ri = r as int;
            vstd::arithmetic::div_mod::lemma_fundamental_div_mod(mi, di);
            if ri == 0 {
                assert(-mi == di * (-qi) + 0) by (nonlinear_arith)
                    requires
                        mi == di * qi + ri,
                        ri == 0,
                ;
                vstd::arithmetic::div_mod::lemma_fundamental_div_mod_converse(-mi, di, -qi, 0);
            } else {
                assert(-mi == di * (-qi - 1) + (di - ri)) by (nonlinear_arith)
                    requires
                        mi == di * qi + ri,
                ;
                vstd::arithmetic::div_mod::lemma_fundamental_div_mod_converse(
                    -mi,
                    di,
                    -qi - 1,
                    di - ri,
                );
            }
            assert(qi <= mi) by (nonlinear_arith)
                requires
                    mi == di * qi + ri,
                    di >= 1,
                    ri >= 0,
                    qi >= 0,
            ;
        }
        if r == 0 {
            -q
        } else {
            -q - 1
        }
    }
}

} // verus!
