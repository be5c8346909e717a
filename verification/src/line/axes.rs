//! Inline and cross-line axes of rotated text.

use vstd::math::abs;
use vstd::prelude::*;

use crate::geometry::{floor_div, narrow, narrowed, Bbox, GeometryError, Point};
use crate::types::{Rotation, DEGREE, UNIT};

verus! {

/// Units in a quarter turn.
pub const QUARTER: i32 = 900_000;

/// Units in a full turn.
pub const TURN: i32 = 3_600_000;

/// Twice the scale of the components of a direction.
pub const TWO_UNITS: i128 = 2_000_000_000;

/// A box in a rotated frame.
#[derive(Debug, Clone, Copy, PartialEq, Eq, Structural)]
pub struct Frame {
    pub left: i64,
    pub top: i64,
    pub right: i64,
    pub bottom: i64,
}

impl Frame {
    /// Extent along the line.
    pub open spec fn wide(self) -> int {
        self.right - self.left
    }

    /// Extent across the line.
    pub open spec fn high(self) -> int {
        self.bottom - self.top
    }

    /// Extent along the line.
    pub fn width(&self) -> (w: i128)
        ensures
            w == self.wide(),
    {
        self.right as i128 - self.left as i128
    }

    /// Extent across the line.
    pub fn height(&self) -> (h: i128)
        ensures
            h == self.high(),
    {
        self.bottom as i128 - self.top as i128
    }
}

/// Whether an angle is more than two degrees away from every axis.
pub open spec fn oblique(angle: int) -> bool {
    2 * DEGREE < angle % (QUARTER as int) < 88 * DEGREE
}

/// Whether an angle is within two degrees of upright.
pub open spec fn level(angle: int) -> bool {
    let turned = angle % (TURN as int);
    turned <= 2 * DEGREE || TURN - turned <= 2 * DEGREE
}

/// Whether an angle is within two degrees of upright.
pub fn is_level(angle: i32) -> (yes: bool)
    ensures
        yes == level(angle as int),
{
    match angle.checked_rem_euclid(TURN) {
        Some(turned) => turned <= 2 * DEGREE || TURN - turned <= 2 * DEGREE,
        None => false,
    }
}

/// Whether two angles differ by at most two degrees.
pub open spec fn parallel(a: int, b: int) -> bool {
    abs(a - b) <= 2 * DEGREE
}

/// Whether two angles differ by at most two degrees.
pub fn is_parallel(a: i32, b: i32) -> (yes: bool)
    ensures
        yes == parallel(a as int, b as int),
{
    let difference: i64 = a as i64 - b as i64;
    -(2 * (DEGREE as i64)) <= difference && difference <= 2 * (DEGREE as i64)
}

/// Local inline and cross-line axes for text at an angle in viewport space.
#[derive(Debug, Clone, Copy, PartialEq, Eq, Structural)]
pub struct TextAxes {
    pub rotation: Rotation,
}

/// Twice the inline coordinate of the point with doubled coordinates, unscaled.
pub open spec fn along(r: Rotation, x2: int, y2: int) -> int {
    r.cosine * x2 + r.sine * y2
}

/// Twice the cross-line coordinate of the point with doubled coordinates, unscaled.
pub open spec fn across(r: Rotation, x2: int, y2: int) -> int {
    r.cosine * y2 - r.sine * x2
}

/// Twice the inline half-extent of a box, unscaled.
pub open spec fn reach_along(r: Rotation, b: Bbox) -> int {
    abs(r.cosine as int) * b.wide() + abs(r.sine as int) * b.high()
}

/// Twice the cross-line half-extent of a box, unscaled.
pub open spec fn reach_across(r: Rotation, b: Bbox) -> int {
    abs(r.sine as int) * b.wide() + abs(r.cosine as int) * b.high()
}

/// The quotient, rounded up.
pub open spec fn ceil_of(n: int, d: int) -> int {
    -((-n) / d)
}

impl TextAxes {
    /// The inline coordinate of a point, rounded down.
    pub open spec fn inline_of(self, p: Point) -> int {
        along(self.rotation, 2 * p.x, 2 * p.y) / (TWO_UNITS as int)
    }

    /// The cross-line coordinate of a point, rounded down.
    pub open spec fn cross_of(self, p: Point) -> int {
        across(self.rotation, 2 * p.x, 2 * p.y) / (TWO_UNITS as int)
    }

    /// The box around a box in this frame: lower edges rounded down, upper edges up.
    pub open spec fn frame_of(self, b: Bbox) -> (int, int, int, int) {
        let x = along(self.rotation, b.mid_x2(), b.mid_y2());
        let y = across(self.rotation, b.mid_x2(), b.mid_y2());
        let dx = reach_along(self.rotation, b);
        let dy = reach_across(self.rotation, b);
        (
            (x - dx) / (TWO_UNITS as int),
            (y - dy) / (TWO_UNITS as int),
            ceil_of(x + dx, TWO_UNITS as int),
            ceil_of(y + dy, TWO_UNITS as int),
        )
    }

    /// The axes of a rotation.
    pub fn from(rotation: Rotation) -> (axes: TextAxes)
        ensures
            axes.rotation == rotation,
    {
        TextAxes { rotation }
    }

    /// Identifies angles outside the two-degree tolerance around the axes.
    pub fn is_oblique(&self) -> (yes: bool)
        ensures
            yes == oblique(self.rotation.angle as int),
    {
        match self.rotation.angle.checked_rem_euclid(QUARTER) {
            Some(rest) => 2 * DEGREE < rest && rest < 88 * DEGREE,
            None => false,
        }
    }

    /// Projects a viewport point onto inline and cross-line coordinates.
    pub fn project(&self, point: Point) -> (local: (i64, i64))
        ensures
            local.0 == self.inline_of(point),
            local.1 == self.cross_of(point),
            -0x8_0000_0000 <= local.0 <= 0x8_0000_0000,
            -0x8_0000_0000 <= local.1 <= 0x8_0000_0000,
    {
        self.project_doubled(2 * (point.x as i64), 2 * (point.y as i64))
    }

    /// Twice the inline coordinate of a box's middle, unscaled.
    pub fn middle_along(&self, b: Bbox) -> (u: i128)
        ensures
            u == along(self.rotation, b.mid_x2(), b.mid_y2()),
    {
        let c: i128 = self.rotation.cosine as i128;
        let s: i128 = self.rotation.sine as i128;
        let x2: i128 = b.center_x2() as i128;
        let y2: i128 = b.center_y2() as i128;
        proof {
            lemma_term(c as int, x2 as int);
            lemma_term(s as int, y2 as int);
        }
        c * x2 + s * y2
    }

    /// Projects the viewport point with half these coordinates.
    pub fn project_doubled(&self, x2: i64, y2: i64) -> (local: (i64, i64))
        requires
            -0x1_0000_0000 <= x2 <= 0x1_0000_0000,
            -0x1_0000_0000 <= y2 <= 0x1_0000_0000,
        ensures
            local.0 == along(self.rotation, x2 as int, y2 as int) / (TWO_UNITS as int),
            local.1 == across(self.rotation, x2 as int, y2 as int) / (TWO_UNITS as int),
            -0x8_0000_0000 <= local.0 <= 0x8_0000_0000,
            -0x8_0000_0000 <= local.1 <= 0x8_0000_0000,
    {
        let c: i128 = self.rotation.cosine as i128;
        let s: i128 = self.rotation.sine as i128;
        proof {
            lemma_term(c as int, x2 as int);
            lemma_term(s as int, y2 as int);
            lemma_term(c as int, y2 as int);
            lemma_term(s as int, x2 as int);
        }
        let u: i128 = c * (x2 as i128) + s * (y2 as i128);
        let v: i128 = c * (y2 as i128) - s * (x2 as i128);
        proof {
            lemma_quotient(u as int);
            lemma_quotient(v as int);
        }
        (floor_div(u, TWO_UNITS) as i64, floor_div(v, TWO_UNITS) as i64)
    }

    /// The viewport point at an inline and a cross-line coordinate, rounded down.
    pub open spec fn point_at(self, x: int, y: int) -> Point {
        Point {
            x: narrowed((self.rotation.cosine * x - self.rotation.sine * y) / (UNIT as int)) as i32,
            y: narrowed((self.rotation.sine * x + self.rotation.cosine * y) / (UNIT as int)) as i32,
        }
    }

    /// Restores viewport coordinates from this text frame.
    pub fn unproject(&self, x: i64, y: i64) -> (point: Point)
        requires
            -0x8_0000_0000 <= x <= 0x8_0000_0000,
            -0x8_0000_0000 <= y <= 0x8_0000_0000,
        ensures
            point == self.point_at(x as int, y as int),
    {
        let c: i128 = self.rotation.cosine as i128;
        let s: i128 = self.rotation.sine as i128;
        proof {
            lemma_wide_term(c as int, x as int);
            lemma_wide_term(s as int, y as int);
            lemma_wide_term(c as int, y as int);
            lemma_wide_term(s as int, x as int);
        }
        let u: i128 = c * (x as i128) - s * (y as i128);
        let v: i128 = s * (x as i128) + c * (y as i128);
        Point {
            x: narrow(floor_div(u, UNIT as i128) as i64),
            y: narrow(floor_div(v, UNIT as i128) as i64),
        }
    }

    /// Projects an axis-aligned box conservatively, without treating it as an
    /// oriented outline.
    pub fn project_bbox(&self, bbox: Bbox) -> (made: Result<Frame, GeometryError>)
        ensures
            match made {
                Ok(frame) => {
                    &&& self.frame_of(bbox) == (
                        frame.left as int,
                        frame.top as int,
                        frame.right as int,
                        frame.bottom as int,
                    )
                    &&& -0x8_0000_0000 <= frame.left < frame.right <= 0x8_0000_0000
                    &&& -0x8_0000_0000 <= frame.top < frame.bottom <= 0x8_0000_0000
                },
                Err(GeometryError::EmptyWidth) => self.frame_of(bbox).2 <= self.frame_of(bbox).0,
                Err(GeometryError::EmptyHeight) => self.frame_of(bbox).0 < self.frame_of(bbox).2
                    && self.frame_of(bbox).3 <= self.frame_of(bbox).1,
            },
    {
        let c: i128 = self.rotation.cosine as i128;
        let s: i128 = self.rotation.sine as i128;
        let ca: i128 = if c < 0 {
            -c
        } else {
            c
        };
        let sa: i128 = if s < 0 {
            -s
        } else {
            s
        };
        let x2: i128 = bbox.center_x2() as i128;
        let y2: i128 = bbox.center_y2() as i128;
        let w: i128 = bbox.width() as i128;
        let h: i128 = bbox.height() as i128;
        proof {
            lemma_term(c as int, x2 as int);
            lemma_term(s as int, y2 as int);
            lemma_term(c as int, y2 as int);
            lemma_term(s as int, x2 as int);
            lemma_term(ca as int, w as int);
            lemma_term(sa as int, h as int);
            lemma_term(sa as int, w as int);
            lemma_term(ca as int, h as int);
        }
        let x: i128 = c * x2 + s * y2;
        let y: i128 = c * y2 - s * x2;
        let dx: i128 = ca * w + sa * h;
        let dy: i128 = sa * w + ca * h;
        proof {
            lemma_quotient(x - dx);
            lemma_quotient(y - dy);
            lemma_quotient(-(x + dx));
            lemma_quotient(-(y + dy));
        }
        let left: i64 = floor_div(x - dx, TWO_UNITS) as i64;
        let top: i64 = floor_div(y - dy, TWO_UNITS) as i64;
        let right: i64 = -(floor_div(-(x + dx), TWO_UNITS) as i64);
        let bottom: i64 = -(floor_div(-(y + dy), TWO_UNITS) as i64);
        if right <= left {
            Err(GeometryError::EmptyWidth)
        } else if bottom <= top {
            Err(GeometryError::EmptyHeight)
        } else {
            Ok(Frame { left, top, right, bottom })
        }
    }
}

/// A 32-bit component times a doubled coordinate or extent.
proof fn lemma_term(c: int, x: int)
    requires
        -0x8000_0000 <= c <= 0x8000_0000,
        -0x1_0000_0000 <= x <= 0x1_0000_0000,
    ensures
        -0x8000_0000_0000_0000 <= c * x <= 0x8000_0000_0000_0000,
{
    assert(-0x8000_0000_0000_0000 <= c * x <= 0x8000_0000_0000_0000) by (nonlinear_arith)
        requires
            -0x8000_0000 <= c <= 0x8000_0000,
            -0x1_0000_0000 <= x <= 0x1_0000_0000,
    ;
}

/// A 32-bit component times a coordinate of a text frame.
proof fn lemma_wide_term(c: int, x: int)
    requires
        -0x8000_0000 <= c <= 0x8000_0000,
        -0x8_0000_0000 <= x <= 0x8_0000_0000,
    ensures
        -0x4_0000_0000_0000_0000 <= c * x <= 0x4_0000_0000_0000_0000,
{
    assert(-0x4_0000_0000_0000_0000 <= c * x <= 0x4_0000_0000_0000_0000) by (nonlinear_arith)
        requires
            -0x8000_0000 <= c <= 0x8000_0000,
            -0x8_0000_0000 <= x <= 0x8_0000_0000,
    ;
}

/// Scaled coordinates fit in 64 bits.
proof fn lemma_quotient(n: int)
    requires
        -0x2_0000_0000_0000_0000 <= n <= 0x2_0000_0000_0000_0000,
    ensures
        -0x8_0000_0000 <= n / (TWO_UNITS as int) <= 0x8_0000_0000,
{
}

} // verus!
