//! Writing direction and the order of runs within a line.

use vstd::math::abs;
use vstd::prelude::*;

use super::axes::{oblique, TextAxes, TURN};
use crate::chars::{alphabetic, str_before, text_before, text_order_is_strict_weak};
use crate::rope::Rope;
use crate::sorting::{sort, sorted, Order, Sorter};
use crate::types::{Rotation, TextItem, WritingDirection, DEGREE};

verus! {

/// An angle in whole degrees: the axis within two degrees of it, else rounded.
pub open spec fn snapped(angle: int) -> int {
    let r = angle % (TURN as int);
    if r <= 2 * DEGREE || TURN - r <= 2 * DEGREE {
        0
    } else if abs(r - 90 * DEGREE) <= 2 * DEGREE {
        90
    } else if abs(r - 180 * DEGREE) <= 2 * DEGREE {
        180
    } else if abs(r - 270 * DEGREE) <= 2 * DEGREE {
        270
    } else {
        (r + DEGREE / 2) / (DEGREE as int)
    }
}

/// Snaps angles near an axis, with a circular two-degree tolerance.
pub fn canonical_rotation(angle: i32) -> (degrees: i32)
    ensures
        degrees == snapped(angle as int),
{
    let r: i32 = match angle.checked_rem_euclid(TURN) {
        Some(r) => r,
        None => 0,
    };
    if r <= 2 * DEGREE || TURN - r <= 2 * DEGREE {
        0
    } else if 88 * DEGREE <= r && r <= 92 * DEGREE {
        90
    } else if 178 * DEGREE <= r && r <= 182 * DEGREE {
        180
    } else if 268 * DEGREE <= r && r <= 272 * DEGREE {
        270
    } else {
        (r + DEGREE / 2) / DEGREE
    }
}

/// Whether a character is strongly right-to-left.
pub open spec fn strong_rtl(c: char) -> bool {
    let u = c as u32;
    (0x0590 <= u <= 0x08FF) || (0xFB1D <= u <= 0xFDFF) || (0xFE70 <= u <= 0xFEFF)
}

/// Returns true for strong Hebrew, Arabic, and presentation-form characters.
pub fn is_rtl_character(character: char) -> (yes: bool)
    ensures
        yes == strong_rtl(character),
{
    let u: u32 = character as u32;
    (0x0590 <= u && u <= 0x08FF) || (0xFB1D <= u && u <= 0xFDFF) || (0xFE70 <= u && u <= 0xFEFF)
}

/// Number of strongly right-to-left characters among the first `n`.
pub open spec fn rtl_upto(s: Seq<char>, n: int) -> int
    decreases n,
{
    if n <= 0 {
        0
    } else {
        rtl_upto(s, n - 1) + if strong_rtl(s[n - 1]) {
            1int
        } else {
            0
        }
    }
}

/// Number of other letters among the first `n` characters.
pub open spec fn ltr_upto(s: Seq<char>, n: int) -> int
    decreases n,
{
    if n <= 0 {
        0
    } else {
        ltr_upto(s, n - 1) + if !strong_rtl(s[n - 1]) && alphabetic(s[n - 1]) {
            1int
        } else {
            0
        }
    }
}

/// Number of strongly right-to-left characters in the first `n` runs.
pub open spec fn rtl_letters(items: Seq<TextItem>, n: int) -> int
    decreases n,
{
    if n <= 0 {
        0
    } else {
        rtl_letters(items, n - 1) + rtl_upto(
            items[n - 1].raw_text@,
            items[n - 1].raw_text@.len() as int,
        )
    }
}

/// Number of other letters in the first `n` runs.
pub open spec fn ltr_letters(items: Seq<TextItem>, n: int) -> int
    decreases n,
{
    if n <= 0 {
        0
    } else {
        ltr_letters(items, n - 1) + ltr_upto(
            items[n - 1].raw_text@,
            items[n - 1].raw_text@.len() as int,
        )
    }
}

/// Dominant direction of runs at an angle: vertical near a quarter or three
/// quarters of a turn, else decided by the letters.
pub open spec fn direction_of(items: Seq<TextItem>, angle: int) -> WritingDirection {
    if snapped(angle) == 90 || snapped(angle) == 270 {
        WritingDirection::Vertical
    } else if rtl_letters(items, items.len() as int) > ltr_letters(
        items,
        items.len() as int,
    ) {
        WritingDirection::RightToLeft
    } else {
        WritingDirection::LeftToRight
    }
}

/// Counts strongly right-to-left characters and other letters of one text.
fn count_letters(text: &Rope) -> (counts: (u128, u128))
    ensures
        counts.0 == rtl_upto(text@, text@.len() as int),
        counts.1 == ltr_upto(text@, text@.len() as int),
        counts.0 <= 0xFFFF_FFFF_FFFF_FFFF,
        counts.1 <= 0xFFFF_FFFF_FFFF_FFFF,
{
    let all: Vec<char> = text.chars();
    let length: usize = all.len();
    let mut rtl: u128 = 0;
    let mut ltr: u128 = 0;
    let mut i: usize = 0;
    while i < length
        invariant
            all@ == text@,
            i <= length == all@.len(),
            rtl <= i,
            ltr <= i,
            rtl == rtl_upto(text@, i as int),
            ltr == ltr_upto(text@, i as int),
        decreases length - i,
    {
        let c: char = all[i];
        if is_rtl_character(c) {
            rtl = rtl + 1;
        } else if c.is_alphabetic() {
            ltr = ltr + 1;
        }
        i = i + 1;
    }
    (rtl, ltr)
}

/// Detects writing direction from rotation and strong characters.
pub fn detect_direction(items: &Vec<TextItem>, angle: i32) -> (direction: WritingDirection)
    ensures
        direction == direction_of(items@, angle as int),
{
    let degrees: i32 = canonical_rotation(angle);
    if degrees == 90 || degrees == 270 {
        return WritingDirection::Vertical;
    }
    let length: usize = items.len();
    let mut rtl: u128 = 0;
    let mut ltr: u128 = 0;
    let mut i: usize = 0;
    while i < length
        invariant
            i <= length == items@.len(),
            rtl <= i * 0xFFFF_FFFF_FFFF_FFFF,
            ltr <= i * 0xFFFF_FFFF_FFFF_FFFF,
            rtl == rtl_letters(items@, i as int),
            ltr == ltr_letters(items@, i as int),
        decreases length - i,
    {
        let counts: (u128, u128) = count_letters(&items[i].raw_text);
        rtl = rtl + counts.0;
        ltr = ltr + counts.1;
        i = i + 1;
    }
    if rtl > ltr {
        WritingDirection::RightToLeft
    } else {
        WritingDirection::LeftToRight
    }
}

/// The ways in which runs are put in order; ties go by identity.
#[derive(Debug, Clone, Copy, PartialEq, Eq, Structural)]
pub enum ItemOrder {
    /// By angle.
    Angle,
    /// By left edge.
    Rightwards,
    /// By right edge, last first.
    Leftwards,
    /// By bottom edge, last first, then by left edge.
    Upwards,
    /// By top edge, then by left edge.
    Downwards,
    /// By top edge.
    Topmost,
    /// By the middle, along a direction.
    Along { cosine: i32, sine: i32 },
    /// By the middle, against a direction.
    Against { cosine: i32, sine: i32 },
}

/// How far the middle of a run lies along a direction.
pub open spec fn advance(item: TextItem, cosine: i32, sine: i32) -> int {
    cosine * item.bbox.mid_x2() + sine * item.bbox.mid_y2()
}

/// How far the middle of a run lies along a direction.
fn find_advance(item: &TextItem, cosine: i32, sine: i32) -> (far: i128)
    ensures
        far == advance(*item, cosine, sine),
        -0x1000_0000_0000_0000_0000 <= far <= 0x1000_0000_0000_0000_0000,
{
    let x: i64 = item.bbox.center_x2();
    let y: i64 = item.bbox.center_y2();
    proof {
        lemma_far(cosine as int, x as int);
        lemma_far(sine as int, y as int);
    }
    cosine as i128 * x as i128 + sine as i128 * y as i128
}

/// A component times a coordinate stays far from the limits.
proof fn lemma_far(c: int, x: int)
    requires
        -0x8000_0000 <= c <= 0x8000_0000,
        -0x1_0000_0000 <= x <= 0x1_0000_0000,
    ensures
        -0x8000_0000_0000_0000 <= c * x <= 0x8000_0000_0000_0000,
{
    assert(-0x8000_0000_0000_0000 <= c * x <= 0x8000_0000_0000_0000) by (nonlinear_arith)
        requires
            -0x8000_0000 <= c <= 0x8000_0000,
            -0x1_0000_0000 <= x <= 0x1_0000_0000,
    ;
}

impl ItemOrder {
    /// What a run is ordered by, before its identity.
    pub open spec fn key(self, item: TextItem) -> (int, int) {
        match self {
            ItemOrder::Angle => (item.rotation.angle as int, 0),
            ItemOrder::Rightwards => (item.bbox.left as int, 0),
            ItemOrder::Leftwards => (-item.bbox.right, 0),
            ItemOrder::Upwards => (-item.bbox.bottom, item.bbox.left as int),
            ItemOrder::Downwards => (item.bbox.top as int, item.bbox.left as int),
            ItemOrder::Topmost => (item.bbox.top as int, 0),
            ItemOrder::Along { cosine, sine } => (advance(item, cosine, sine), 0),
            ItemOrder::Against { cosine, sine } => (-advance(item, cosine, sine), 0),
        }
    }

    /// What a run is ordered by, before its identity.
    fn key_of(&self, item: &TextItem) -> (key: (i128, i64))
        ensures
            (key.0 as int, key.1 as int) == self.key(*item),
    {
        match self {
            ItemOrder::Angle => (item.rotation.angle as i128, 0),
            ItemOrder::Rightwards => (item.bbox.left as i128, 0),
            ItemOrder::Leftwards => (-(item.bbox.right as i128), 0),
            ItemOrder::Upwards => (-(item.bbox.bottom as i128), item.bbox.left as i64),
            ItemOrder::Downwards => (item.bbox.top as i128, item.bbox.left as i64),
            ItemOrder::Topmost => (item.bbox.top as i128, 0),
            ItemOrder::Along { cosine, sine } => (find_advance(item, *cosine, *sine), 0),
            ItemOrder::Against { cosine, sine } => (-find_advance(item, *cosine, *sine), 0),
        }
    }
}

impl Order<TextItem> for ItemOrder {
    open spec fn lt(&self, a: TextItem, b: TextItem) -> bool {
        let ka = self.key(a);
        let kb = self.key(b);
        ka.0 < kb.0 || (ka.0 == kb.0 && (ka.1 < kb.1 || (ka.1 == kb.1 && text_before(
            a.id@,
            b.id@,
        ))))
    }

    proof fn is_strict_weak(&self, a: TextItem, b: TextItem, c: TextItem) {
        text_order_is_strict_weak(a.id@, b.id@, c.id@);
    }
}

impl Sorter<TextItem> for ItemOrder {
    fn precedes(&self, a: &TextItem, b: &TextItem) -> (yes: bool) {
        let ka: (i128, i64) = self.key_of(a);
        let kb: (i128, i64) = self.key_of(b);
        ka.0 < kb.0 || (ka.0 == kb.0 && (ka.1 < kb.1 || (ka.1 == kb.1 && str_before(
            a.id.as_str(),
            b.id.as_str(),
        ))))
    }
}

/// How the runs of a line in this direction follow each other; `rotation` is that of the run
/// that comes first before ordering. Oblique runs follow their own direction.
pub open spec fn inline_order(direction: WritingDirection, rotation: Rotation) -> ItemOrder {
    match direction {
        WritingDirection::LeftToRight => if oblique(rotation.angle as int) {
            ItemOrder::Along { cosine: rotation.cosine, sine: rotation.sine }
        } else {
            ItemOrder::Rightwards
        },
        WritingDirection::RightToLeft => if oblique(rotation.angle as int) {
            ItemOrder::Against { cosine: rotation.cosine, sine: rotation.sine }
        } else {
            ItemOrder::Leftwards
        },
        WritingDirection::Vertical => if snapped(rotation.angle as int) == 270 {
            ItemOrder::Upwards
        } else {
            ItemOrder::Downwards
        },
    }
}

/// Runs in the order in which they are read.
pub open spec fn read_order(items: Seq<TextItem>, direction: WritingDirection) -> Seq<TextItem> {
    if items.len() == 0 {
        items
    } else {
        sorted(items, inline_order(direction, items[0].rotation))
    }
}

/// Orders runs without changing the text within a run.
pub fn order_items(items: Vec<TextItem>, direction: WritingDirection) -> (ordered: Vec<TextItem>)
    ensures
        ordered@ == read_order(items@, direction),
{
    if items.len() == 0 {
        return items;
    }
    let rotation: Rotation = items[0].rotation;
    let slanted: bool = TextAxes::from(rotation).is_oblique();
    let order: ItemOrder = match direction {
        WritingDirection::LeftToRight => if slanted {
            ItemOrder::Along { cosine: rotation.cosine, sine: rotation.sine }
        } else {
            ItemOrder::Rightwards
        },
        WritingDirection::RightToLeft => if slanted {
            ItemOrder::Against { cosine: rotation.cosine, sine: rotation.sine }
        } else {
            ItemOrder::Leftwards
        },
        WritingDirection::Vertical => if canonical_rotation(items[0].rotation.angle) == 270 {
            ItemOrder::Upwards
        } else {
            ItemOrder::Downwards
        },
    };
    sort(items, &order)
}

} // verus!
