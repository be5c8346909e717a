//! How boxes and angles look in the frame of a line.

use vstd::prelude::*;

use super::axes::{level, oblique, parallel, TextAxes};
use super::bidi::{direction_of, ltr_letters, ltr_upto, rtl_letters, rtl_upto, snapped, strong_rtl};
use crate::chars::alphabetic;
use crate::geometry::{Bbox, Point};
use crate::types::{Rotation, TextItem, WritingDirection};

verus! {

/// Upright text keeps its box; text turned by a quarter, a half or three quarters has the box
/// turned with it. A point comes back from the frame of upright text.
pub proof fn frames_turn_with_their_text(r: Rotation, b: Bbox, p: Point)
    ensures
        r.cosine == 1_000_000_000 && r.sine == 0 && b.left <= b.right && b.top <= b.bottom ==> {
            let f = (TextAxes { rotation: r }).frame_of(b);
            f.0 == b.left && f.1 == b.top && f.2 == b.right && f.3 == b.bottom
        },
        r.cosine == 0 && r.sine == 1_000_000_000 && b.left <= b.right && b.top <= b.bottom ==> {
            let f = (TextAxes { rotation: r }).frame_of(b);
            f.0 == b.top && f.1 == -b.right && f.2 == b.bottom && f.3 == -b.left
        },
        r.cosine == -1_000_000_000 && r.sine == 0 && b.left <= b.right && b.top <= b.bottom ==> {
            let f = (TextAxes { rotation: r }).frame_of(b);
            f.0 == -b.right && f.1 == -b.bottom && f.2 == -b.left && f.3 == -b.top
        },
        r.cosine == 0 && r.sine == -1_000_000_000 && b.left <= b.right && b.top <= b.bottom ==> {
            let f = (TextAxes { rotation: r }).frame_of(b);
            f.0 == -b.bottom && f.1 == b.left && f.2 == -b.top && f.3 == b.right
        },
        r.cosine == 1_000_000_000 && r.sine == 0 ==> (TextAxes { rotation: r }).inline_of(p) == p.x
            && (TextAxes { rotation: r }).cross_of(p) == p.y && (TextAxes { rotation: r }).point_at(
            p.x as int,
            p.y as int,
        ) == p,
        r.cosine == 0 && r.sine == 1_000_000_000 ==> (TextAxes { rotation: r }).inline_of(p) == p.y
            && (TextAxes { rotation: r }).cross_of(p) == -p.x && (TextAxes { rotation: r }).point_at(
            p.y as int,
            -p.x,
        ) == p,
{
    let (c, q) = (r.cosine as int, r.sine as int);
    let (x2, y2, w, h) = (b.mid_x2(), b.mid_y2(), b.wide(), b.high());
    if c == 1_000_000_000 || c == -1_000_000_000 || c == 0 {
        lemma_times(c, x2);
        lemma_times(c, y2);
        lemma_times(vstd::math::abs(c) as int, w);
        lemma_times(vstd::math::abs(c) as int, h);
    }
    if q == 1_000_000_000 || q == -1_000_000_000 || q == 0 {
        lemma_times(q, x2);
        lemma_times(q, y2);
        lemma_times(vstd::math::abs(q) as int, w);
        lemma_times(vstd::math::abs(q) as int, h);
    }
}

proof fn lemma_times(c: int, x: int)
    ensures
        c == 0 ==> c * x == 0,
        c == 1_000_000_000 ==> c * x == 1_000_000_000 * x,
        c == -1_000_000_000 ==> c * x == -(1_000_000_000 * x),
{
    assert(c == 0 ==> c * x == 0) by (nonlinear_arith);
    assert(c == 1_000_000_000 ==> c * x == 1_000_000_000 * x) by (nonlinear_arith);
    assert(c == -1_000_000_000 ==> c * x == -(1_000_000_000 * x)) by (nonlinear_arith);
}

/// Text is level where its angle is within two degrees of a whole number of turns.
pub proof fn level_text_is_nearly_upright(angle: int, turns: int)
    requires
        -20_000 <= angle - 3_600_000 * turns <= 20_000,
    ensures
        level(angle),
        !oblique(angle),
        snapped(angle) == 0,
{
    lemma_turned(angle, turns, angle - 3_600_000 * turns);
}

/// Text within two degrees of a quarter, a half or three quarters of a turn is taken for text
/// at that angle.
pub proof fn nearly_turned_text_is_turned(angle: int, turns: int, quarters: int)
    requires
        1 <= quarters <= 3,
        -20_000 <= angle - 3_600_000 * turns - 900_000 * quarters <= 20_000,
    ensures
        !level(angle),
        !oblique(angle),
        snapped(angle) == 90 * quarters,
{
    lemma_turned(angle, turns, angle - 3_600_000 * turns);
}

/// Text further than two degrees from every quarter of a turn runs obliquely, and its angle is
/// rounded to whole degrees.
pub proof fn other_text_runs_obliquely(angle: int, turns: int, quarters: int)
    requires
        0 <= quarters <= 3,
        20_000 < angle - 3_600_000 * turns - 900_000 * quarters < 880_000,
    ensures
        oblique(angle),
        !level(angle),
        ({
            let rest = angle - 3_600_000 * turns;
            10_000 * snapped(angle) - 5_000 <= rest < 10_000 * snapped(angle) + 5_000
        }),
{
    lemma_turned(angle, turns, angle - 3_600_000 * turns);
}

proof fn lemma_turned(angle: int, turns: int, rest: int)
    requires
        rest == angle - 3_600_000 * turns,
        -20_000 <= rest < 3_600_000,
    ensures
        rest >= 0 ==> angle % 3_600_000 == rest,
        rest < 0 ==> angle % 3_600_000 == rest + 3_600_000,
        rest >= 0 ==> angle % 900_000 == rest % 900_000,
        rest < 0 ==> angle % 900_000 == rest + 900_000,
{
    if rest >= 0 {
        vstd::arithmetic::div_mod::lemma_fundamental_div_mod_converse(
            angle,
            3_600_000,
            turns,
            rest,
        );
        let q = rest / 900_000;
        vstd::arithmetic::div_mod::lemma_fundamental_div_mod_converse(
            angle,
            900_000,
            4 * turns + q,
            rest % 900_000,
        );
    } else {
        vstd::arithmetic::div_mod::lemma_fundamental_div_mod_converse(
            angle,
            3_600_000,
            turns - 1,
            rest + 3_600_000,
        );
        vstd::arithmetic::div_mod::lemma_fundamental_div_mod_converse(
            angle,
            900_000,
            4 * turns - 1,
            rest + 900_000,
        );
    }
}

/// Two angles are parallel where they differ by at most two degrees.
pub proof fn parallel_text_differs_little(a: int, b: int)
    ensures
        parallel(a, b) <==> -20_000 <= a - b <= 20_000,
{
}

/// Number of characters, from the first on, that a script from right to left writes.
pub open spec fn leftward(s: Seq<char>, i: int) -> int
    decreases s.len() - i,
{
    if i >= s.len() {
        0
    } else {
        leftward(s, i + 1) + if ('\u{590}' <= s[i] && s[i] <= '\u{8FF}') || ('\u{FB1D}' <= s[i]
            && s[i] <= '\u{FDFF}') || ('\u{FE70}' <= s[i] && s[i] <= '\u{FEFF}') {
            1int
        } else {
            0
        }
    }
}

/// Number of letters, from the first on, of other scripts.
pub open spec fn rightward(s: Seq<char>, i: int) -> int
    decreases s.len() - i,
{
    if i >= s.len() {
        0
    } else {
        rightward(s, i + 1) + if alphabetic(s[i]) && !(('\u{590}' <= s[i] && s[i] <= '\u{8FF}') || (
        '\u{FB1D}' <= s[i] && s[i] <= '\u{FDFF}') || ('\u{FE70}' <= s[i] && s[i] <= '\u{FEFF}')) {
            1int
        } else {
            0
        }
    }
}

proof fn lemma_letters(s: Seq<char>, n: int)
    requires
        0 <= n <= s.len(),
    ensures
        rtl_upto(s, n) + leftward(s, n) == leftward(s, 0),
        ltr_upto(s, n) + rightward(s, n) == rightward(s, 0),
    decreases n,
{
    if n > 0 {
        lemma_letters(s, n - 1);
        scripts_from_the_right(s[n - 1]);
    }
}

/// Hebrew and Arabic letters and their presentation forms are read from right to left.
pub proof fn scripts_from_the_right(c: char)
    ensures
        strong_rtl(c) <==> ('\u{590}' <= c && c <= '\u{8FF}') || ('\u{FB1D}' <= c && c
            <= '\u{FDFF}') || ('\u{FE70}' <= c && c <= '\u{FEFF}'),
{
}

/// One run is read upright where it stands on end, from right to left where more of its
/// characters are of such scripts than are other letters, and from left to right else.
pub proof fn letters_decide_the_direction(item: TextItem, angle: int)
    ensures
        ({
            let found = direction_of(seq![item], angle);
            let text = item.raw_text@;
            if snapped(angle) == 90 || snapped(angle) == 270 {
                found == WritingDirection::Vertical
            } else if leftward(text, 0) > rightward(text, 0) {
                found == WritingDirection::RightToLeft
            } else {
                found == WritingDirection::LeftToRight
            }
        }),
{
    let text = item.raw_text@;
    lemma_letters(text, text.len() as int);
    reveal_with_fuel(rtl_letters, 2);
    reveal_with_fuel(ltr_letters, 2);
}

/// Every further run adds its letters.
pub proof fn runs_decide_together(items: Seq<TextItem>, item: TextItem)
    ensures
        rtl_letters(items.push(item), items.len() as int + 1) == rtl_letters(items, items.len() as int)
            + leftward(item.raw_text@, 0),
        ltr_letters(items.push(item), items.len() as int + 1) == ltr_letters(items, items.len() as int)
            + rightward(item.raw_text@, 0),
{
    let text = item.raw_text@;
    lemma_letters(text, text.len() as int);
    lemma_same_letters(items, items.push(item), items.len() as int);
}

proof fn lemma_same_letters(a: Seq<TextItem>, b: Seq<TextItem>, n: int)
    requires
        0 <= n <= a.len(),
        n <= b.len(),
        forall|k: int| 0 <= k < n ==> a[k] == b[k],
    ensures
        rtl_letters(a, n) == rtl_letters(b, n),
        ltr_letters(a, n) == ltr_letters(b, n),
    decreases n,
{
    if n > 0 {
        lemma_same_letters(a, b, n - 1);
    }
}

} // verus!
