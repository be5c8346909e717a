//! What of a recognized line native text owns, and what is left of it.

use vstd::prelude::*;

use super::matching::{
    best_window, near_enough, position_error, window_is, Glyph, Line, NativeMatch,
};
use super::overlap::{
    anchor_upto, between, half_shared, measured_size, part_of, pieces_of, pieces_upto, quad_box,
    share_of, turned_alike, MatchOrder, Piece,
};
use super::plan_laws::common_area;
use crate::geometry::{Bbox, Point};
use crate::line::assembly_laws::apart;
use crate::sorting::{sorted, sorting_holds_the_same, sorting_orders_and_keeps, Order};
use crate::types::{FactModel, Quad, RepairAction, TextItem};

verus! {

/// Whether a pattern stands in the glyphs from an index on.
pub open spec fn stands_at(glyphs: Seq<Glyph>, pattern: Seq<Glyph>, at: int) -> bool {
    forall|k: int| 0 <= k < pattern.len() ==> (#[trigger] pattern[k]).code == glyphs[at + k].code
}

proof fn lemma_window(
    line: Line,
    last: Option<NativeMatch>,
    span: (int, int),
    pattern: Seq<Glyph>,
    n: int,
)
    requires
        0 <= n,
    ensures
        match best_window(line, last, span, pattern, n) {
            None => forall|w: int| 0 <= w < n ==> !#[trigger] stands_at(line.glyphs, pattern, w),
            Some(at) => {
                &&& 0 <= at < n && stands_at(line.glyphs, pattern, at)
                &&& forall|w: int|
                    0 <= w < n && #[trigger] stands_at(line.glyphs, pattern, w) ==> position_error(
                        line,
                        last,
                        span,
                        pattern.len() as int,
                        at,
                    ) <= position_error(line, last, span, pattern.len() as int, w) && (w < at
                        ==> position_error(line, last, span, pattern.len() as int, at)
                        < position_error(line, last, span, pattern.len() as int, w))
            },
        },
    decreases n,
{
    if n > 0 {
        lemma_window(line, last, span, pattern, n - 1);
        assert(window_is(line.glyphs, pattern, n - 1) <==> stands_at(line.glyphs, pattern, n - 1));
    }
}

/// Native text owns the window that spells it nearest to where it is drawn, the first of several:
/// the middle of the window among the characters against the middle of the text on the line.
pub proof fn native_text_owns_the_nearest_window(
    line: Line,
    span: (int, int),
    pattern: Seq<Glyph>,
    n: int,
)
    requires
        n >= 0,
    ensures
        match best_window(line, None, span, pattern, n) {
            None => forall|w: int| 0 <= w < n ==> !#[trigger] stands_at(line.glyphs, pattern, w),
            Some(at) => {
                let wide = line.frame.2 - line.frame.0;
                let drawn = (span.0 + span.1) * line.glyphs.len();
                let size = pattern.len() as int;
                &&& 0 <= at < n && stands_at(line.glyphs, pattern, at)
                &&& forall|w: int|
                    0 <= w < n && #[trigger] stands_at(line.glyphs, pattern, w) ==> apart(
                        (2 * at + size) * wide,
                        drawn,
                    ) <= apart((2 * w + size) * wide, drawn) && (w < at ==> apart(
                        (2 * at + size) * wide,
                        drawn,
                    ) < apart((2 * w + size) * wide, drawn))
            },
        },
{
    lemma_window(line, None, span, pattern, n);
    let wide = line.frame.2 - line.frame.0;
    let drawn = (span.0 + span.1) * line.glyphs.len();
    let size = pattern.len() as int;
    assert forall|w: int| position_error(line, None, span, size, w) == #[trigger] apart(
        (2 * w + size) * wide,
        drawn,
    ) by {}
    if let Some(at) = best_window(line, None, span, pattern, n) {
        assert(position_error(line, None, span, size, at) == apart((2 * at + size) * wide, drawn));
        assert forall|w: int|
            0 <= w < n && #[trigger] stands_at(line.glyphs, pattern, w) implies apart(
            (2 * at + size) * wide,
            drawn,
        ) <= apart((2 * w + size) * wide, drawn) && (w < at ==> apart((2 * at + size) * wide, drawn)
            < apart((2 * w + size) * wide, drawn)) by {
            assert(position_error(line, None, span, size, w) == apart(
                (2 * w + size) * wide,
                drawn,
            ));
        }
    }
}

/// Native text right behind the last owned text, on the page by at most the height of the line
/// and in the characters by blanks alone, is where it should be.
pub proof fn adjacent_text_is_well_placed(
    line: Line,
    previous: NativeMatch,
    span: (int, int),
    size: int,
    at: int,
)
    requires
        apart(span.0, previous.inline_end as int) <= line.frame.3 - line.frame.1,
        previous.end <= line.glyphs[at].at,
        forall|k: int|
            previous.end <= k < line.glyphs[at].at ==> crate::chars::is_space(
                #[trigger] line.text[k],
            ),
    ensures
        position_error(line, Some(previous), span, size, at) == 0,
{
}

/// A window is near enough where its middle is off by at most a quarter of the length of the line
/// and its height: the distance counts in parts of twice the number of characters.
pub proof fn windows_lie_within_a_quarter(line: Line, error: int)
    ensures
        near_enough(line, error) <==> 2 * error <= line.glyphs.len() * ((line.frame.2
            - line.frame.0) + 4 * (line.frame.3 - line.frame.1)),
{
}

/// Two boxes are rivals where they share at least half of either.
pub proof fn rivals_share_half_of_either(a: Bbox, b: Bbox)
    requires
        a.left < a.right,
        a.top < a.bottom,
        b.left < b.right,
        b.top < b.bottom,
    ensures
        half_shared(a, b) <==> 2 * common_area(a, b) >= (a.right - a.left) * (a.bottom - a.top) || 2
            * common_area(a, b) >= (b.right - b.left) * (b.bottom - b.top),
{
    assert(a.shared_area(b) == common_area(a, b)) by (nonlinear_arith)
        requires
            a.shared_area(b) == vstd::math::max(a.overlap_x(b), 0) * vstd::math::max(
                a.overlap_y(b),
                0,
            ),
    {
    }
    assert(a.size() > 0) by (nonlinear_arith)
        requires
            a.size() == (a.right - a.left) * (a.bottom - a.top),
            a.left < a.right,
            a.top < a.bottom,
    ;
    assert(b.size() > 0) by (nonlinear_arith)
        requires
            b.size() == (b.right - b.left) * (b.bottom - b.top),
            b.left < b.right,
            b.top < b.bottom,
    ;
}

/// Whether a match owns a character.
pub open spec fn owns(m: NativeMatch, c: int) -> bool {
    m.start <= c < m.end
}

/// Whether a character is in one of some pieces.
pub open spec fn in_pieces(pieces: Seq<Piece>, c: int) -> bool {
    exists|p: int| 0 <= p < pieces.len() && (#[trigger] pieces[p]).from <= c < pieces[p].to
}

proof fn lemma_pieces(matches: Seq<NativeMatch>, n: int)
    requires
        0 <= n <= matches.len(),
        forall|k: int| 0 <= k < matches.len() ==> (#[trigger] matches[k]).start <= matches[k].end,
        forall|a: int, b: int|
            0 <= a < b < matches.len() ==> (#[trigger] matches[a]).start <= (
            #[trigger] matches[b]).start,
    ensures
        ({
            let (pieces, from, start) = pieces_upto(matches, n);
            &&& forall|k: int| 0 <= k < n ==> (#[trigger] matches[k]).end <= from
            &&& forall|p: int|
                0 <= p < pieces.len() ==> (#[trigger] pieces[p]).from < pieces[p].to
                    && pieces[p].to <= from && n > 0 && pieces[p].to <= matches[n - 1].start
            &&& forall|c: int|
                0 <= c < from ==> (#[trigger] in_pieces(pieces, c) <==> forall|k: int|
                    0 <= k < n ==> !#[trigger] owns(matches[k], c))
        }),
    decreases n,
{
    if n > 0 {
        lemma_pieces(matches, n - 1);
        let (pieces, from, start) = pieces_upto(matches, n - 1);
        let (after, next, _) = pieces_upto(matches, n);
        let m = matches[n - 1];
        assert forall|p: int| 0 <= p < after.len() implies (#[trigger] after[p]).from < after[p].to
            && after[p].to <= next && after[p].to <= m.start by {
            if p < pieces.len() {
                assert(pieces[p] == after[p]);
                if n > 1 {
                    assert(matches[n - 2].start <= matches[n - 1].start);
                }
            }
        }
        assert forall|c: int| 0 <= c < next implies (#[trigger] in_pieces(after, c) <==> forall|
            k: int,
        |
            0 <= k < n ==> !#[trigger] owns(matches[k], c)) by {
            if in_pieces(after, c) {
                let p = choose|p: int|
                    0 <= p < after.len() && (#[trigger] after[p]).from <= c < after[p].to;
                assert(c < m.start);
                assert forall|k: int| 0 <= k < n implies !#[trigger] owns(matches[k], c) by {
                    if k < n - 1 {
                        if p < pieces.len() {
                            assert(pieces[p] == after[p]);
                            assert(c < from);
                            assert(in_pieces(pieces, c));
                        } else {
                            assert(matches[k].end <= from);
                        }
                    }
                }
            }
            if forall|k: int| 0 <= k < n ==> !#[trigger] owns(matches[k], c) {
                assert(!owns(matches[n - 1], c));
                if c < from {
                    assert forall|k: int| 0 <= k < n - 1 implies !#[trigger] owns(matches[k], c) by {}
                    assert(in_pieces(pieces, c));
                    let p = choose|p: int|
                        0 <= p < pieces.len() && (#[trigger] pieces[p]).from <= c < pieces[p].to;
                    assert(after[p] == pieces[p]);
                } else {
                    assert(c < m.start);
                    assert(after[pieces.len() as int].from <= c);
                }
            }
        }
    }
}

/// What is left of a line is exactly what no match owns: a character is in a piece where no match
/// owns it.
pub proof fn pieces_hold_what_no_match_owns(
    matches: Seq<NativeMatch>,
    length: int,
    wide: int,
    c: int,
)
    requires
        forall|k: int|
            0 <= k < matches.len() ==> (#[trigger] matches[k]).start <= matches[k].end <= length,
        0 <= c < length <= usize::MAX,
    ensures
        ({
            let pieces = pieces_of(sorted(matches, MatchOrder), length, wide);
            in_pieces(pieces, c) <==> forall|k: int|
                0 <= k < matches.len() ==> !#[trigger] owns(matches[k], c)
        }),
{
    let s = sorted(matches, MatchOrder);
    sorting_orders_and_keeps(matches, MatchOrder);
    assert forall|k: int| 0 <= k < s.len() implies (#[trigger] s[k]).start <= s[k].end <= length by {
        sorting_holds_the_same(matches, MatchOrder, s[k]);
        assert(s.contains(s[k]));
        let j = matches.index_of(s[k]);
        assert(matches[j] == s[k]);
    }
    assert forall|a: int, b: int| 0 <= a < b < s.len() implies (#[trigger] s[a]).start <= (
    #[trigger] s[b]).start by {
        assert(!MatchOrder.lt(s[b], s[a]));
    }
    let n = s.len() as int;
    lemma_pieces(s, n);
    let (before, from, start) = pieces_upto(s, n);
    let pieces = pieces_of(s, length, wide);
    assert((forall|k: int| 0 <= k < n ==> !#[trigger] owns(s[k], c)) <==> forall|k: int|
        0 <= k < matches.len() ==> !#[trigger] owns(matches[k], c)) by {
        if forall|k: int| 0 <= k < n ==> !#[trigger] owns(s[k], c) {
            assert forall|k: int| 0 <= k < matches.len() implies !#[trigger] owns(
                matches[k],
                c,
            ) by {
                sorting_holds_the_same(matches, MatchOrder, matches[k]);
                assert(matches.contains(matches[k]));
                let j = s.index_of(matches[k]);
                assert(!owns(s[j], c));
            }
        }
        if forall|k: int| 0 <= k < matches.len() ==> !#[trigger] owns(matches[k], c) {
            assert forall|k: int| 0 <= k < n implies !#[trigger] owns(s[k], c) by {
                sorting_holds_the_same(matches, MatchOrder, s[k]);
                assert(s.contains(s[k]));
                let j = matches.index_of(s[k]);
                assert(!owns(matches[j], c));
            }
        }
    }
    if c < from {
        if in_pieces(pieces, c) {
            let p = choose|p: int|
                0 <= p < pieces.len() && (#[trigger] pieces[p]).from <= c < pieces[p].to;
            assert(p < before.len());
            assert(before[p] == pieces[p]);
            assert(in_pieces(before, c));
        }
        if in_pieces(before, c) {
            let p = choose|p: int|
                0 <= p < before.len() && (#[trigger] before[p]).from <= c < before[p].to;
            assert(pieces[p] == before[p]);
        }
    } else {
        assert(pieces[before.len() as int].from <= c < pieces[before.len() as int].to);
        assert forall|k: int| 0 <= k < n implies !#[trigger] owns(s[k], c) by {
            assert(s[k].end <= from);
        }
    }
}

/// Native text calibrates a line where its size is measured, on a baseline, between a half and
/// twice the size of the line, and it is turned alike.
pub proof fn measured_text_calibrates_lines(native: TextItem, item: FactModel)
    ensures
        measured_size(native, item) is Some <==> native.baseline is Some && native.style is Some
            && !native.style->0.font_size_estimated && native.style->0.font_size is Some && {
            let size = native.style->0.font_size->0 as int;
            let line = if item.style is Some && item.style->0.font_size is Some {
                item.style->0.font_size->0 as int
            } else {
                item.bbox.bottom - item.bbox.top
            };
            size > 0 && 2 * size >= line && size <= 2 * line
        } && turned_alike(native.rotation.angle as int, item.rotation.angle as int),
        measured_size(native, item) is Some ==> measured_size(native, item)
            == native.style->0.font_size,
{
}

/// The native text that calibrates a line is the largest of those that can, the last of several.
pub proof fn largest_text_calibrates_lines(
    natives: Seq<TextItem>,
    matches: Seq<NativeMatch>,
    item: FactModel,
    n: int,
)
    requires
        0 <= n <= matches.len(),
    ensures
        match anchor_upto(natives, matches, item, n) {
            None => forall|k: int|
                0 <= k < n ==> measured_size(
                    natives[(#[trigger] matches[k]).item as int],
                    item,
                ) is None,
            Some(at) => measured_size(natives[at], item) is Some && exists|k: int|
                0 <= k < n && (#[trigger] matches[k]).item == at && forall|j: int|
                    0 <= j < n && measured_size(
                        natives[(#[trigger] matches[j]).item as int],
                        item,
                    ) is Some ==> {
                        let other = measured_size(natives[matches[j].item as int], item)->0;
                        let size = measured_size(natives[at], item)->0;
                        other <= size && (j > k ==> other < size)
                    },
        },
    decreases n,
{
    if n > 0 {
        largest_text_calibrates_lines(natives, matches, item, n - 1);
        let before = anchor_upto(natives, matches, item, n - 1);
        let at = matches[n - 1].item as int;
        if let Some(other) = before {
            let k = choose|k: int|
                0 <= k < n - 1 && (#[trigger] matches[k]).item == other && forall|j: int|
                    0 <= j < n - 1 && measured_size(
                        natives[(#[trigger] matches[j]).item as int],
                        item,
                    ) is Some ==> {
                        let size = measured_size(natives[other], item)->0;
                        measured_size(natives[matches[j].item as int], item)->0 <= size && (j > k
                            ==> measured_size(natives[matches[j].item as int], item)->0 < size)
                    };
            assert(matches[k].item == other);
        }
        assert(matches[n - 1].item == at);
    }
}

/// A point between two lies the given part of the way along, rounded down: at the first for no
/// part of it, at the second for all.
pub proof fn parts_divide_lines(a: Point, b: Point, part: int, whole: int)
    requires
        0 <= part <= whole,
        whole > 0,
    ensures
        between(a, b, 0, whole) == a,
        between(a, b, whole, whole) == b,
        between(a, b, part, whole).x * whole <= a.x * (whole - part) + b.x * part,
        a.x * (whole - part) + b.x * part < between(a, b, part, whole).x * whole + whole,
        between(a, b, part, whole).y * whole <= a.y * (whole - part) + b.y * part,
        a.y * (whole - part) + b.y * part < between(a, b, part, whole).y * whole + whole,
{
    lemma_between(a.x as int, b.x as int, part, whole);
    lemma_between(a.y as int, b.y as int, part, whole);
    lemma_between(a.x as int, b.x as int, 0, whole);
    lemma_between(a.y as int, b.y as int, 0, whole);
    lemma_between(a.x as int, b.x as int, whole, whole);
    lemma_between(a.y as int, b.y as int, whole, whole);
}

proof fn lemma_between(a: int, b: int, part: int, whole: int)
    requires
        0 <= part <= whole,
        whole > 0,
        -0x8000_0000 <= a <= 0x7FFF_FFFF,
        -0x8000_0000 <= b <= 0x7FFF_FFFF,
    ensures
        ({
            let x = a + ((b - a) * part) / whole;
            &&& -0x8000_0000 <= x <= 0x7FFF_FFFF
            &&& x * whole <= a * (whole - part) + b * part
            &&& a * (whole - part) + b * part < x * whole + whole
            &&& part == 0 ==> x == a
            &&& part == whole ==> x == b
        }),
{
    let d = (b - a) * part;
    let q = d / whole;
    vstd::arithmetic::div_mod::lemma_fundamental_div_mod(d, whole);
    vstd::arithmetic::div_mod::lemma_mod_bound(d, whole);
    let r = d % whole;
    let x = a + q;
    assert(x * whole + r == a * (whole - part) + b * part) by (nonlinear_arith)
        requires
            x == a + q,
            d == (b - a) * part,
            d == whole * q + r,
    ;
    assert(-0x8000_0000 <= x <= 0x7FFF_FFFF) by (nonlinear_arith)
        requires
            x * whole + r == a * (whole - part) + b * part,
            0 <= r < whole,
            0 <= part <= whole,
            -0x8000_0000 <= a <= 0x7FFF_FFFF,
            -0x8000_0000 <= b <= 0x7FFF_FFFF,
    {
        assert(a * (whole - part) <= 0x7FFF_FFFF * (whole - part));
        assert(b * part <= 0x7FFF_FFFF * part);
        assert(a * (whole - part) >= -0x8000_0000 * (whole - part));
        assert(b * part >= -0x8000_0000 * part);
        if x > 0x7FFF_FFFF {
            assert(x * whole >= 0x8000_0000 * whole);
        }
        if x < -0x8000_0000 {
            assert(x * whole <= -0x8000_0001 * whole);
        }
    }
    if part == 0 {
        assert(d == 0) by (nonlinear_arith)
            requires
                d == (b - a) * part,
                part == 0,
        ;
        assert(q == 0) by (nonlinear_arith)
            requires
                0 == whole * q + r,
                0 <= r < whole,
        ;
    }
    if part == whole {
        assert(q == b - a) by (nonlinear_arith)
            requires
                d == (b - a) * part,
                part == whole,
                d == whole * q + r,
                0 <= r < whole,
        ;
    }
}

/// A piece takes up its part of the line, from the other end in text from the right; where native
/// text hides it, its share of the characters stands for it.
pub proof fn pieces_take_up_their_parts(piece: Piece, length: int, wide: int)
    requires
        length > 0,
    ensures
        piece.start < piece.end ==> share_of(piece, length, wide, false) == (
            piece.start as int,
            piece.end as int,
            wide,
        ),
        piece.start >= piece.end ==> share_of(piece, length, wide, false) == (
            piece.from as int,
            piece.to as int,
            length,
        ),
        ({
            let (a, b, w) = share_of(piece, length, wide, false);
            share_of(piece, length, wide, true) == (w - b, w - a, w)
        }),
{
}

/// The box of four corners holds each, and has one on every side.
pub proof fn corner_boxes_are_tight(q: Quad)
    ensures
        ({
            let b = quad_box(q);
            &&& b.left <= q.a.x && b.left <= q.b.x && b.left <= q.c.x && b.left <= q.d.x
            &&& b.right >= q.a.x && b.right >= q.b.x && b.right >= q.c.x && b.right >= q.d.x
            &&& b.top <= q.a.y && b.top <= q.b.y && b.top <= q.c.y && b.top <= q.d.y
            &&& b.bottom >= q.a.y && b.bottom >= q.b.y && b.bottom >= q.c.y && b.bottom >= q.d.y
            &&& b.left == q.a.x || b.left == q.b.x || b.left == q.c.x || b.left == q.d.x
            &&& b.right == q.a.x || b.right == q.b.x || b.right == q.c.x || b.right == q.d.x
            &&& b.top == q.a.y || b.top == q.b.y || b.top == q.c.y || b.top == q.d.y
            &&& b.bottom == q.a.y || b.bottom == q.b.y || b.bottom == q.c.y || b.bottom == q.d.y
        }),
{
}

/// Places are counted from where a line is read from: from its left end, and from its right end in
/// text from the right; and they are kept on the line.
pub proof fn places_count_from_the_reading_start(line: Line, f: (int, int, int, int), x: int)
    requires
        line.frame.0 <= line.frame.2,
    ensures
        !line.rtl ==> line.interval(f) == (f.0 - line.frame.0, f.2 - line.frame.0),
        line.rtl ==> line.interval(f) == (line.frame.2 - f.2, line.frame.2 - f.0),
        0 <= line.inside(x) <= line.frame.2 - line.frame.0,
        0 <= x <= line.frame.2 - line.frame.0 ==> line.inside(x) == x,
        x < 0 ==> line.inside(x) == 0,
        x > line.frame.2 - line.frame.0 ==> line.inside(x) == line.frame.2 - line.frame.0,
{
}

/// A part of a line shows the characters of its piece, was recognized with the confidence of the
/// line, and is noted as cut.
pub proof fn parts_show_their_pieces(
    item: FactModel,
    piece: Piece,
    wide: int,
    rtl: bool,
    index: int,
)
    ensures
        ({
            let part = part_of(item, piece, wide, rtl, index, None);
            &&& part.raw_text == item.raw_text.subrange(piece.from as int, piece.to as int)
            &&& part.confidence == item.confidence && part.source == item.source
            &&& part.repair_actions.len() == item.repair_actions.len() + 1
            &&& part.repair_actions.last() == RepairAction::OcrNativeOverlap
            &&& part.rotation == item.rotation && part.style == item.style
        }),
{
}

} // verus!
