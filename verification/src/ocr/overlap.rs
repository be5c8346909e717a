//! Recognized text that native facts do not own already.

use vstd::math::{abs, max, min};
use vstd::prelude::*;

use crate::chars::{is_space, is_whitespace, push_text};
use crate::geometry::{floor_div, narrow, narrowed, Baseline, Bbox, Point};
use crate::line::axes::{Frame, TextAxes, TURN};
use crate::rope::Rope;
use crate::sorting::{sort, sorted, sorting_orders_and_keeps, Order, Sorter};
use crate::text_rules::TextRules;
use crate::types::{
    fact_models, fragment_id, note, warn, warning_models, FactModel, PageWarning, Quad, RepairAction,
    StyleModel, TextItem, TextStyle, WarningModel, DEGREE,
};

use super::coverage::{covered, covered_area};
use super::index::{hits, positions, TextIndex};
use super::matching::{
    matches_upto, normalize, normalized, well_matched, InlineOrder, Line, LineFacts, NativeMatch,
};
use super::spacing::{is_rtl, reads_left, real_frame};

verus! {

/// Whether two boxes share at least half of the smaller one.
pub open spec fn half_shared(a: Bbox, b: Bbox) -> bool {
    let least = min(a.size(), b.size());
    least > 0 && 2 * a.shared_area(b) >= least
}

/// Whether two boxes share at least half of the smaller one.
pub fn is_half_shared(a: &Bbox, b: &Bbox) -> (yes: bool)
    ensures
        yes == half_shared(*a, *b),
{
    let x: i128 = a.area();
    let y: i128 = b.area();
    let least: i128 = if x < y {
        x
    } else {
        y
    };
    least > 0 && 2 * a.intersection_area(b) >= least
}

/// The native facts, at the first `n` of some positions, that share half with a line.
pub open spec fn rivals_upto(index: Seq<TextItem>, found: Seq<int>, b: Bbox, n: int) -> Seq<TextItem>
    decreases n,
{
    if n <= 0 {
        Seq::empty()
    } else if half_shared(b, index[found[n - 1]].bbox) {
        rivals_upto(index, found, b, n - 1).push(index[found[n - 1]])
    } else {
        rivals_upto(index, found, b, n - 1)
    }
}

/// The native facts that share half with a line.
pub open spec fn rivals(index: Seq<TextItem>, b: Bbox) -> Seq<TextItem> {
    rivals_upto(index, hits(index, b), b, hits(index, b).len() as int)
}

/// The boxes of facts.
pub open spec fn boxes_of(items: Seq<TextItem>) -> Seq<Bbox> {
    Seq::new(items.len(), |i: int| items[i].bbox)
}

/// Whether boxes cover at least four fifths of a box.
pub open spec fn mostly_covered(b: Bbox, boxes: Seq<Bbox>) -> bool {
    10 * covered(b, boxes) >= 8 * b.size()
}

/// The line that a recognized fact is.
pub open spec fn line_of(rules: TextRules, item: FactModel) -> Line {
    Line {
        text: item.raw_text,
        glyphs: normalized(rules, item.raw_text, item.raw_text.len() as int),
        frame: (TextAxes { rotation: item.rotation }).frame_of(item.bbox),
        rotation: item.rotation,
        rtl: reads_left(item),
    }
}

/// The native facts that share half with a line, along the line.
pub open spec fn rivals_along(index: Seq<TextItem>, item: FactModel) -> Seq<TextItem> {
    sorted(
        rivals(index, item.bbox),
        InlineOrder { rotation: item.rotation, rtl: reads_left(item) },
    )
}

/// The characters of a line that native facts own.
pub open spec fn owned_parts(
    rules: TextRules,
    item: FactModel,
    natives: Seq<TextItem>,
) -> Seq<NativeMatch> {
    matches_upto(rules, line_of(rules, item), natives, natives.len() as int)
}

/// Font size of a line, or its height where none is known.
pub open spec fn line_size(item: FactModel) -> int {
    match item.style {
        Some(style) => match style.font_size {
            Some(size) => size as int,
            None => item.bbox.high(),
        },
        None => item.bbox.high(),
    }
}

/// Whether two angles differ by at most two degrees, full turns aside.
pub open spec fn turned_alike(a: int, b: int) -> bool {
    let angle = (abs(a - b) as int) % (TURN as int);
    min(angle, TURN - angle) <= 2 * DEGREE
}

/// The measured font size of a native fact that can calibrate a line.
pub open spec fn measured_size(native: TextItem, item: FactModel) -> Option<i32> {
    match native.style {
        Some(style) => match style.font_size {
            Some(size) => if native.baseline is Some && !style.font_size_estimated && size > 0 && 2
                * size >= line_size(item) && size <= 2 * line_size(item) && turned_alike(
                native.rotation.angle as int,
                item.rotation.angle as int,
            ) {
                Some(size)
            } else {
                None
            },
            None => None,
        },
        None => None,
    }
}

/// The match, among the first `n`, whose native fact calibrates the line: the
/// last one with the largest measured size.
pub open spec fn anchor_upto(
    natives: Seq<TextItem>,
    matches: Seq<NativeMatch>,
    item: FactModel,
    n: int,
) -> Option<int>
    decreases n,
{
    if n <= 0 {
        None
    } else {
        let before = anchor_upto(natives, matches, item, n - 1);
        let at = matches[n - 1].item as int;
        match measured_size(natives[at], item) {
            None => before,
            Some(size) => match before {
                None => Some(at),
                Some(other) => if size >= measured_size(natives[other], item)->0 {
                    Some(at)
                } else {
                    before
                },
            },
        }
    }
}

/// Matches by the characters they own.
pub struct MatchOrder;

impl Order<NativeMatch> for MatchOrder {
    open spec fn lt(&self, a: NativeMatch, b: NativeMatch) -> bool {
        a.start < b.start || (a.start == b.start && a.end < b.end)
    }

    proof fn is_strict_weak(&self, a: NativeMatch, b: NativeMatch, c: NativeMatch) {
    }
}

impl Sorter<NativeMatch> for MatchOrder {
    fn precedes(&self, a: &NativeMatch, b: &NativeMatch) -> (yes: bool) {
        a.start < b.start || (a.start == b.start && a.end < b.end)
    }
}

/// Characters that no native fact owns, and the part of the line they take up.
#[derive(Debug, Clone, Copy, PartialEq, Eq, Structural)]
pub struct Piece {
    pub from: usize,
    pub to: usize,
    pub start: i64,
    pub end: i64,
}

/// What is left after the first `n` matches: the pieces, the first character
/// not looked at, and where the line goes on.
pub open spec fn pieces_upto(matches: Seq<NativeMatch>, n: int) -> (Seq<Piece>, usize, i64)
    decreases n,
{
    if n <= 0 {
        (Seq::empty(), 0, 0)
    } else {
        let (pieces, from, start) = pieces_upto(matches, n - 1);
        let m = matches[n - 1];
        (
            if m.start > from {
                pieces.push(Piece { from, to: m.start, start, end: m.inline_start })
            } else {
                pieces
            },
            if from >= m.end {
                from
            } else {
                m.end
            },
            if start >= m.inline_end {
                start
            } else {
                m.inline_end
            },
        )
    }
}

/// What the matches leave of a line with this many characters and this length.
pub open spec fn pieces_of(matches: Seq<NativeMatch>, length: int, wide: int) -> Seq<Piece> {
    let (pieces, from, start) = pieces_upto(matches, matches.len() as int);
    if from < length {
        pieces.push(Piece { from, to: length as usize, start, end: wide as i64 })
    } else {
        pieces
    }
}

/// Whether only blanks stand in a piece.
pub open spec fn is_blank_piece(text: Seq<char>, piece: Piece) -> bool {
    forall|k: int| piece.from <= k < piece.to ==> is_space(#[trigger] text[k])
}

/// The point a part of the way from one point to another, rounded down.
pub open spec fn between(a: Point, b: Point, part: int, whole: int) -> Point {
    Point {
        x: narrowed(a.x + ((b.x - a.x) * part) / whole) as i32,
        y: narrowed(a.y + ((b.y - a.y) * part) / whole) as i32,
    }
}

/// The corners of a line, in reading order.
pub open spec fn corners_of(item: FactModel) -> Quad {
    match item.quad {
        Some(quad) => quad,
        None => Quad {
            a: Point { x: item.bbox.left, y: item.bbox.top },
            b: Point { x: item.bbox.right, y: item.bbox.top },
            c: Point { x: item.bbox.right, y: item.bbox.bottom },
            d: Point { x: item.bbox.left, y: item.bbox.bottom },
        },
    }
}

/// The part of a line that a piece takes up: start, end and the whole.
///
/// Overlapping native boxes can hide the part; the share of the characters
/// stands for it then.
pub open spec fn share_of(piece: Piece, length: int, wide: int, rtl: bool) -> (int, int, int) {
    let (start, end, whole) = if piece.end <= piece.start {
        (piece.from as int, piece.to as int, max(length, 1))
    } else {
        (piece.start as int, piece.end as int, wide)
    };
    if rtl {
        (whole - end, whole - start, whole)
    } else {
        (start, end, whole)
    }
}

/// The corners of a part of a line.
pub open spec fn part_quad(q: Quad, share: (int, int, int)) -> Quad {
    Quad {
        a: between(q.a, q.b, share.0, share.2),
        b: between(q.a, q.b, share.1, share.2),
        c: between(q.d, q.c, share.1, share.2),
        d: between(q.d, q.c, share.0, share.2),
    }
}

/// The box around four corners.
pub open spec fn quad_box(q: Quad) -> Bbox {
    Bbox {
        left: min(min(q.a.x as int, q.b.x as int), min(q.c.x as int, q.d.x as int)) as i32,
        top: min(min(q.a.y as int, q.b.y as int), min(q.c.y as int, q.d.y as int)) as i32,
        right: max(max(q.a.x as int, q.b.x as int), max(q.c.x as int, q.d.x as int)) as i32,
        bottom: max(max(q.a.y as int, q.b.y as int), max(q.c.y as int, q.d.y as int)) as i32,
    }
}

/// A style calibrated by a measured one.
pub open spec fn calibrated(style: StyleModel, measured: TextStyle) -> StyleModel {
    StyleModel {
        font_size: measured.font_size,
        font_height: if measured.font_height is Some && measured.font_height->0 > 0 {
            measured.font_height
        } else {
            measured.font_size
        },
        font_size_estimated: true,
        ..style
    }
}

/// The baseline of a part, moved to the height of a measured one.
pub open spec fn moved_baseline(part: Baseline, anchor: TextItem) -> Baseline {
    let axes = TextAxes { rotation: anchor.rotation };
    let y = axes.cross_of(anchor.baseline->0.start);
    Baseline {
        start: axes.point_at(axes.inline_of(part.start), y),
        end: axes.point_at(axes.inline_of(part.end), y),
    }
}

/// The part of a line that a piece is.
pub open spec fn part_of(
    item: FactModel,
    piece: Piece,
    wide: int,
    rtl: bool,
    index: int,
    anchor: Option<TextItem>,
) -> FactModel {
    let text = item.raw_text;
    let quad = part_quad(corners_of(item), share_of(piece, text.len() as int, wide, rtl));
    let whole = item;
    let line = Baseline { start: quad.d, end: quad.c };
    let plain = FactModel {
        id: fragment_id(whole.id, index as nat),
        raw_text: text.subrange(piece.from as int, piece.to as int),
        quad: if quad_box(quad).valid() {
            Some(quad)
        } else {
            None
        },
        bbox: if quad_box(quad).valid() {
            quad_box(quad)
        } else {
            item.bbox
        },
        baseline: Some(line),
        repair_actions: whole.repair_actions.push(RepairAction::OcrNativeOverlap),
        ..whole
    };
    match anchor {
        None => plain,
        Some(native) => FactModel {
            baseline: Some(moved_baseline(line, native)),
            rotation: native.rotation,
            style: match (whole.style, native.style) {
                (Some(style), Some(measured)) => Some(calibrated(style, measured)),
                (style, _) => style,
            },
            ..plain
        },
    }
}

/// The parts that the first `n` pieces are; blank pieces are dropped.
pub open spec fn parts_upto(
    item: FactModel,
    pieces: Seq<Piece>,
    wide: int,
    rtl: bool,
    anchor: Option<TextItem>,
    n: int,
) -> Seq<FactModel>
    decreases n,
{
    if n <= 0 {
        Seq::empty()
    } else {
        let before = parts_upto(item, pieces, wide, rtl, anchor, n - 1);
        if is_blank_piece(item.raw_text, pieces[n - 1]) {
            before
        } else {
            before.push(part_of(item, pieces[n - 1], wide, rtl, before.len() as int, anchor))
        }
    }
}

/// The warning about a line that was kept whole.
pub open spec fn partial_overlap(id: Seq<char>) -> WarningModel {
    WarningModel {
        code: "OcrPartialOverlap"@,
        stage: "ocr"@,
        message: "retained "@ + id + " because partial native overlap could not be aligned"@,
    }
}

/// What is kept of a recognized line beside native facts, and what is said about it.
pub open spec fn kept_of(
    rules: TextRules,
    item: FactModel,
    index: Seq<TextItem>,
) -> (Seq<FactModel>, Seq<WarningModel>) {
    let natives = rivals_along(index, item);
    let line = line_of(rules, item);
    let matches = owned_parts(rules, item, natives);
    if rivals(index, item.bbox).len() == 0 {
        (seq![item], Seq::empty())
    } else if mostly_covered(item.bbox, boxes_of(rivals(index, item.bbox))) {
        (Seq::empty(), Seq::empty())
    } else if !real_frame(line.frame) {
        (seq![item], Seq::empty())
    } else if matches.len() == 0 {
        (seq![item], seq![partial_overlap(item.id)])
    } else {
        let anchor = match anchor_upto(natives, matches, item, matches.len() as int) {
            None => None,
            Some(at) => Some(natives[at]),
        };
        let pieces = pieces_of(
            sorted(matches, MatchOrder),
            item.raw_text.len() as int,
            line.wide(),
        );
        (parts_upto(item, pieces, line.wide(), line.rtl, anchor, pieces.len() as int), Seq::empty())
    }
}

/// The native facts that share half with a line, as copies.
fn find_rivals(index: &TextIndex, b: &Bbox) -> (found: Vec<TextItem>)
    requires
        index.wf(),
        b.valid(),
    ensures
        found@ == rivals(index@, *b),
{
    let at: Vec<usize> = index.overlapping(*b);
    let mut found: Vec<TextItem> = Vec::new();
    let mut i: usize = 0;
    while i < at.len()
        invariant
            index.wf(),
            b.valid(),
            positions(at@) == hits(index@, *b),
            forall|k: int| 0 <= k < at@.len() ==> #[trigger] at@[k] < index@.len(),
            i <= at@.len(),
            found@ == rivals_upto(index@, positions(at@), *b, i as int),
        decreases at@.len() - i,
    {
        assert(positions(at@)[i as int] == at@[i as int]);
        let item: &TextItem = index.item(at[i]);
        if is_half_shared(b, &item.bbox) {
            found.push(item.copy());
        }
        i = i + 1;
    }
    found
}

/// The boxes of facts.
fn list_boxes(items: &Vec<TextItem>) -> (boxes: Vec<Bbox>)
    ensures
        boxes@ == boxes_of(items@),
{
    let mut boxes: Vec<Bbox> = Vec::new();
    let mut i: usize = 0;
    while i < items.len()
        invariant
            i <= items@.len(),
            boxes@ == boxes_of(items@).take(i as int),
        decreases items@.len() - i,
    {
        boxes.push(items[i].bbox);
        i = i + 1;
        assert(boxes@ =~= boxes_of(items@).take(i as int));
    }
    assert(boxes_of(items@).take(items@.len() as int) =~= boxes_of(items@));
    boxes
}

/// Whether boxes cover at least four fifths of a box.
pub fn is_mostly_covered(b: &Bbox, boxes: &Vec<Bbox>) -> (yes: bool)
    requires
        b.valid(),
    ensures
        yes == mostly_covered(*b, boxes@),
{
    let area: i128 = b.area();
    10 * covered_area(b, boxes) >= 8 * area
}

/// Whether two angles differ by at most two degrees, full turns aside.
fn is_turned_alike(a: i32, b: i32) -> (yes: bool)
    ensures
        yes == turned_alike(a as int, b as int),
{
    let difference: i64 = if a < b {
        b as i64 - a as i64
    } else {
        a as i64 - b as i64
    };
    let angle: i64 = difference % (TURN as i64);
    angle <= 2 * (DEGREE as i64) || TURN as i64 - angle <= 2 * (DEGREE as i64)
}

/// The measured font size of a native fact that can calibrate a line.
fn measure(native: &TextItem, item: &TextItem) -> (size: Option<i32>)
    ensures
        size == measured_size(*native, item@),
{
    let line: i64 = match &item.style {
        Some(style) => match style.font_size {
            Some(size) => size as i64,
            None => item.bbox.height(),
        },
        None => item.bbox.height(),
    };
    match &native.style {
        Some(style) => match style.font_size {
            Some(size) => {
                let wide: i64 = size as i64;
                if native.baseline.is_some() && !style.font_size_estimated && size > 0 && 2 * wide
                    >= line && wide <= 2 * line && is_turned_alike(
                    native.rotation.angle,
                    item.rotation.angle,
                ) {
                    Some(size)
                } else {
                    None
                }
            },
            None => None,
        },
        None => None,
    }
}

/// The native fact that calibrates the line.
fn find_anchor(
    natives: &Vec<TextItem>,
    matches: &Vec<NativeMatch>,
    item: &TextItem,
) -> (anchor: Option<usize>)
    requires
        forall|k: int| 0 <= k < matches@.len() ==> (#[trigger] matches@[k]).item < natives@.len(),
    ensures
        match (anchor, anchor_upto(natives@, matches@, item@, matches@.len() as int)) {
            (None, None) => true,
            (Some(at), Some(expected)) => at == expected && at < natives@.len(),
            _ => false,
        },
{
    let mut best: Option<(usize, i32)> = None;
    let mut i: usize = 0;
    while i < matches.len()
        invariant
            forall|k: int|
                0 <= k < matches@.len() ==> (#[trigger] matches@[k]).item < natives@.len(),
            i <= matches@.len(),
            match (best, anchor_upto(natives@, matches@, item@, i as int)) {
                (None, None) => true,
                (Some((at, size)), Some(expected)) => at == expected && at < natives@.len()
                    && measured_size(natives@[at as int], item@) == Some(size),
                _ => false,
            },
        decreases matches@.len() - i,
    {
        let at: usize = matches[i].item;
        assert(matches@[i as int].item < natives@.len());
        if let Some(size) = measure(&natives[at], item) {
            let better: bool = match best {
                None => true,
                Some((_, largest)) => size >= largest,
            };
            if better {
                best = Some((at, size));
            }
        }
        i = i + 1;
    }
    match best {
        None => None,
        Some((at, _)) => Some(at),
    }
}

/// Whether a piece lies inside its line.
pub open spec fn well_cut(piece: Piece, length: int, wide: int) -> bool {
    &&& piece.from <= piece.to <= length
    &&& 0 <= piece.start <= wide
    &&& 0 <= piece.end <= wide
}

/// What the matches leave of a line.
fn cut(matches: &Vec<NativeMatch>, length: usize, wide: i64) -> (pieces: Vec<Piece>)
    requires
        wide >= 0,
        forall|k: int|
            0 <= k < matches@.len() ==> well_matched(
                #[trigger] matches@[k],
                length as int,
                wide as int,
            ),
    ensures
        pieces@ == pieces_of(matches@, length as int, wide as int),
        forall|k: int|
            0 <= k < pieces@.len() ==> well_cut(#[trigger] pieces@[k], length as int, wide as int),
{
    let mut pieces: Vec<Piece> = Vec::new();
    let mut from: usize = 0;
    let mut start: i64 = 0;
    let mut i: usize = 0;
    while i < matches.len()
        invariant
            wide >= 0,
            forall|k: int|
                0 <= k < matches@.len() ==> well_matched(
                    #[trigger] matches@[k],
                    length as int,
                    wide as int,
                ),
            i <= matches@.len(),
            from <= length,
            0 <= start <= wide,
            (pieces@, from, start) == pieces_upto(matches@, i as int),
            forall|k: int|
                0 <= k < pieces@.len() ==> well_cut(
                    #[trigger] pieces@[k],
                    length as int,
                    wide as int,
                ),
        decreases matches@.len() - i,
    {
        let m: NativeMatch = matches[i];
        assert(well_matched(matches@[i as int], length as int, wide as int));
        if m.start > from {
            pieces.push(Piece { from, to: m.start, start, end: m.inline_start });
        }
        if from < m.end {
            from = m.end;
        }
        if start < m.inline_end {
            start = m.inline_end;
        }
        i = i + 1;
    }
    if from < length {
        pieces.push(Piece { from, to: length, start, end: wide });
    }
    pieces
}

proof fn lemma_part(x: int, part: int, whole: int)
    requires
        0 <= part <= whole,
        0 < whole,
        -0x1_0000_0000 <= x <= 0x1_0000_0000,
    ensures
        -0x1_0000_0000 <= (x * part) / whole <= 0x1_0000_0000,
{
    assert(-0x1_0000_0000 * whole <= x * part <= 0x1_0000_0000 * whole) by (nonlinear_arith)
        requires
            0 <= part <= whole,
            -0x1_0000_0000 <= x <= 0x1_0000_0000,
    ;
    assert(-0x1_0000_0000 <= (x * part) / whole <= 0x1_0000_0000) by (nonlinear_arith)
        requires
            -0x1_0000_0000 * whole <= x * part <= 0x1_0000_0000 * whole,
            0 < whole,
    ;
}

/// A coordinate a part of the way from one to another, rounded down.
fn blend(a: i32, b: i32, part: i128, whole: i128) -> (c: i32)
    requires
        0 <= part <= whole <= 0x1_0000_0000_0000_0000,
        0 < whole,
    ensures
        c == narrowed(a + ((b - a) * part) / (whole as int)),
{
    let x: i128 = b as i128 - a as i128;
    proof {
        lemma_part(x as int, part as int, whole as int);
        let (u, v) = (x as int, part as int);
        assert(-0x1_0000_0000_0000_0000_0000_0000 <= u * v <= 0x1_0000_0000_0000_0000_0000_0000)
            by (nonlinear_arith)
            requires
                -0x1_0000_0000 <= u <= 0x1_0000_0000,
                0 <= v <= 0x1_0000_0000_0000_0000,
        ;
    }
    narrow(a as i64 + floor_div(x * part, whole) as i64)
}

/// The point a part of the way from one point to another, rounded down.
fn interpolate(a: &Point, b: &Point, part: i128, whole: i128) -> (p: Point)
    requires
        0 <= part <= whole <= 0x1_0000_0000_0000_0000,
        0 < whole,
    ensures
        p == between(*a, *b, part as int, whole as int),
{
    Point { x: blend(a.x, b.x, part, whole), y: blend(a.y, b.y, part, whole) }
}

fn least(a: i32, b: i32) -> (m: i32)
    ensures
        m == min(a as int, b as int),
{
    if a < b {
        a
    } else {
        b
    }
}

fn largest(a: i32, b: i32) -> (m: i32)
    ensures
        m == max(a as int, b as int),
{
    if a > b {
        a
    } else {
        b
    }
}

/// The box around four corners.
fn box_around(q: &Quad) -> (b: Bbox)
    ensures
        b == quad_box(*q),
{
    Bbox {
        left: least(least(q.a.x, q.b.x), least(q.c.x, q.d.x)),
        top: least(least(q.a.y, q.b.y), least(q.c.y, q.d.y)),
        right: largest(largest(q.a.x, q.b.x), largest(q.c.x, q.d.x)),
        bottom: largest(largest(q.a.y, q.b.y), largest(q.c.y, q.d.y)),
    }
}

/// The corners of a part of a line.
fn slice_quad(
    item: &TextItem,
    piece: &Piece,
    length: usize,
    wide: i64,
    rtl: bool,
) -> (quad: Quad)
    requires
        well_cut(*piece, length as int, wide as int),
        0 < wide <= 0x10_0000_0000,
        length == item.raw_text@.len(),
    ensures
        quad == part_quad(
            corners_of(item@),
            share_of(*piece, length as int, wide as int, rtl),
        ),
{
    let (start, end, whole): (i128, i128, i128) = if piece.end <= piece.start {
        (
            piece.from as i128,
            piece.to as i128,
            if length < 1 {
                1
            } else {
                length as i128
            },
        )
    } else {
        (piece.start as i128, piece.end as i128, wide as i128)
    };
    let (start, end): (i128, i128) = if rtl {
        (whole - end, whole - start)
    } else {
        (start, end)
    };
    let q: Quad = match item.quad {
        Some(quad) => quad,
        None => Quad {
            a: Point { x: item.bbox.left, y: item.bbox.top },
            b: Point { x: item.bbox.right, y: item.bbox.top },
            c: Point { x: item.bbox.right, y: item.bbox.bottom },
            d: Point { x: item.bbox.left, y: item.bbox.bottom },
        },
    };
    Quad {
        a: interpolate(&q.a, &q.b, start, whole),
        b: interpolate(&q.a, &q.b, end, whole),
        c: interpolate(&q.d, &q.c, end, whole),
        d: interpolate(&q.d, &q.c, start, whole),
    }
}

/// The baseline of a part, moved to the height of a measured one.
fn move_baseline(part: &Baseline, anchor: &TextItem, measured: &Baseline) -> (moved: Baseline)
    requires
        anchor.baseline == Some(*measured),
    ensures
        moved == moved_baseline(*part, *anchor),
{
    let axes: TextAxes = TextAxes::from(anchor.rotation);
    let y: i64 = axes.project(measured.start).1;
    Baseline {
        start: axes.unproject(axes.project(part.start).0, y),
        end: axes.unproject(axes.project(part.end).0, y),
    }
}

/// Slices the reading quad at native boundaries.
fn ocr_fragment(
    item: &TextItem,
    text: &Vec<char>,
    piece: &Piece,
    wide: i64,
    rtl: bool,
    index: usize,
    anchor: Option<&TextItem>,
) -> (part: TextItem)
    requires
        text@ == item.raw_text@,
        well_cut(*piece, text@.len() as int, wide as int),
        0 < wide <= 0x10_0000_0000,
        anchor matches Some(native) ==> native.baseline is Some,
    ensures
        part@ == part_of(
            item@,
            *piece,
            wide as int,
            rtl,
            index as int,
            match anchor {
                None => None,
                Some(native) => Some(*native),
            },
        ),
{
    let quad: Quad = slice_quad(item, piece, text.len(), wide, rtl);
    let bounds: Bbox = box_around(&quad);
    let whole: bool = bounds.is_valid();
    let mut raw: String = String::new();
    let mut k: usize = piece.from;
    while k < piece.to
        invariant
            piece.from <= k <= piece.to <= text@.len(),
            raw@ == text@.subrange(piece.from as int, k as int),
        decreases piece.to - k,
    {
        raw.push(text[k]);
        k = k + 1;
        assert(raw@ =~= text@.subrange(piece.from as int, k as int));
    }
    let line = Baseline { start: quad.d, end: quad.c };
    let mut part: TextItem = item.copy();
    part.id = item.id.ocr_fragment(index);
    part.raw_text = Rope::new(raw);
    part.quad = if whole {
        Some(quad)
    } else {
        None
    };
    if whole {
        part.bbox = bounds;
    }
    part.baseline = Some(line);
    part.repair_actions = note(&part.repair_actions, RepairAction::OcrNativeOverlap);
    if let Some(native) = anchor {
        if let Some(measured) = &native.baseline {
            part.baseline = Some(move_baseline(&line, native, measured));
        }
        part.rotation = native.rotation;
        part.style = calibrate(&part.style, &native.style);
    }
    part
}

/// A style calibrated by a measured one, where both are known.
fn calibrate(style: &Option<TextStyle>, measured: &Option<TextStyle>) -> (made: Option<TextStyle>)
    ensures
        match (style, measured, made) {
            (Some(own), Some(other), Some(new)) => new@ == calibrated(own@, *other),
            (Some(own), None, Some(new)) => new@ == own@,
            (None, _, None) => true,
            _ => false,
        },
{
    match (style, measured) {
        (Some(own), Some(other)) => {
            let mut new: TextStyle = own.copy();
            new.font_size = other.font_size;
            new.font_height = match other.font_height {
                Some(height) => if height > 0 {
                    Some(height)
                } else {
                    other.font_size
                },
                None => other.font_size,
            };
            new.font_size_estimated = true;
            Some(new)
        },
        (Some(own), None) => Some(own.copy()),
        (None, _) => None,
    }
}

/// Whether only blanks stand in a piece.
fn blank_piece(text: &Vec<char>, piece: &Piece) -> (yes: bool)
    requires
        piece.to <= text@.len(),
    ensures
        yes == is_blank_piece(text@, *piece),
{
    let mut k: usize = piece.from;
    while k < piece.to
        invariant
            piece.from <= k,
            piece.to <= text@.len(),
            forall|m: int| piece.from <= m < k ==> is_space(#[trigger] text@[m]),
        decreases piece.to - k,
    {
        if !is_whitespace(text[k]) {
            assert(!is_space(text@[k as int]));
            return false;
        }
        k = k + 1;
    }
    true
}

/// The parts that the pieces of a line are; blank pieces are dropped.
fn slice(
    item: &TextItem,
    text: &Vec<char>,
    pieces: &Vec<Piece>,
    wide: i64,
    rtl: bool,
    anchor: Option<&TextItem>,
) -> (parts: Vec<TextItem>)
    requires
        text@ == item.raw_text@,
        0 < wide <= 0x10_0000_0000,
        forall|k: int|
            0 <= k < pieces@.len() ==> well_cut(
                #[trigger] pieces@[k],
                text@.len() as int,
                wide as int,
            ),
        anchor matches Some(native) ==> native.baseline is Some,
    ensures
        fact_models(parts@) == parts_upto(
            item@,
            pieces@,
            wide as int,
            rtl,
            match anchor {
                None => None,
                Some(native) => Some(*native),
            },
            pieces@.len() as int,
        ),
{
    let mut parts: Vec<TextItem> = Vec::new();
    let ghost native = match anchor {
        None => None,
        Some(native) => Some(*native),
    };
    let mut i: usize = 0;
    assert(fact_models(parts@) =~= Seq::empty());
    while i < pieces.len()
        invariant
            text@ == item.raw_text@,
            0 < wide <= 0x10_0000_0000,
            forall|k: int|
                0 <= k < pieces@.len() ==> well_cut(
                    #[trigger] pieces@[k],
                    text@.len() as int,
                    wide as int,
                ),
            anchor matches Some(native) ==> native.baseline is Some,
            native == (match anchor {
                None => None,
                Some(native) => Some(*native),
            }),
            i <= pieces@.len(),
            fact_models(parts@) == parts_upto(
                item@,
                pieces@,
                wide as int,
                rtl,
                native,
                i as int,
            ),
        decreases pieces@.len() - i,
    {
        let piece: Piece = pieces[i];
        assert(well_cut(pieces@[i as int], text@.len() as int, wide as int));
        if !blank_piece(text, &piece) {
            let part: TextItem = ocr_fragment(item, text, &piece, wide, rtl, parts.len(), anchor);
            let ghost before = parts@;
            parts.push(part);
            assert(fact_models(parts@) =~= fact_models(before).push(part@));
        }
        i = i + 1;
    }
    parts
}

/// One fact as a list.
fn alone(item: TextItem) -> (list: Vec<TextItem>)
    ensures
        fact_models(list@) == seq![item@],
{
    let mut list: Vec<TextItem> = Vec::new();
    list.push(item);
    assert(fact_models(list@) =~= seq![item@]);
    list
}

/// Keeps only recognized text that is not already owned by native facts in the
/// same place.
pub fn without_native(
    rules: &TextRules,
    item: TextItem,
    index: &TextIndex,
    warnings: &mut Vec<PageWarning>,
) -> (kept: Vec<TextItem>)
    requires
        index.wf(),
        item.bbox.valid(),
    ensures
        fact_models(kept@) == kept_of(*rules, item@, index@).0,
        warning_models(final(warnings)@) == warning_models(old(warnings)@) + kept_of(
            *rules,
            item@,
            index@,
        ).1,
{
    let found: Vec<TextItem> = find_rivals(index, &item.bbox);
    assert(warning_models(warnings@) + Seq::<WarningModel>::empty() =~= warning_models(warnings@));
    if found.len() == 0 {
        return alone(item);
    }
    let boxes: Vec<Bbox> = list_boxes(&found);
    if is_mostly_covered(&item.bbox, &boxes) {
        let none: Vec<TextItem> = Vec::new();
        assert(fact_models(none@) =~= Seq::empty());
        return none;
    }
    let axes: TextAxes = TextAxes::from(item.rotation);
    let frame: Frame = match axes.project_bbox(item.bbox) {
        Ok(frame) => frame,
        Err(_) => {
            return alone(item);
        },
    };
    let rtl: bool = is_rtl(&item);
    let natives: Vec<TextItem> = sort(found, &InlineOrder { rotation: item.rotation, rtl });
    let text: Vec<char> = item.raw_text.chars();
    let glyphs = normalize(rules, &text);
    let line = LineFacts { text, glyphs, frame, rotation: item.rotation, rtl };
    assert(line.model() == line_of(*rules, item@));
    let matches: Vec<NativeMatch> = line.native_matches(rules, &natives);
    if matches.len() == 0 {
        let mut message: String = String::new();
        push_text(&mut message, "retained ");
        push_text(&mut message, item.id.as_str());
        push_text(&mut message, " because partial native overlap could not be aligned");
        let warning: PageWarning = PageWarning::new("OcrPartialOverlap", "ocr", message);
        assert(warning@ =~= partial_overlap(item.id@));
        let ghost before = warning_models(warnings@);
        warn(warnings, warning);
        assert(before.push(warning@) =~= before + seq![partial_overlap(item.id@)]);
        return alone(item);
    }
    let anchor: Option<usize> = find_anchor(&natives, &matches, &item);
    let native: Option<&TextItem> = match anchor {
        None => None,
        Some(at) => {
            proof {
                lemma_anchor_measured(natives@, matches@, item@, matches@.len() as int);
            }
            Some(&natives[at])
        },
    };
    let ghost found_order = matches@;
    let wide: i64 = frame.right - frame.left;
    let ordered: Vec<NativeMatch> = sort(matches, &MatchOrder);
    proof {
        sorting_orders_and_keeps(found_order, MatchOrder);
        lemma_kept_matches(found_order, ordered@, line.text@.len() as int, wide as int);
    }
    let pieces: Vec<Piece> = cut(&ordered, line.text.len(), wide);
    slice(&item, &line.text, &pieces, wide, rtl, native)
}

/// The native fact that calibrates a line has a measured baseline.
proof fn lemma_anchor_measured(
    natives: Seq<TextItem>,
    matches: Seq<NativeMatch>,
    item: FactModel,
    n: int,
)
    ensures
        anchor_upto(natives, matches, item, n) matches Some(at) ==> measured_size(
            natives[at],
            item,
        ) is Some && natives[at].baseline is Some,
    decreases n,
{
    if n > 0 {
        lemma_anchor_measured(natives, matches, item, n - 1);
    }
}

/// Sorted matches still lie inside their line.
proof fn lemma_kept_matches(a: Seq<NativeMatch>, b: Seq<NativeMatch>, length: int, wide: int)
    requires
        a.to_multiset() == b.to_multiset(),
        forall|k: int| 0 <= k < a.len() ==> well_matched(#[trigger] a[k], length, wide),
    ensures
        forall|k: int| 0 <= k < b.len() ==> well_matched(#[trigger] b[k], length, wide),
{
    broadcast use vstd::seq_lib::group_to_multiset_ensures;

    assert forall|k: int| 0 <= k < b.len() implies well_matched(#[trigger] b[k], length, wide) by {
        assert(b.contains(b[k]));
        assert(a.to_multiset().count(b[k]) > 0);
        assert(a.contains(b[k]));
        let m = a.index_of(b[k]);
        assert(a[m] == b[k]);
    }
}

/// A line without native facts in its place is kept as it is.
pub proof fn lonely_lines_are_kept(rules: TextRules, item: FactModel, index: Seq<TextItem>)
    requires
        forall|i: int| 0 <= i < index.len() ==> !half_shared(item.bbox, (#[trigger] index[i]).bbox),
    ensures
        kept_of(rules, item, index) == (seq![item], Seq::<WarningModel>::empty()),
{
    lemma_no_rivals(index, hits(index, item.bbox), item.bbox, hits(index, item.bbox).len() as int);
}

proof fn lemma_no_rivals(index: Seq<TextItem>, found: Seq<int>, b: Bbox, n: int)
    requires
        forall|i: int| 0 <= i < index.len() ==> !half_shared(b, (#[trigger] index[i]).bbox),
        found == hits(index, b),
        n <= found.len(),
    ensures
        rivals_upto(index, found, b, n).len() == 0,
    decreases n,
{
    if n > 0 {
        lemma_no_rivals(index, found, b, n - 1);
        lemma_hits_in_range(index, b, index.len() as int);
        assert(0 <= found[n - 1] < index.len());
    }
}

proof fn lemma_hits_in_range(items: Seq<TextItem>, b: Bbox, n: int)
    ensures
        forall|k: int|
            #![trigger super::index::hits_upto(items, b, n)[k]]
            0 <= k < super::index::hits_upto(items, b, n).len() ==> 0 <= super::index::hits_upto(
                items,
                b,
                n,
            )[k] < n,
    decreases n,
{
    if n > 0 {
        lemma_hits_in_range(items, b, n - 1);
        let before = super::index::hits_upto(items, b, n - 1);
        let after = super::index::hits_upto(items, b, n);
        assert forall|k: int| #![trigger after[k]] 0 <= k < after.len() implies 0 <= after[k]
            < n by {
            if k < before.len() {
                assert(after[k] == before[k]);
            }
        }
    }
}

} // verus!
