//! Inline atoms: hanging glyphs, operator limits and fractions.
//!
//! Before ordinary baseline grouping, glyphs that hang below their origin are
//! put on the line of their neighbours, limits join their operator, and the two
//! sides of a fraction bar become one atom. Final lines recover the source facts.

use vstd::math::{abs, max, min};
use vstd::prelude::*;

use super::axes::{is_level, is_parallel, level, parallel};
use super::bidi::ItemOrder;
use super::fragment::{ink_up_to, runs_ink};
use super::metrics::run_fault;
use super::originals::Originals;
use super::scripts::{script_sized, Score};
use crate::chars::{trim_of, trimmed_len};
use crate::error::LineError;
use crate::geometry::{distance, Baseline, Bbox, Point};
use crate::rope::Rope;
use crate::sorting::{sort, sorted, sorting_orders_and_keeps};
use crate::types::{copy_items, TextItem};

verus! {

/// Temporary inline geometry; final lines always recover the source facts.
#[derive(Debug)]
pub struct InlineInput {
    pub items: Vec<TextItem>,
    pub originals: Originals,
}

/// What inline geometry stands for.
#[verifier::ext_equal]
pub struct InlineModel {
    pub items: Seq<TextItem>,
    pub originals: Map<Seq<char>, Seq<TextItem>>,
}

impl View for InlineInput {
    type V = InlineModel;

    open spec fn view(&self) -> InlineModel {
        InlineModel { items: self.items@, originals: self.originals@ }
    }
}

/// Whether a single glyph hangs below its origin instead of resting on a line.
pub open spec fn hangs(item: TextItem) -> bool {
    match (item.size(), item.baseline) {
        (Some(size), Some(line)) => {
            &&& size > 0
            &&& trim_of(item.raw_text@).len() == 1
            &&& 2 * (item.bbox.bottom - line.start.y) > size
            &&& 2 * line.start.y <= item.bbox.mid_y2()
            &&& level(item.rotation.angle as int)
        },
        _ => false,
    }
}

/// How well a neighbour attests a line for a hanging glyph, and that line: twice
/// the distance between the two.
pub open spec fn attested(item: TextItem, neighbor: TextItem) -> Option<(int, int)> {
    if hangs(neighbor) {
        None
    } else {
        match (item.size(), neighbor.size(), neighbor.baseline) {
            (Some(size), Some(other), Some(line)) => {
                let gap = item.bbox.gap_x(neighbor.bbox);
                if 9 * size <= 10 * other <= 11 * size && 2 * item.bbox.overlap_y(neighbor.bbox)
                    >= min(item.bbox.high(), neighbor.bbox.high()) && gap <= 3 * size && parallel(
                    item.rotation.angle as int,
                    neighbor.rotation.angle as int,
                ) {
                    Some(
                        (
                            2 * gap + abs(item.bbox.mid_y2() - neighbor.bbox.mid_y2()),
                            line.start.y as int,
                        ),
                    )
                } else {
                    None
                }
            },
            _ => None,
        }
    }
}

/// The best attested line among the first `n` neighbours: the nearest, then the highest.
pub open spec fn best_line(items: Seq<TextItem>, item: TextItem, n: int) -> Option<(int, int)>
    decreases n,
{
    if n <= 0 {
        None
    } else {
        let before = best_line(items, item, n - 1);
        match attested(item, items[n - 1]) {
            None => before,
            Some(here) => match before {
                None => Some(here),
                Some(best) => if here.0 < best.0 || (here.0 == best.0 && here.1 < best.1) {
                    Some(here)
                } else {
                    Some(best)
                },
            },
        }
    }
}

/// Whether another line is attested almost as well.
pub open spec fn contested(items: Seq<TextItem>, item: TextItem, best: (int, int), size: int) -> bool {
    exists|j: int|
        0 <= j < items.len() && (attested(item, #[trigger] items[j]) matches Some(other) && 10 * (
        other.0 - best.0) <= size && 5 * abs(other.1 - best.1) > size)
}

/// The line on which run `i` is put, if it hangs and its neighbours agree.
pub open spec fn hang_line(items: Seq<TextItem>, i: int) -> Option<int> {
    let item = items[i];
    if !hangs(item) {
        None
    } else {
        match best_line(items, item, items.len() as int) {
            None => None,
            Some(best) => if contested(items, item, best, item.size()->0 as int) {
                None
            } else {
                Some(best.1)
            },
        }
    }
}

/// A run resting at this height.
pub open spec fn resting(item: TextItem, y: int) -> TextItem {
    TextItem {
        baseline: Some(
            Baseline {
                start: Point { x: item.bbox.left, y: y as i32 },
                end: Point { x: item.bbox.right, y: y as i32 },
            },
        ),
        ..item
    }
}

/// The runs with hanging glyphs put on their lines.
pub open spec fn hung(items: Seq<TextItem>) -> Seq<TextItem> {
    Seq::new(
        items.len(),
        |i: int|
            match hang_line(items, i) {
                Some(y) => resting(items[i], y),
                None => items[i],
            },
    )
}

/// The source facts of the hanging glyphs among the first `n` runs.
pub open spec fn hung_sources(items: Seq<TextItem>, n: int) -> Map<Seq<char>, Seq<TextItem>>
    decreases n,
{
    if n <= 0 {
        Map::empty()
    } else {
        let before = hung_sources(items, n - 1);
        match hang_line(items, n - 1) {
            Some(_) => before.insert(items[n - 1].id@, seq![items[n - 1]]),
            None => before,
        }
    }
}

/// Whether a single glyph hangs below its origin instead of resting on a line.
pub fn has_hanging_baseline(item: &TextItem) -> (yes: bool)
    ensures
        yes == hangs(*item),
{
    match (item.font_size(), item.baseline) {
        (Some(size), Some(line)) => size > 0 && trimmed_len(&item.raw_text.chars()) == 1 && 2 * (
        item.bbox.bottom as i64 - line.start.y as i64) > size as i64 && 2 * (line.start.y as i64)
            <= item.bbox.center_y2() && is_level(item.rotation.angle),
        _ => false,
    }
}

/// How well a neighbour attests a line for a hanging glyph, and that line.
fn attest(item: &TextItem, neighbor: &TextItem) -> (found: Option<(i64, i32)>)
    ensures
        match found {
            None => attested(*item, *neighbor) is None,
            Some(f) => attested(*item, *neighbor) == Some((f.0 as int, f.1 as int)) && 0 <= f.0
                <= 0x10_0000_0000,
        },
{
    if has_hanging_baseline(neighbor) {
        return None;
    }
    match (item.font_size(), neighbor.font_size(), neighbor.baseline) {
        (Some(size), Some(other), Some(line)) => {
            let s: i64 = size as i64;
            let o: i64 = other as i64;
            let gap: i64 = item.bbox.horizontal_gap(&neighbor.bbox);
            let hi: i64 = item.bbox.height();
            let hn: i64 = neighbor.bbox.height();
            let low: i64 = if hi <= hn {
                hi
            } else {
                hn
            };
            if 9 * s <= 10 * o && 10 * o <= 11 * s && 2 * item.bbox.vertical_overlap(&neighbor.bbox)
                >= low && gap <= 3 * s && is_parallel(item.rotation.angle, neighbor.rotation.angle) {
                let shift: i128 = distance(item.bbox.center_y2(), neighbor.bbox.center_y2());
                Some((2 * gap + shift as i64, line.start.y))
            } else {
                None
            }
        },
        _ => None,
    }
}

/// The line on which run `i` is put, if it hangs and its neighbours agree.
fn find_line(items: &Vec<TextItem>, i: usize) -> (line: Option<i32>)
    requires
        i < items@.len(),
    ensures
        match line {
            None => hang_line(items@, i as int) is None,
            Some(y) => hang_line(items@, i as int) == Some(y as int),
        },
{
    let item: &TextItem = &items[i];
    if !has_hanging_baseline(item) {
        return None;
    }
    let size: i64 = match item.font_size() {
        Some(size) => size as i64,
        None => 0,
    };
    let mut best: Option<(i64, i32)> = None;
    let mut n: usize = 0;
    while n < items.len()
        invariant
            n <= items@.len(),
            match best {
                None => best_line(items@, *item, n as int) is None,
                Some(b) => best_line(items@, *item, n as int) == Some((b.0 as int, b.1 as int)) && 0
                    <= b.0 <= 0x10_0000_0000,
            },
        decreases items@.len() - n,
    {
        match attest(item, &items[n]) {
            None => {},
            Some(here) => {
                best = match best {
                    None => Some(here),
                    Some(b) => if here.0 < b.0 || (here.0 == b.0 && here.1 < b.1) {
                        Some(here)
                    } else {
                        Some(b)
                    },
                };
            },
        }
        n = n + 1;
    }
    let chosen: (i64, i32) = match best {
        None => {
            return None;
        },
        Some(b) => b,
    };
    let ghost pick = (chosen.0 as int, chosen.1 as int);
    n = 0;
    while n < items.len()
        invariant
            n <= items@.len(),
            i < items@.len(),
            *item == items@[i as int],
            hangs(*item),
            item.size() == Some(size as i32),
            0 <= size <= 0x7FFF_FFFF,
            0 <= chosen.0 <= 0x10_0000_0000,
            pick == (chosen.0 as int, chosen.1 as int),
            best_line(items@, *item, items@.len() as int) == Some(pick),
            forall|j: int|
                0 <= j < n ==> !(attested(*item, #[trigger] items@[j]) matches Some(other) && 10 * (
                other.0 - pick.0) <= size && 5 * abs(other.1 - pick.1) > size),
        decreases items@.len() - n,
    {
        match attest(item, &items[n]) {
            None => {},
            Some(other) => {
                if 10 * (other.0 - chosen.0) <= size && 5 * distance(
                    other.1 as i64,
                    chosen.1 as i64,
                ) > size as i128 {
                    assert(contested(items@, *item, pick, size as int)) by {
                        assert(attested(*item, items@[n as int]) is Some);
                    }
                    return None;
                }
            },
        }
        n = n + 1;
    }
    Some(chosen.1)
}

/// Puts hanging glyphs on the lines of their neighbours.
pub fn hang_glyphs(items: &Vec<TextItem>) -> (input: InlineInput)
    ensures
        input.originals.wf(),
        input@.items == hung(items@),
        input@.originals == hung_sources(items@, items@.len() as int),
{
    let mut placed: Vec<TextItem> = Vec::new();
    let mut originals: Originals = Originals::new();
    let mut n: usize = 0;
    while n < items.len()
        invariant
            n <= items@.len(),
            originals.wf(),
            placed@ == hung(items@).take(n as int),
            originals@ == hung_sources(items@, n as int),
        decreases items@.len() - n,
    {
        let mut item: TextItem = items[n].copy();
        match find_line(items, n) {
            None => {},
            Some(y) => {
                let mut source: Vec<TextItem> = Vec::new();
                source.push(items[n].copy());
                assert(source@ =~= seq![items@[n as int]]);
                originals.insert(items[n].id.copy(), source);
                item.baseline = Some(
                    Baseline {
                        start: Point::new(item.bbox.left, y),
                        end: Point::new(item.bbox.right, y),
                    },
                );
            },
        }
        placed.push(item);
        n = n + 1;
        assert(placed@ =~= hung(items@).take(n as int));
    }
    assert(hung(items@).take(items@.len() as int) =~= hung(items@));
    InlineInput { items: placed, originals }
}

/// Whether run `i` stands for source facts already, as an operator does.
pub open spec fn is_operator(m: InlineModel, i: int) -> bool {
    m.originals.contains_key(m.items[i].id@)
}

/// Whether a run is a limit above (`true`) or below an operator, and how far off
/// its centre, as a share of the operator's font size.
pub open spec fn limit_of(item: TextItem, operator: TextItem) -> Option<(bool, Score)> {
    match (item.size(), operator.size()) {
        (Some(size), Some(font)) => {
            let above = operator.bbox.top - item.bbox.bottom;
            let below = item.bbox.top - operator.bbox.bottom;
            let far = max(above, below);
            if script_sized(size as int, font as int) && item.baseline is Some && parallel(
                item.rotation.angle as int,
                operator.rotation.angle as int,
            ) && item.bbox.high() <= font && 2 * operator.bbox.overlap_x(item.bbox)
                >= item.bbox.wide() && 0 <= far && 2 * far <= font {
                Some(
                    (
                        above >= 0,
                        Score {
                            part: abs(item.bbox.mid_x2() - operator.bbox.mid_x2()) as i64,
                            whole: (2 * font) as i64,
                        },
                    ),
                )
            } else {
                None
            }
        },
        _ => None,
    }
}

/// The nearest operator among the first `n` runs, on which side of it run `i`
/// lies, and the runner-up's score.
pub open spec fn limit_upto(m: InlineModel, i: int, n: int) -> (
    Option<(int, bool, Score)>,
    Option<Score>,
)
    decreases n,
{
    if n <= 0 {
        (None, None)
    } else {
        let (best, second) = limit_upto(m, i, n - 1);
        if !is_operator(m, n - 1) {
            (best, second)
        } else {
            match limit_of(m.items[i], m.items[n - 1]) {
                None => (best, second),
                Some((above, score)) => match best {
                    None => (Some((n - 1, above, score)), None),
                    Some((_, _, current)) => if score.below(current) {
                        (Some((n - 1, above, score)), Some(current))
                    } else {
                        (
                            best,
                            match second {
                                None => Some(score),
                                Some(other) => if score.below(other) {
                                    Some(score)
                                } else {
                                    Some(other)
                                },
                            },
                        )
                    },
                },
            }
        }
    }
}

/// The operator whose limit run `i` is, unless another is almost as near.
pub open spec fn limit_owner(m: InlineModel, i: int) -> Option<(int, bool)> {
    if is_operator(m, i) {
        None
    } else {
        match limit_upto(m, i, m.items.len() as int) {
            (Some((op, above, _)), None) => Some((op, above)),
            (Some((op, above, score)), Some(second)) => if score.well_below(second) {
                Some((op, above))
            } else {
                None
            },
            _ => None,
        }
    }
}

/// The limits of `op` on one side among the first `n` runs.
pub open spec fn limit_side(m: InlineModel, op: int, above: bool, n: int) -> Seq<TextItem>
    decreases n,
{
    if n <= 0 {
        Seq::empty()
    } else if limit_owner(m, n - 1) == Some((op, above)) {
        limit_side(m, op, above, n - 1).push(m.items[n - 1])
    } else {
        limit_side(m, op, above, n - 1)
    }
}

/// Smallest left edge of the first `n` runs; `n` is at least one.
pub open spec fn left_most(items: Seq<TextItem>, n: int) -> int
    decreases n,
{
    if n <= 1 {
        items[0].bbox.left as int
    } else {
        min(left_most(items, n - 1), items[n - 1].bbox.left as int)
    }
}

/// Largest right edge of the first `n` runs; `n` is at least one.
pub open spec fn right_most(items: Seq<TextItem>, n: int) -> int
    decreases n,
{
    if n <= 1 {
        items[0].bbox.right as int
    } else {
        max(right_most(items, n - 1), items[n - 1].bbox.right as int)
    }
}

/// Whether a side of limits is too wide, too far off centre or too long.
pub open spec fn too_loose(side: Seq<TextItem>, operator: TextItem) -> bool {
    let font = match operator.size() {
        Some(size) => size as int,
        None => 0,
    };
    let left = left_most(side, side.len() as int);
    let right = right_most(side, side.len() as int);
    right - left > 3 * font || 10 * abs(left + right - operator.bbox.mid_x2()) > 7 * font
        || runs_ink(side, side.len() as int) > 12
}

/// Whether an operator keeps limits on both of its sides.
pub open spec fn takes_limits(m: InlineModel, op: int) -> bool {
    let upper = limit_side(m, op, true, m.items.len() as int);
    let lower = limit_side(m, op, false, m.items.len() as int);
    &&& is_operator(m, op)
    &&& upper.len() > 0
    &&& lower.len() > 0
    &&& !too_loose(upper, m.items[op])
    &&& !too_loose(lower, m.items[op])
}

/// The limits of an operator as they are read: lower ones, then upper ones.
pub open spec fn limbs(m: InlineModel, op: int) -> Seq<TextItem> {
    sorted(limit_side(m, op, false, m.items.len() as int), ItemOrder::Rightwards) + sorted(
        limit_side(m, op, true, m.items.len() as int),
        ItemOrder::Rightwards,
    )
}

/// A run that took in the first `n` of some parts: its box and its text grow.
pub open spec fn absorbing(item: TextItem, parts: Seq<TextItem>, n: int) -> TextItem
    decreases n,
{
    if n <= 0 {
        item
    } else {
        let before = absorbing(item, parts, n - 1);
        TextItem {
            bbox: before.bbox.join(parts[n - 1].bbox),
            raw_text: Rope::Join(Box::new(before.raw_text), Box::new(parts[n - 1].raw_text)),
            ..before
        }
    }
}

/// The source facts for `id`, or the given run where none are recorded.
pub open spec fn source_of(originals: Map<Seq<char>, Seq<TextItem>>, item: TextItem) -> Seq<TextItem> {
    if originals.contains_key(item.id@) {
        originals[item.id@]
    } else {
        seq![item]
    }
}

/// The source facts after the operators among the first `n` runs took their limits.
pub open spec fn limited_sources(m: InlineModel, n: int) -> Map<Seq<char>, Seq<TextItem>>
    decreases n,
{
    if n <= 0 {
        m.originals
    } else {
        let before = limited_sources(m, n - 1);
        if takes_limits(m, n - 1) {
            let item = m.items[n - 1];
            before.insert(item.id@, source_of(before, item) + limbs(m, n - 1))
        } else {
            before
        }
    }
}

/// Whether run `i` became part of an operator.
pub open spec fn is_taken(m: InlineModel, i: int) -> bool {
    limit_owner(m, i) matches Some((op, _)) && takes_limits(m, op)
}

/// The first `n` runs with limits joined to their operators.
pub open spec fn limited_items(m: InlineModel, n: int) -> Seq<TextItem>
    decreases n,
{
    if n <= 0 {
        Seq::empty()
    } else {
        let before = limited_items(m, n - 1);
        let i = n - 1;
        if is_taken(m, i) {
            before
        } else if takes_limits(m, i) {
            let parts = limbs(m, i);
            before.push(absorbing(m.items[i], parts, parts.len() as int))
        } else {
            before.push(m.items[i])
        }
    }
}

/// Inline geometry with limits joined to their operators.
pub open spec fn limited(m: InlineModel) -> InlineModel {
    InlineModel {
        items: limited_items(m, m.items.len() as int),
        originals: limited_sources(m, m.items.len() as int),
    }
}

/// Why the operators among the first `n` runs cannot take their limits, if they cannot: the joint
/// box, which only grows, has no extent.
pub open spec fn limits_fault(m: InlineModel, n: int) -> Option<LineError>
    decreases n,
{
    if n <= 0 {
        None
    } else {
        match limits_fault(m, n - 1) {
            Some(e) => Some(e),
            None => if takes_limits(m, n - 1) {
                run_fault(absorbing(m.items[n - 1], limbs(m, n - 1), 1))
            } else {
                None
            },
        }
    }
}

/// Whether a run is a limit of an operator.
fn find_limit(item: &TextItem, operator: &TextItem) -> (found: Option<(bool, Score)>)
    ensures
        found == limit_of(*item, *operator),
        found matches Some(f) ==> f.1.wf(),
{
    match (item.font_size(), operator.font_size()) {
        (Some(size), Some(font)) => {
            let above: i64 = operator.bbox.top as i64 - item.bbox.bottom as i64;
            let below: i64 = item.bbox.top as i64 - operator.bbox.bottom as i64;
            let far: i64 = if above >= below {
                above
            } else {
                below
            };
            let s: i64 = 100 * (size as i64);
            let f: i64 = font as i64;
            if font > 0 && 45 * f <= s && s <= 85 * f && item.baseline.is_some() && is_parallel(
                item.rotation.angle,
                operator.rotation.angle,
            ) && item.bbox.height() <= f && 2 * operator.bbox.horizontal_overlap(&item.bbox)
                >= item.bbox.width() && 0 <= far && 2 * far <= f {
                let off: i128 = distance(item.bbox.center_x2(), operator.bbox.center_x2());
                Some((above >= 0, Score { part: off as i64, whole: 2 * f }))
            } else {
                None
            }
        },
        _ => None,
    }
}

/// The operator whose limit run `i` is.
fn find_limit_owner(input: &InlineInput, i: usize) -> (owner: Option<(usize, bool)>)
    requires
        i < input.items@.len(),
    ensures
        match owner {
            None => limit_owner(input@, i as int) is None,
            Some((op, above)) => limit_owner(input@, i as int) == Some((op as int, above)),
        },
{
    if input.originals.contains(&input.items[i].id) {
        return None;
    }
    let ghost m = input@;
    let mut best: Option<(usize, bool, Score)> = None;
    let mut second: Option<Score> = None;
    let mut n: usize = 0;
    while n < input.items.len()
        invariant
            m == input@,
            i < input.items@.len(),
            n <= input.items@.len(),
            match best {
                None => limit_upto(m, i as int, n as int).0 is None && second is None,
                Some((op, above, score)) => limit_upto(m, i as int, n as int).0 == Some(
                    (op as int, above, score),
                ) && score.wf(),
            },
            second == limit_upto(m, i as int, n as int).1,
            second matches Some(s) ==> s.wf(),
        decreases input.items@.len() - n,
    {
        if input.originals.contains(&input.items[n].id) {
            match find_limit(&input.items[i], &input.items[n]) {
                None => {},
                Some((above, score)) => {
                    match best {
                        None => {
                            best = Some((n, above, score));
                        },
                        Some((_, _, current)) => {
                            if score.is_below(&current) {
                                second = Some(current);
                                best = Some((n, above, score));
                            } else {
                                match second {
                                    None => {
                                        second = Some(score);
                                    },
                                    Some(other) => {
                                        if score.is_below(&other) {
                                            second = Some(score);
                                        }
                                    },
                                }
                            }
                        },
                    }
                },
            }
        }
        n = n + 1;
    }
    match best {
        None => None,
        Some((op, above, score)) => match second {
            None => Some((op, above)),
            Some(other) => if score.is_well_below(&other) {
                Some((op, above))
            } else {
                None
            },
        },
    }
}

/// Whether a list holds the operators of which the first `n` runs are limits.
spec fn are_limit_owners(owners: Seq<Option<(usize, bool)>>, m: InlineModel, n: int) -> bool {
    &&& owners.len() == n
    &&& forall|i: int|
        0 <= i < n ==> match #[trigger] owners[i] {
            None => limit_owner(m, i) is None,
            Some((op, above)) => limit_owner(m, i) == Some((op as int, above)),
        }
}

/// The limits of `op` on one side.
fn collect_side(input: &InlineInput, owners: &Vec<Option<(usize, bool)>>, op: usize, above: bool) -> (side: Vec<
    TextItem,
>)
    requires
        are_limit_owners(owners@, input@, input.items@.len() as int),
    ensures
        side@ == limit_side(input@, op as int, above, input.items@.len() as int),
{
    let ghost m = input@;
    let mut side: Vec<TextItem> = Vec::new();
    let mut n: usize = 0;
    while n < input.items.len()
        invariant
            m == input@,
            n <= input.items@.len(),
            are_limit_owners(owners@, m, input.items@.len() as int),
            side@ == limit_side(m, op as int, above, n as int),
        decreases input.items@.len() - n,
    {
        match owners[n] {
            None => {},
            Some((parent, upper)) => {
                if parent == op && upper == above {
                    side.push(input.items[n].copy());
                }
            },
        }
        n = n + 1;
    }
    side
}

/// Whether a side of limits is too wide, too far off centre or too long.
fn is_too_loose(side: &Vec<TextItem>, operator: &TextItem) -> (yes: bool)
    requires
        side@.len() > 0,
    ensures
        yes == too_loose(side@, *operator),
{
    let font: i64 = match operator.font_size() {
        Some(size) => size as i64,
        None => 0,
    };
    let mut left: i32 = side[0].bbox.left;
    let mut right: i32 = side[0].bbox.right;
    let mut n: usize = 1;
    while n < side.len()
        invariant
            1 <= n <= side@.len(),
            left == left_most(side@, n as int),
            right == right_most(side@, n as int),
        decreases side@.len() - n,
    {
        if side[n].bbox.left < left {
            left = side[n].bbox.left;
        }
        if side[n].bbox.right > right {
            right = side[n].bbox.right;
        }
        n = n + 1;
    }
    let l: i64 = left as i64;
    let r: i64 = right as i64;
    r - l > 3 * font || 10 * distance(l + r, operator.bbox.center_x2()) > 7 * (font as i128)
        || ink_up_to(side, 13) > 12
}

/// The limits of an operator as they are read, if it takes any.
fn find_limbs(input: &InlineInput, owners: &Vec<Option<(usize, bool)>>, op: usize) -> (parts: Option<
    Vec<TextItem>,
>)
    requires
        op < input.items@.len(),
        are_limit_owners(owners@, input@, input.items@.len() as int),
    ensures
        parts is Some == takes_limits(input@, op as int),
        parts matches Some(list) ==> list@ == limbs(input@, op as int),
{
    if !input.originals.contains(&input.items[op].id) {
        return None;
    }
    let upper: Vec<TextItem> = collect_side(input, owners, op, true);
    let lower: Vec<TextItem> = collect_side(input, owners, op, false);
    if upper.len() == 0 || lower.len() == 0 {
        return None;
    }
    if is_too_loose(&upper, &input.items[op]) || is_too_loose(&lower, &input.items[op]) {
        return None;
    }
    let mut parts: Vec<TextItem> = sort(lower, &ItemOrder::Rightwards);
    let mut tail: Vec<TextItem> = sort(upper, &ItemOrder::Rightwards);
    parts.append(&mut tail);
    Some(parts)
}

/// A run that took in some parts.
pub fn absorb(item: &TextItem, parts: &Vec<TextItem>, from: usize) -> (atom: TextItem)
    requires
        from <= parts@.len(),
    ensures
        atom == absorbing(*item, parts@.skip(from as int), parts@.len() - from),
{
    let ghost rest = parts@.skip(from as int);
    let mut atom: TextItem = item.copy();
    let mut n: usize = from;
    while n < parts.len()
        invariant
            from <= n <= parts@.len(),
            rest == parts@.skip(from as int),
            atom == absorbing(*item, rest, n - from),
        decreases parts@.len() - n,
    {
        assert(rest[n - from] == parts@[n as int]);
        let bbox: Bbox = atom.bbox.union(&parts[n].bbox);
        let text: Rope = Rope::join(atom.raw_text, parts[n].raw_text.copy());
        atom = TextItem {
            id: atom.id,
            raw_text: text,
            raw_bbox: atom.raw_bbox,
            bbox,
            rotation: atom.rotation,
            baseline: atom.baseline,
            style: atom.style,
            source: atom.source,
            quad: atom.quad,
            confidence: atom.confidence,
            extraction_order: atom.extraction_order,
            final_order: atom.final_order,
            watermark: atom.watermark,
            provenance: atom.provenance,
            repair_actions: atom.repair_actions,
        };
        n = n + 1;
    }
    atom
}

/// A fault among the first operators stays the first one.
proof fn lemma_limits_stop(m: InlineModel, part: int, n: int)
    requires
        part <= n,
        limits_fault(m, part) is Some,
    ensures
        limits_fault(m, n) == limits_fault(m, part),
    decreases n - part,
{
    if part < n {
        lemma_limits_stop(m, part, n - 1);
    }
}

/// An operator that takes limits has some.
proof fn lemma_limbs_some(m: InlineModel, op: int)
    requires
        takes_limits(m, op),
    ensures
        limbs(m, op).len() > 0,
{
    sorting_orders_and_keeps(
        limit_side(m, op, false, m.items.len() as int),
        ItemOrder::Rightwards,
    );
}

/// Joins limits to their operators. An operator whose box has no extent with its first limit is
/// refused.
pub fn group_operator_limits(input: InlineInput) -> (made: Result<InlineInput, LineError>)
    requires
        input.originals.wf(),
    ensures
        match made {
            Ok(result) => limits_fault(input@, input.items@.len() as int) is None
                && result.originals.wf() && result@ == limited(input@),
            Err(e) => limits_fault(input@, input.items@.len() as int) == Some(e),
        },
{
    let ghost m = input@;
    let count: usize = input.items.len();
    let mut owners: Vec<Option<(usize, bool)>> = Vec::new();
    let mut k: usize = 0;
    while k < count
        invariant
            m == input@,
            k <= count == input.items@.len(),
            are_limit_owners(owners@, m, k as int),
        decreases count - k,
    {
        owners.push(find_limit_owner(&input, k));
        k = k + 1;
    }
    let mut limbs_of: Vec<Option<Vec<TextItem>>> = Vec::new();
    k = 0;
    while k < count
        invariant
            m == input@,
            k <= count == input.items@.len(),
            are_limit_owners(owners@, m, count as int),
            limbs_of@.len() == k,
            forall|i: int|
                0 <= i < k ==> (#[trigger] limbs_of@[i] is Some) == takes_limits(m, i) && (
                limbs_of@[i] matches Some(list) ==> list@ == limbs(m, i)),
            limits_fault(m, k as int) is None,
        decreases count - k,
    {
        let parts: Option<Vec<TextItem>> = find_limbs(&input, &owners, k);
        if let Some(list) = &parts {
            proof {
                lemma_limbs_some(m, k as int);
                reveal_with_fuel(absorbing, 2);
            }
            let b: Bbox = input.items[k].bbox.union(&list[0].bbox);
            if let Err(e) = Bbox::new(b.left, b.top, b.right, b.bottom) {
                proof {
                    lemma_limits_stop(m, k + 1, count as int);
                }
                return Err(LineError::Geometry(e));
            }
        }
        limbs_of.push(parts);
        k = k + 1;
    }
    let mut items: Vec<TextItem> = Vec::new();
    let InlineInput { items: source, mut originals } = input;
    k = 0;
    while k < count
        invariant
            m.items == source@,
            k <= count == source@.len(),
            are_limit_owners(owners@, m, count as int),
            limbs_of@.len() == count,
            forall|i: int|
                0 <= i < count ==> (#[trigger] limbs_of@[i] is Some) == takes_limits(m, i) && (
                limbs_of@[i] matches Some(list) ==> list@ == limbs(m, i)),
            originals.wf(),
            items@ == limited_items(m, k as int),
            originals@ == limited_sources(m, k as int),
        decreases count - k,
    {
        let taken: bool = match owners[k] {
            None => false,
            Some((op, _)) => {
                proof {
                    lemma_limit_owner(m, k as int);
                }
                limbs_of[op].is_some()
            },
        };
        assert(taken == is_taken(m, k as int));
        match &limbs_of[k] {
            None => {
                if !taken {
                    items.push(source[k].copy());
                }
            },
            Some(parts) => {
                let ghost before = originals@;
                let mut facts: Vec<TextItem> = match originals.remove(&source[k].id) {
                    Some(list) => list,
                    None => {
                        let mut list: Vec<TextItem> = Vec::new();
                        list.push(source[k].copy());
                        assert(list@ =~= seq![m.items[k as int]]);
                        list
                    },
                };
                let mut more: Vec<TextItem> = copy_items(parts);
                facts.append(&mut more);
                originals.insert(source[k].id.copy(), facts);
                assert(originals@ =~= limited_sources(m, k + 1));
                if !taken {
                    assert(parts@.skip(0) =~= parts@);
                    items.push(absorb(&source[k], parts, 0));
                }
            },
        }
        k = k + 1;
    }
    Ok(InlineInput { items, originals })
}

/// An operator that takes a limit is one of the runs.
pub proof fn lemma_limit_owner(m: InlineModel, i: int)
    requires
        limit_owner(m, i) is Some,
    ensures
        0 <= (limit_owner(m, i)->0).0 < m.items.len(),
        is_operator(m, (limit_owner(m, i)->0).0),
        !is_operator(m, i),
{
    lemma_limit_upto(m, i, m.items.len() as int);
}

/// The nearest operator is one of the runs.
proof fn lemma_limit_upto(m: InlineModel, i: int, n: int)
    requires
        0 <= n <= m.items.len(),
    ensures
        limit_upto(m, i, n).0 matches Some((op, _, _)) ==> 0 <= op < n && is_operator(m, op),
    decreases n,
{
    if n > 0 {
        lemma_limit_upto(m, i, n - 1);
    }
}

} // verus!
