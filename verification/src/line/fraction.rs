//! Fractions as inline atoms, and the recovery of source facts.

use vstd::math::{abs, max, min};
use vstd::prelude::*;

use super::axes::{is_level, level};
use super::bidi::{detect_direction, direction_of};
use super::fragment::{
    ink_up_to, models, runs_ink, sort_fragments, FragmentModel, FragmentOrder, LineFragment,
};
use super::inline::{
    absorb, absorbing, group_operator_limits, hang_glyphs, hung, hung_sources, limited,
    limits_fault, source_of, InlineInput, InlineModel,
};
use super::metrics::runs_fault;
use super::originals::Originals;
use super::scripts::{
    is_script_sized, list_singles, script_sized, scripts_fault, singles, with_scripts,
};
use crate::chars::str_same;
use crate::error::LineError;
use crate::geometry::{distance, narrow, narrowed, Baseline, Bbox, Point, POINT};
use crate::sorting::{sort, sorted, Order, Sorter};
use crate::types::{copy_items, TableRule, TextItem, TextStyle, WritingDirection};

verus! {

/// A horizontal rule that may be a fraction bar.
#[derive(Debug, Clone, Copy, PartialEq, Eq, Structural)]
pub struct Bar {
    pub y: i32,
    pub left: i32,
    pub right: i32,
}

/// Short bars first, then higher ones.
#[derive(Debug, Clone, Copy, PartialEq, Eq, Structural)]
pub struct BarOrder;

impl Order<Bar> for BarOrder {
    open spec fn lt(&self, a: Bar, b: Bar) -> bool {
        a.right - a.left < b.right - b.left || (a.right - a.left == b.right - b.left && a.y < b.y)
    }

    proof fn is_strict_weak(&self, a: Bar, b: Bar, c: Bar) {
    }
}

impl Sorter<Bar> for BarOrder {
    fn precedes(&self, a: &Bar, b: &Bar) -> (yes: bool) {
        let wa: i64 = a.right as i64 - a.left as i64;
        let wb: i64 = b.right as i64 - b.left as i64;
        wa < wb || (wa == wb && a.y < b.y)
    }
}

/// The bars among the first `n` rules: horizontal ones with some length.
pub open spec fn bars_upto(rules: Seq<TableRule>, n: int) -> Seq<Bar>
    decreases n,
{
    if n <= 0 {
        Seq::empty()
    } else {
        let before = bars_upto(rules, n - 1);
        match rules[n - 1] {
            TableRule::Horizontal { y, left, right } => if right > left {
                before.push(Bar { y, left, right })
            } else {
                before
            },
            TableRule::Vertical { .. } => before,
        }
    }
}

/// The bars in the order in which they are considered: inner fractions become
/// atoms before a wider one around them.
pub open spec fn bars_of(rules: Seq<TableRule>) -> Seq<Bar> {
    sorted(bars_upto(rules, rules.len() as int), BarOrder)
}

/// Whether a run lies right above (`true`) or right below a bar.
pub open spec fn side_of(item: TextItem, bar: Bar) -> Option<bool> {
    match item.size() {
        None => None,
        Some(font) => if !level(item.rotation.angle as int) || item.bbox.left < bar.left - 5_000
            || item.bbox.right > bar.right + 5_000 {
            None
        } else if item.bbox.bottom <= bar.y + 500 && 10 * (bar.y - item.bbox.bottom) <= 9 * font {
            Some(true)
        } else if item.bbox.top >= bar.y - 500 && 10 * (item.bbox.top - bar.y) <= 9 * font {
            Some(false)
        } else {
            None
        },
    }
}

/// The runs on one side of a bar among the first `n`.
pub open spec fn bar_side(items: Seq<TextItem>, bar: Bar, above: bool, n: int) -> Seq<TextItem>
    decreases n,
{
    if n <= 0 {
        Seq::empty()
    } else if side_of(items[n - 1], bar) == Some(above) {
        bar_side(items, bar, above, n - 1).push(items[n - 1])
    } else {
        bar_side(items, bar, above, n - 1)
    }
}

/// The largest font size on either side of a bar among the first `n` runs, at least zero.
pub open spec fn bar_size(items: Seq<TextItem>, bar: Bar, n: int) -> int
    decreases n,
{
    if n <= 0 {
        0
    } else if side_of(items[n - 1], bar) is Some {
        max(bar_size(items, bar, n - 1), items[n - 1].size()->0 as int)
    } else {
        bar_size(items, bar, n - 1)
    }
}

/// A line that settles where a fraction sits: how far away its witness is, the
/// height of the line, and the font size of the witness.
#[derive(Debug, Clone, Copy, PartialEq, Eq, Structural)]
pub struct Axis {
    pub gap: i64,
    pub baseline: i32,
    pub font: i32,
}

/// Whether a run beside the bar settles the axis of its fraction.
pub open spec fn axis_from(item: TextItem, bar: Bar, size: int, confirmed: bool) -> Option<Axis> {
    if side_of(item, bar) is Some {
        None
    } else {
        match (item.size(), item.baseline) {
            (Some(font), Some(line)) => {
                let gap = max(max(bar.left - item.bbox.right, item.bbox.left - bar.right), 0);
                if (100 * size <= 85 * font || (confirmed && 100 * size <= 105 * font)) && gap <= 2
                    * font && 5 * abs(4 * line.start.y - font - 4 * bar.y) <= 4 * font {
                    Some(Axis { gap: gap as i64, baseline: line.start.y, font })
                } else {
                    None
                }
            },
            _ => None,
        }
    }
}

/// The nearest witness of an axis among the first `n` runs.
pub open spec fn axis_upto(items: Seq<TextItem>, bar: Bar, size: int, confirmed: bool, n: int) -> Option<
    Axis,
>
    decreases n,
{
    if n <= 0 {
        None
    } else {
        let before = axis_upto(items, bar, size, confirmed, n - 1);
        match axis_from(items[n - 1], bar, size, confirmed) {
            None => before,
            Some(here) => match before {
                None => Some(here),
                Some(best) => if here.gap < best.gap {
                    Some(here)
                } else {
                    Some(best)
                },
            },
        }
    }
}

/// The axis of a fraction. Inside a confirmed formula a fraction may stand
/// alone, with its bar a quarter of its size above the line.
pub open spec fn axis_of(items: Seq<TextItem>, bar: Bar, confirmed: bool) -> Option<Axis> {
    let size = bar_size(items, bar, items.len() as int);
    match axis_upto(items, bar, size, confirmed, items.len() as int) {
        Some(axis) => Some(axis),
        None => if confirmed {
            Some(Axis { gap: 0, baseline: narrowed(bar.y + size / 4) as i32, font: size as i32 })
        } else {
            None
        },
    }
}

/// The page width a bar suggests, at least one point.
pub open spec fn bar_page(bar: Bar) -> int {
    max(bar.right as int, POINT as int)
}

/// The runs of the first `n` fragments one after the other.
pub open spec fn runs_in(fs: Seq<FragmentModel>, n: int) -> Seq<TextItem>
    decreases n,
{
    if n <= 0 {
        Seq::empty()
    } else {
        runs_in(fs, n - 1) + fs[n - 1].items
    }
}

/// How the fragments of one side follow each other.
pub open spec fn side_order(fs: Seq<FragmentModel>) -> FragmentOrder {
    if direction_of(runs_in(fs, fs.len() as int), 0) == WritingDirection::RightToLeft {
        FragmentOrder::Leftwards
    } else {
        FragmentOrder::Rightwards
    }
}

/// One side of a bar as it is read, scripts behind their bases.
pub open spec fn side_runs(side: Seq<TextItem>, page_width: int) -> Seq<TextItem> {
    let fs = with_scripts(singles(side, side.len() as int, page_width), page_width);
    let ordered = sorted(fs, side_order(fs));
    runs_in(ordered, ordered.len() as int)
}

/// Smallest top edge of the first `n` runs; `n` is at least one.
pub open spec fn top_most(items: Seq<TextItem>, n: int) -> int
    decreases n,
{
    if n <= 1 {
        items[0].bbox.top as int
    } else {
        min(top_most(items, n - 1), items[n - 1].bbox.top as int)
    }
}

/// The small runs off the bar among the first `n`.
pub open spec fn small_runs(items: Seq<TextItem>, bar: Bar, font: int, n: int) -> Seq<TextItem>
    decreases n,
{
    if n <= 0 {
        Seq::empty()
    } else {
        let before = small_runs(items, bar, font, n - 1);
        let item = items[n - 1];
        if side_of(item, bar) is None && (item.size() matches Some(size) && 100 * size <= 85
            * font) {
            before.push(item)
        } else {
            before
        }
    }
}

/// Whether a run of the line stands between the bar and `x`.
pub open spec fn blocked(items: Seq<TextItem>, bar: Bar, x: int) -> bool {
    exists|i: int|
        0 <= i < items.len() && side_of(#[trigger] items[i], bar) is None && items[i].bbox.left
            >= bar.right - 5_000 && items[i].bbox.left < x && items[i].bbox.top < bar.y
            && items[i].bbox.bottom > bar.y
}

/// Whether a raised group right behind the bar is a power of the whole fraction.
pub open spec fn is_power(
    script: FragmentModel,
    items: Seq<TextItem>,
    bar: Bar,
    axis: Axis,
    top: int,
) -> bool {
    let gap = script.bbox.left - bar.right;
    let font = axis.font as int;
    &&& script_sized(script.metrics.font_size as int, font)
    &&& level(script.rotation.angle as int)
    &&& -font <= 4 * gap <= 5 * font
    &&& 4 * (script.bbox.top - top) >= -3 * font
    &&& script.bbox.bottom <= bar.y
    &&& 2 * (axis.baseline - script.baseline.start.y) > font
    &&& script.bbox.wide() <= 2 * font
    &&& !blocked(items, bar, script.bbox.left as int)
    &&& runs_ink(script.items, script.items.len() as int) <= 12
}

/// The powers among the first `n` fragments.
pub open spec fn powers_upto(
    fs: Seq<FragmentModel>,
    n: int,
    items: Seq<TextItem>,
    bar: Bar,
    axis: Axis,
    top: int,
) -> Seq<FragmentModel>
    decreases n,
{
    if n <= 0 {
        Seq::empty()
    } else {
        let before = powers_upto(fs, n - 1, items, bar, axis, top);
        if is_power(fs[n - 1], items, bar, axis, top) {
            before.push(fs[n - 1])
        } else {
            before
        }
    }
}

/// The runs of the one power of a fraction; several are no evidence for any.
pub open spec fn power_runs(items: Seq<TextItem>, bar: Bar, axis: Axis, top: int) -> Seq<TextItem> {
    let small = small_runs(items, bar, axis.font as int, items.len() as int);
    let fs = with_scripts(singles(small, small.len() as int, bar_page(bar)), bar_page(bar));
    let powers = powers_upto(fs, fs.len() as int, items, bar, axis, top);
    if powers.len() == 1 {
        powers[0].items
    } else {
        Seq::empty()
    }
}

/// Position of the first run with this identity, from `i` on.
pub open spec fn position_of(items: Seq<TextItem>, i: int, id: Seq<char>) -> Option<int>
    decreases items.len() - i,
{
    if i >= items.len() || i < 0 {
        None
    } else if items[i].id@ == id {
        Some(i)
    } else {
        position_of(items, i + 1, id)
    }
}

/// Whether run `i` is one of the runs of a power.
pub open spec fn in_power(items: Seq<TextItem>, power: Seq<TextItem>, i: int) -> bool {
    exists|k: int| 0 <= k < power.len() && position_of(items, 0, (#[trigger] power[k]).id@) == Some(
        i,
    )
}

/// The first `n` runs that did not become part of the fraction.
pub open spec fn left_over(items: Seq<TextItem>, bar: Bar, power: Seq<TextItem>, n: int) -> Seq<
    TextItem,
>
    decreases n,
{
    if n <= 0 {
        Seq::empty()
    } else if side_of(items[n - 1], bar) is Some || in_power(items, power, n - 1) {
        left_over(items, bar, power, n - 1)
    } else {
        left_over(items, bar, power, n - 1).push(items[n - 1])
    }
}

/// The source facts of the first `n` parts, and what stays recorded.
pub open spec fn taken_sources(
    parts: Seq<TextItem>,
    n: int,
    originals: Map<Seq<char>, Seq<TextItem>>,
) -> (Seq<TextItem>, Map<Seq<char>, Seq<TextItem>>)
    decreases n,
{
    if n <= 0 {
        (Seq::empty(), originals)
    } else {
        let (facts, rest) = taken_sources(parts, n - 1, originals);
        (facts + source_of(rest, parts[n - 1]), rest.remove(parts[n - 1].id@))
    }
}

/// The run that stands for a whole fraction.
pub open spec fn fraction_atom(parts: Seq<TextItem>, axis: Axis) -> TextItem {
    let grown = absorbing(parts[0], parts.skip(1), parts.len() - 1);
    TextItem {
        baseline: Some(
            Baseline {
                start: Point { x: grown.bbox.left, y: axis.baseline },
                end: Point { x: grown.bbox.right, y: axis.baseline },
            },
        ),
        style: match grown.style {
            None => None,
            Some(style) => Some(style.sized(axis.font)),
        },
        ..grown
    }
}

/// The parts of a fraction as they are read: upper side, lower side, power.
pub open spec fn fraction_parts(items: Seq<TextItem>, bar: Bar, axis: Axis, confirmed: bool) -> (
    Seq<TextItem>,
    Seq<TextItem>,
) {
    let n = items.len() as int;
    let sides = side_runs(bar_side(items, bar, true, n), bar_page(bar)) + side_runs(
        bar_side(items, bar, false, n),
        bar_page(bar),
    );
    let power = if confirmed && sides.len() > 0 {
        power_runs(items, bar, axis, top_most(sides, sides.len() as int))
    } else {
        Seq::empty()
    };
    (sides + power, power)
}

/// Inline geometry after one bar was considered.
#[verifier::opaque]
pub open spec fn with_bar(m: InlineModel, bar: Bar, confirmed: bool) -> InlineModel {
    let n = m.items.len() as int;
    if bar_side(m.items, bar, true, n).len() == 0 || bar_side(m.items, bar, false, n).len() == 0 {
        m
    } else {
        match axis_of(m.items, bar, confirmed) {
            None => m,
            Some(axis) => {
                let (parts, power) = fraction_parts(m.items, bar, axis, confirmed);
                if parts.len() == 0 {
                    m
                } else {
                    let atom = fraction_atom(parts, axis);
                    let (facts, rest) = taken_sources(parts, parts.len() as int, m.originals);
                    InlineModel {
                        items: left_over(m.items, bar, power, n).push(atom),
                        originals: rest.insert(atom.id@, facts),
                    }
                }
            },
        }
    }
}

/// Inline geometry after the first `n` bars were considered.
pub open spec fn with_bars(m: InlineModel, bars: Seq<Bar>, n: int, confirmed: bool) -> InlineModel
    decreases n,
{
    if n <= 0 {
        m
    } else {
        with_bar(with_bars(m, bars, n - 1, confirmed), bars[n - 1], confirmed)
    }
}

/// Why runs cannot be read one by one with their scripts, if they cannot.
pub open spec fn side_fault(side: Seq<TextItem>, page_width: int) -> Option<LineError> {
    match runs_fault(side, side.len() as int) {
        Some(e) => Some(e),
        None => scripts_fault(singles(side, side.len() as int, page_width), page_width),
    }
}

/// Why a bar cannot be considered, if it cannot.
#[verifier::opaque]
pub open spec fn bar_fault(m: InlineModel, bar: Bar, confirmed: bool) -> Option<LineError> {
    let n = m.items.len() as int;
    let upper = bar_side(m.items, bar, true, n);
    let lower = bar_side(m.items, bar, false, n);
    if upper.len() == 0 || lower.len() == 0 {
        None
    } else {
        match axis_of(m.items, bar, confirmed) {
            None => None,
            Some(axis) => match side_fault(upper, bar_page(bar)) {
                Some(e) => Some(e),
                None => match side_fault(lower, bar_page(bar)) {
                    Some(e) => Some(e),
                    None => {
                        let sides = side_runs(upper, bar_page(bar)) + side_runs(
                            lower,
                            bar_page(bar),
                        );
                        if confirmed && sides.len() > 0 {
                            side_fault(small_runs(m.items, bar, axis.font as int, n), bar_page(bar))
                        } else {
                            None
                        }
                    },
                },
            },
        }
    }
}

/// Why the first `n` bars cannot be considered, if they cannot.
pub open spec fn bars_fault(m: InlineModel, bars: Seq<Bar>, n: int, confirmed: bool) -> Option<
    LineError,
>
    decreases n,
{
    if n <= 0 {
        None
    } else {
        match bars_fault(m, bars, n - 1, confirmed) {
            Some(e) => Some(e),
            None => bar_fault(with_bars(m, bars, n - 1, confirmed), bars[n - 1], confirmed),
        }
    }
}

/// Why runs beside rules cannot be prepared, if they cannot: runs without an extent would have to
/// be read by themselves, or to take limits.
#[verifier::opaque]
pub open spec fn prepared_fault(items: Seq<TextItem>, rules: Seq<TableRule>, confirmed: bool) -> Option<
    LineError,
> {
    let placed = InlineModel {
        items: hung(items),
        originals: hung_sources(items, items.len() as int),
    };
    let bars = bars_of(rules);
    match limits_fault(placed, placed.items.len() as int) {
        Some(e) => Some(e),
        None => bars_fault(limited(placed), bars, bars.len() as int, confirmed),
    }
}

/// Inline geometry of runs beside rules.
#[verifier::opaque]
pub open spec fn prepared(items: Seq<TextItem>, rules: Seq<TableRule>, confirmed: bool) -> InlineModel {
    let placed = InlineModel {
        items: hung(items),
        originals: hung_sources(items, items.len() as int),
    };
    let bars = bars_of(rules);
    with_bars(limited(placed), bars, bars.len() as int, confirmed)
}

/// The bars in the order in which they are considered.
fn collect_bars(rules: &Vec<TableRule>) -> (bars: Vec<Bar>)
    ensures
        bars@ == bars_of(rules@),
{
    let mut bars: Vec<Bar> = Vec::new();
    let mut n: usize = 0;
    while n < rules.len()
        invariant
            n <= rules@.len(),
            bars@ == bars_upto(rules@, n as int),
        decreases rules@.len() - n,
    {
        match rules[n] {
            TableRule::Horizontal { y, left, right } => {
                if right > left {
                    bars.push(Bar { y, left, right });
                }
            },
            TableRule::Vertical { .. } => {},
        }
        n = n + 1;
    }
    sort(bars, &BarOrder)
}

/// Whether a run lies right above or right below a bar.
fn find_side(item: &TextItem, bar: &Bar) -> (side: Option<bool>)
    ensures
        side == side_of(*item, *bar),
{
    match item.font_size() {
        None => None,
        Some(font) => {
            let f: i64 = font as i64;
            let y: i64 = bar.y as i64;
            let bottom: i64 = item.bbox.bottom as i64;
            let top: i64 = item.bbox.top as i64;
            if !is_level(item.rotation.angle) || (item.bbox.left as i64) < bar.left as i64 - 5_000
                || item.bbox.right as i64 > bar.right as i64 + 5_000 {
                None
            } else if bottom <= y + 500 && 10 * (y - bottom) <= 9 * f {
                Some(true)
            } else if top >= y - 500 && 10 * (top - y) <= 9 * f {
                Some(false)
            } else {
                None
            }
        },
    }
}

/// The runs on one side of a bar.
fn collect_bar_side(items: &Vec<TextItem>, bar: &Bar, above: bool) -> (side: Vec<TextItem>)
    ensures
        side@ == bar_side(items@, *bar, above, items@.len() as int),
{
    let mut side: Vec<TextItem> = Vec::new();
    let mut n: usize = 0;
    while n < items.len()
        invariant
            n <= items@.len(),
            side@ == bar_side(items@, *bar, above, n as int),
        decreases items@.len() - n,
    {
        match find_side(&items[n], bar) {
            Some(upper) => {
                if upper == above {
                    side.push(items[n].copy());
                }
            },
            None => {},
        }
        n = n + 1;
    }
    side
}

/// The axis of a fraction.
fn find_axis(items: &Vec<TextItem>, bar: &Bar, confirmed: bool) -> (axis: Option<Axis>)
    ensures
        axis == axis_of(items@, *bar, confirmed),
{
    let mut size: i32 = 0;
    let mut n: usize = 0;
    while n < items.len()
        invariant
            n <= items@.len(),
            size == bar_size(items@, *bar, n as int),
            0 <= size,
        decreases items@.len() - n,
    {
        if find_side(&items[n], bar).is_some() {
            match items[n].font_size() {
                Some(font) => {
                    if font > size {
                        size = font;
                    }
                },
                None => {},
            }
        }
        n = n + 1;
    }
    let mut best: Option<Axis> = None;
    n = 0;
    while n < items.len()
        invariant
            n <= items@.len(),
            size == bar_size(items@, *bar, items@.len() as int),
            best == axis_upto(items@, *bar, size as int, confirmed, n as int),
        decreases items@.len() - n,
    {
        match find_witness(&items[n], bar, size, confirmed) {
            None => {},
            Some(here) => {
                best = match best {
                    None => Some(here),
                    Some(axis) => if here.gap < axis.gap {
                        Some(here)
                    } else {
                        Some(axis)
                    },
                };
            },
        }
        n = n + 1;
    }
    match best {
        Some(axis) => Some(axis),
        None => if confirmed {
            let y: i64 = bar.y as i64 + (size / 4) as i64;
            Some(Axis { gap: 0, baseline: narrow(y), font: size })
        } else {
            None
        },
    }
}

/// Whether a run beside the bar settles the axis of its fraction.
fn find_witness(item: &TextItem, bar: &Bar, size: i32, confirmed: bool) -> (axis: Option<Axis>)
    ensures
        axis == axis_from(*item, *bar, size as int, confirmed),
{
    if find_side(item, bar).is_some() {
        return None;
    }
    match (item.font_size(), item.baseline) {
        (Some(font), Some(line)) => {
            let f: i64 = font as i64;
            let s: i64 = 100 * (size as i64);
            let a: i64 = bar.left as i64 - item.bbox.right as i64;
            let b: i64 = item.bbox.left as i64 - bar.right as i64;
            let near: i64 = if a >= b {
                a
            } else {
                b
            };
            let gap: i64 = if near >= 0 {
                near
            } else {
                0
            };
            let off: i128 = distance(4 * (line.start.y as i64) - f, 4 * (bar.y as i64));
            if (s <= 85 * f || (confirmed && s <= 105 * f)) && gap <= 2 * f && 5 * off <= 4 * (
            f as i128) {
                Some(Axis { gap, baseline: line.start.y, font })
            } else {
                None
            }
        },
        _ => None,
    }
}

/// The runs of fragments one after the other.
pub fn chain_runs(fs: &Vec<LineFragment>) -> (items: Vec<TextItem>)
    ensures
        items@ == runs_in(models(fs@), fs@.len() as int),
{
    let ghost all = models(fs@);
    let mut items: Vec<TextItem> = Vec::new();
    let mut n: usize = 0;
    while n < fs.len()
        invariant
            all == models(fs@),
            n <= fs@.len(),
            items@ == runs_in(all, n as int),
        decreases fs@.len() - n,
    {
        let mut more: Vec<TextItem> = copy_items(&fs[n].items);
        items.append(&mut more);
        n = n + 1;
    }
    items
}

/// Every run as a fragment of its own, then scripts attached.
fn attach_singles(side: &Vec<TextItem>, page_width: i32) -> (made: Result<
    Vec<LineFragment>,
    LineError,
>)
    ensures
        match made {
            Ok(fs) => side_fault(side@, page_width as int) is None && models(fs@) == with_scripts(
                singles(side@, side@.len() as int, page_width as int),
                page_width as int,
            ),
            Err(e) => side_fault(side@, page_width as int) == Some(e),
        },
{
    match list_singles(side, page_width) {
        Err(e) => Err(e),
        Ok(fs) => LineFragment::attach_scripts(fs, page_width),
    }
}

/// One side of a bar as it is read.
fn read_side(side: &Vec<TextItem>, page_width: i32) -> (made: Result<Vec<TextItem>, LineError>)
    ensures
        match made {
            Ok(items) => side_fault(side@, page_width as int) is None && items@ == side_runs(
                side@,
                page_width as int,
            ),
            Err(e) => side_fault(side@, page_width as int) == Some(e),
        },
{
    let fs: Vec<LineFragment> = match attach_singles(side, page_width) {
        Err(e) => {
            return Err(e);
        },
        Ok(fs) => fs,
    };
    let all: Vec<TextItem> = chain_runs(&fs);
    let order: FragmentOrder = if detect_direction(&all, 0) == WritingDirection::RightToLeft {
        FragmentOrder::Leftwards
    } else {
        FragmentOrder::Rightwards
    };
    let ghost count = fs@.len();
    proof {
        crate::sorting::sorting_orders_and_keeps(models(fs@), order);
    }
    let ordered: Vec<LineFragment> = sort_fragments(fs, order);
    assert(ordered@.len() == models(ordered@).len());
    Ok(chain_runs(&ordered))
}

/// Whether a run of the line stands between the bar and `x`.
fn is_blocked(items: &Vec<TextItem>, bar: &Bar, x: i32) -> (yes: bool)
    ensures
        yes == blocked(items@, *bar, x as int),
{
    let mut n: usize = 0;
    while n < items.len()
        invariant
            n <= items@.len(),
            forall|i: int|
                0 <= i < n ==> !(side_of(#[trigger] items@[i], *bar) is None && items@[i].bbox.left
                    >= bar.right - 5_000 && items@[i].bbox.left < x && items@[i].bbox.top < bar.y
                    && items@[i].bbox.bottom > bar.y),
        decreases items@.len() - n,
    {
        let b: Bbox = items[n].bbox;
        if b.left as i64 >= bar.right as i64 - 5_000 && b.left < x && b.top < bar.y && b.bottom
            > bar.y && find_side(&items[n], bar).is_none() {
            assert(side_of(items@[n as int], *bar) is None);
            return true;
        }
        n = n + 1;
    }
    false
}

/// Whether a raised group right behind the bar is a power of the whole fraction.
fn check_power(script: &LineFragment, items: &Vec<TextItem>, bar: &Bar, axis: &Axis, top: i32) -> (yes: bool)
    ensures
        yes == is_power(script@, items@, *bar, *axis, top as int),
{
    let gap: i64 = script.bbox.left as i64 - bar.right as i64;
    let font: i64 = axis.font as i64;
    is_script_sized(script.metrics.font_size, axis.font) && is_level(script.rotation.angle) && -font
        <= 4 * gap && 4 * gap <= 5 * font && 4 * (script.bbox.top as i64 - top as i64) >= -(3
        * font) && script.bbox.bottom <= bar.y && 2 * (axis.baseline as i64
        - script.baseline.start.y as i64) > font && script.bbox.width() <= 2 * font && !is_blocked(
        items,
        bar,
        script.bbox.left,
    ) && ink_up_to(&script.items, 13) <= 12
}

/// The runs of the one power of a fraction.
fn find_power(items: &Vec<TextItem>, bar: &Bar, axis: &Axis, top: i32) -> (made: Result<
    Vec<TextItem>,
    LineError,
>)
    ensures
        ({
            let small = small_runs(items@, *bar, axis.font as int, items@.len() as int);
            match made {
                Ok(power) => side_fault(small, bar_page(*bar)) is None && power@ == power_runs(
                    items@,
                    *bar,
                    *axis,
                    top as int,
                ),
                Err(e) => side_fault(small, bar_page(*bar)) == Some(e),
            }
        }),
{
    let page_width: i32 = page_of(bar);
    let mut small: Vec<TextItem> = Vec::new();
    let mut n: usize = 0;
    while n < items.len()
        invariant
            n <= items@.len(),
            small@ == small_runs(items@, *bar, axis.font as int, n as int),
        decreases items@.len() - n,
    {
        let fits: bool = match items[n].font_size() {
            Some(size) => 100 * (size as i64) <= 85 * (axis.font as i64),
            None => false,
        };
        if fits && find_side(&items[n], bar).is_none() {
            small.push(items[n].copy());
        }
        n = n + 1;
    }
    let fs: Vec<LineFragment> = match attach_singles(&small, page_width) {
        Err(e) => {
            return Err(e);
        },
        Ok(fs) => fs,
    };
    let ghost all = models(fs@);
    let mut powers: Vec<LineFragment> = Vec::new();
    n = 0;
    assert(models(powers@) =~= Seq::empty());
    while n < fs.len()
        invariant
            all == models(fs@),
            n <= fs@.len(),
            models(powers@) == powers_upto(all, n as int, items@, *bar, *axis, top as int),
        decreases fs@.len() - n,
    {
        if check_power(&fs[n], items, bar, axis, top) {
            let ghost before = models(powers@);
            powers.push(fs[n].copy());
            assert(models(powers@) =~= before.push(all[n as int]));
        }
        n = n + 1;
    }
    assert(models(powers@).len() == powers@.len());
    if powers.len() == 1 {
        assert(models(powers@)[0].items == powers@[0].items@);
        Ok(copy_items(&powers[0].items))
    } else {
        Ok(Vec::new())
    }
}

/// The page width a bar suggests.
fn page_of(bar: &Bar) -> (width: i32)
    ensures
        width == bar_page(*bar),
{
    if bar.right >= POINT {
        bar.right
    } else {
        POINT
    }
}

/// Whether run `i` is one of the runs of a power.
fn is_in_power(items: &Vec<TextItem>, power: &Vec<TextItem>, i: usize) -> (yes: bool)
    requires
        i < items@.len(),
    ensures
        yes == in_power(items@, power@, i as int),
{
    let mut k: usize = 0;
    while k < power.len()
        invariant
            i < items@.len(),
            k <= power@.len(),
            forall|q: int|
                0 <= q < k ==> position_of(items@, 0, (#[trigger] power@[q]).id@) != Some(i as int),
        decreases power@.len() - k,
    {
        let mut at: usize = 0;
        let ghost id = power@[k as int].id@;
        while at < i && !str_same(items[at].id.as_str(), power[k].id.as_str())
            invariant
                i < items@.len(),
                k < power@.len(),
                at <= i,
                id == power@[k as int].id@,
                position_of(items@, 0, id) == position_of(items@, at as int, id),
            decreases i - at,
        {
            at = at + 1;
        }
        if at == i && str_same(items[at].id.as_str(), power[k].id.as_str()) {
            assert(position_of(items@, 0, power@[k as int].id@) == Some(i as int));
            return true;
        }
        proof {
            lemma_position(items@, at as int, id);
        }
        k = k + 1;
    }
    false
}

/// A position found is not before where the search began, and is where the
/// search stands if it matches there.
proof fn lemma_position(items: Seq<TextItem>, i: int, id: Seq<char>)
    requires
        0 <= i,
    ensures
        position_of(items, i, id) matches Some(at) ==> i <= at < items.len() && items[at].id@ == id,
    decreases items.len() - i,
{
    if i < items.len() && items[i].id@ != id {
        lemma_position(items, i + 1, id);
    }
}

/// The runs that did not become part of the fraction.
fn keep_rest(items: &Vec<TextItem>, bar: &Bar, power: &Vec<TextItem>) -> (rest: Vec<TextItem>)
    ensures
        rest@ == left_over(items@, *bar, power@, items@.len() as int),
{
    let mut rest: Vec<TextItem> = Vec::new();
    let mut n: usize = 0;
    while n < items.len()
        invariant
            n <= items@.len(),
            rest@ == left_over(items@, *bar, power@, n as int),
        decreases items@.len() - n,
    {
        if find_side(&items[n], bar).is_none() && !is_in_power(items, power, n) {
            rest.push(items[n].copy());
        }
        n = n + 1;
    }
    rest
}

/// Takes the source facts of some parts out of the record.
fn take_sources(parts: &Vec<TextItem>, originals: &mut Originals) -> (facts: Vec<TextItem>)
    requires
        old(originals).wf(),
    ensures
        final(originals).wf(),
        (facts@, final(originals)@) == taken_sources(parts@, parts@.len() as int, old(originals)@),
{
    let ghost before = originals@;
    let mut facts: Vec<TextItem> = Vec::new();
    let mut n: usize = 0;
    while n < parts.len()
        invariant
            n <= parts@.len(),
            originals.wf(),
            (facts@, originals@) == taken_sources(parts@, n as int, before),
        decreases parts@.len() - n,
    {
        let mut list: Vec<TextItem> = match originals.remove(&parts[n].id) {
            Some(list) => list,
            None => {
                let mut list: Vec<TextItem> = Vec::new();
                list.push(parts[n].copy());
                assert(list@ =~= seq![parts@[n as int]]);
                list
            },
        };
        facts.append(&mut list);
        n = n + 1;
    }
    facts
}

/// Smallest top edge of at least one run.
fn find_top(items: &Vec<TextItem>) -> (top: i32)
    requires
        items@.len() > 0,
    ensures
        top == top_most(items@, items@.len() as int),
{
    let mut top: i32 = items[0].bbox.top;
    let mut n: usize = 1;
    while n < items.len()
        invariant
            1 <= n <= items@.len(),
            top == top_most(items@, n as int),
        decreases items@.len() - n,
    {
        if items[n].bbox.top < top {
            top = items[n].bbox.top;
        }
        n = n + 1;
    }
    top
}

/// The run that stands for a whole fraction.
fn make_atom(parts: &Vec<TextItem>, axis: &Axis) -> (atom: TextItem)
    requires
        parts@.len() > 0,
    ensures
        atom == fraction_atom(parts@, *axis),
{
    let mut atom: TextItem = absorb(&parts[0], parts, 1);
    atom.baseline = Some(
        Baseline {
            start: Point::new(atom.bbox.left, axis.baseline),
            end: Point::new(atom.bbox.right, axis.baseline),
        },
    );
    atom.style = match atom.style {
        None => None,
        Some(style) => Some(TextStyle { font_size: Some(axis.font), ..style }),
    };
    atom
}

/// Considers one bar.
fn apply_bar(input: InlineInput, bar: &Bar, confirmed: bool) -> (made: Result<
    InlineInput,
    LineError,
>)
    requires
        input.originals.wf(),
    ensures
        match made {
            Ok(result) => bar_fault(input@, *bar, confirmed) is None && result.originals.wf()
                && result@ == with_bar(input@, *bar, confirmed),
            Err(e) => bar_fault(input@, *bar, confirmed) == Some(e),
        },
{
    reveal(bar_fault);
    reveal(with_bar);
    let upper: Vec<TextItem> = collect_bar_side(&input.items, bar, true);
    let lower: Vec<TextItem> = collect_bar_side(&input.items, bar, false);
    if upper.len() == 0 || lower.len() == 0 {
        return Ok(input);
    }
    let axis: Axis = match find_axis(&input.items, bar, confirmed) {
        None => {
            return Ok(input);
        },
        Some(axis) => axis,
    };
    let page_width: i32 = page_of(bar);
    let mut parts: Vec<TextItem> = match read_side(&upper, page_width) {
        Err(e) => {
            return Err(e);
        },
        Ok(parts) => parts,
    };
    let mut second: Vec<TextItem> = match read_side(&lower, page_width) {
        Err(e) => {
            return Err(e);
        },
        Ok(second) => second,
    };
    parts.append(&mut second);
    let power: Vec<TextItem> = if confirmed && parts.len() > 0 {
        match find_power(&input.items, bar, &axis, find_top(&parts)) {
            Err(e) => {
                return Err(e);
            },
            Ok(power) => power,
        }
    } else {
        Vec::new()
    };
    let mut tail: Vec<TextItem> = copy_items(&power);
    parts.append(&mut tail);
    assert((parts@, power@) == fraction_parts(input.items@, *bar, axis, confirmed));
    if parts.len() == 0 {
        return Ok(input);
    }
    let atom: TextItem = make_atom(&parts, &axis);
    let mut rest: Vec<TextItem> = keep_rest(&input.items, bar, &power);
    let mut originals: Originals = input.originals;
    let facts: Vec<TextItem> = take_sources(&parts, &mut originals);
    originals.insert(atom.id.copy(), facts);
    rest.push(atom);
    Ok(InlineInput { items: rest, originals })
}

/// A fault at the first bars stays the first one.
proof fn lemma_bars_stop(m: InlineModel, bars: Seq<Bar>, part: int, n: int, confirmed: bool)
    requires
        part <= n,
        bars_fault(m, bars, part, confirmed) is Some,
    ensures
        bars_fault(m, bars, n, confirmed) == bars_fault(m, bars, part, confirmed),
    decreases n - part,
{
    if part < n {
        lemma_bars_stop(m, bars, part, n - 1, confirmed);
    }
}

/// Considers bars one after the other.
fn apply_bars(input: InlineInput, bars: &Vec<Bar>, confirmed: bool) -> (made: Result<
    InlineInput,
    LineError,
>)
    requires
        input.originals.wf(),
    ensures
        match made {
            Ok(result) => bars_fault(input@, bars@, bars@.len() as int, confirmed) is None
                && result.originals.wf() && result@ == with_bars(
                input@,
                bars@,
                bars@.len() as int,
                confirmed,
            ),
            Err(e) => bars_fault(input@, bars@, bars@.len() as int, confirmed) == Some(e),
        },
{
    let ghost start = input@;
    let mut now: InlineInput = input;
    let mut n: usize = 0;
    while n < bars.len()
        invariant
            start == input@,
            n <= bars@.len(),
            now.originals.wf(),
            now@ == with_bars(start, bars@, n as int, confirmed),
            bars_fault(start, bars@, n as int, confirmed) is None,
        decreases bars@.len() - n,
    {
        now = match apply_bar(now, &bars[n], confirmed) {
            Err(e) => {
                proof {
                    lemma_bars_stop(start, bars@, n + 1, bars@.len() as int, confirmed);
                }
                return Err(e);
            },
            Ok(next) => next,
        };
        n = n + 1;
    }
    Ok(now)
}

impl InlineInput {
    /// Uses local typography and fraction bars to form atoms before ordinary
    /// baseline grouping. Runs without an extent are refused where an atom needs them.
    pub fn prepare(items: Vec<TextItem>, rules: &Vec<TableRule>, confirmed_formula: bool) -> (made: Result<
        InlineInput,
        LineError,
    >)
        ensures
            match made {
                Ok(input) => prepared_fault(items@, rules@, confirmed_formula) is None
                    && input.originals.wf() && input@ == prepared(
                    items@,
                    rules@,
                    confirmed_formula,
                ),
                Err(e) => prepared_fault(items@, rules@, confirmed_formula) == Some(e),
            },
    {
        reveal(prepared);
        reveal(prepared_fault);
        let input: InlineInput = match group_operator_limits(hang_glyphs(&items)) {
            Err(e) => {
                return Err(e);
            },
            Ok(input) => input,
        };
        apply_bars(input, &collect_bars(rules), confirmed_formula)
    }
}

/// The first `n` fragments with their source facts, and what stays recorded.
pub open spec fn restored_upto(
    fs: Seq<FragmentModel>,
    n: int,
    originals: Map<Seq<char>, Seq<TextItem>>,
) -> (Seq<FragmentModel>, Map<Seq<char>, Seq<TextItem>>)
    decreases n,
{
    if n <= 0 {
        (Seq::empty(), originals)
    } else {
        let (before, rest) = restored_upto(fs, n - 1, originals);
        let f = fs[n - 1];
        let (items, left) = taken_sources(f.items, f.items.len() as int, rest);
        (before.push(FragmentModel { items, ..f }), left)
    }
}

/// Fragments with the source facts of their atoms.
pub open spec fn restored(fs: Seq<FragmentModel>, originals: Map<Seq<char>, Seq<TextItem>>) -> Seq<
    FragmentModel,
> {
    restored_upto(fs, fs.len() as int, originals).0
}

/// Expands ordered atoms without arranging their members again.
pub fn restore(originals: Originals, fragments: Vec<LineFragment>) -> (result: Vec<LineFragment>)
    requires
        originals.wf(),
    ensures
        models(result@) == restored(models(fragments@), originals@),
{
    let ghost all = models(fragments@);
    let ghost start = originals@;
    let mut record: Originals = originals;
    let mut result: Vec<LineFragment> = Vec::new();
    let mut n: usize = 0;
    assert(models(result@) =~= Seq::empty());
    while n < fragments.len()
        invariant
            all == models(fragments@),
            n <= fragments@.len(),
            record.wf(),
            (models(result@), record@) == restored_upto(all, n as int, start),
        decreases fragments@.len() - n,
    {
        let ghost before = models(result@);
        let f: &LineFragment = &fragments[n];
        let items: Vec<TextItem> = take_sources(&f.items, &mut record);
        let whole: LineFragment = LineFragment {
            items,
            bbox: f.bbox,
            baseline: f.baseline,
            direction: f.direction,
            metrics: f.metrics,
            rotation: f.rotation,
        };
        result.push(whole);
        assert(models(result@) =~= before.push(whole@));
        n = n + 1;
    }
    result
}

} // verus!
