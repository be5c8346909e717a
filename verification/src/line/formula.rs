//! Lines around detected formulas.

use vstd::math::{abs, min};
use vstd::prelude::*;

use super::assemble::{assembled, seen_width, visible_width, ConservativeLineAssembler};
use super::axes::{is_level, is_parallel, level, parallel};
use super::fraction::{prepared, prepared_fault, restore, restored};
use super::fragment::{models, FragmentModel, LineFragment};
use super::inline::{absorb, absorbing, InlineInput, InlineModel};
use super::metrics::runs_fault;
use super::originals::Originals;
use super::scripts::{find_owner, lemma_owner, list_singles, owner_of, singles};
use crate::chars::{trim_of, trimmed_len};
use crate::config::FusionConfig;
use crate::error::LineError;
use crate::geometry::{distance, Baseline, Bbox, Point};
use crate::layout::{is_probability, known_class, LayoutDetection, LayoutLabel, CLASS_COUNT};
use crate::types::{copy_items, TableRule, TextItem, TextStyle, WHOLE};

verus! {

/// Validated model evidence that bounds formula-specific ordering without owning text.
#[derive(Debug, Clone, Copy, PartialEq, Eq, Structural)]
pub struct FormulaRegion {
    pub bbox: Bbox,
    pub inline: bool,
}

/// The formula region of a detection: a known class, a probability, a formula
/// label and a proper box.
pub open spec fn region_of(detection: LayoutDetection) -> Option<FormulaRegion> {
    if is_probability(detection.confidence as int) && known_class(detection.class_id as int)
        && detection.bbox.valid() {
        match detection.label {
            LayoutLabel::InlineFormula => Some(
                FormulaRegion { bbox: detection.bbox, inline: true },
            ),
            LayoutLabel::DisplayFormula => Some(
                FormulaRegion { bbox: detection.bbox, inline: false },
            ),
            _ => None,
        }
    } else {
        None
    }
}

impl FormulaRegion {
    /// Rejects non-formula labels and invalid detections.
    pub fn from_detection(detection: &LayoutDetection) -> (region: Option<FormulaRegion>)
        ensures
            region == region_of(*detection),
    {
        if detection.confidence < 0 || detection.confidence > WHOLE as i64 || detection.class_id < 0
            || detection.class_id >= CLASS_COUNT || !detection.bbox.is_valid() {
            return None;
        }
        match detection.label {
            LayoutLabel::InlineFormula => Some(
                FormulaRegion { bbox: detection.bbox, inline: true },
            ),
            LayoutLabel::DisplayFormula => Some(
                FormulaRegion { bbox: detection.bbox, inline: false },
            ),
            _ => None,
        }
    }
}

/// Clipping tolerated at the edge of a formula box: two points.
pub const CLIPPING: i64 = 20_000;

/// Whether a formula region covers a run well: four fifths of it, or its centre
/// together with half of a single glyph or with little overflow.
pub open spec fn well_covered(item: TextItem, region: FormulaRegion) -> bool {
    let b = region.bbox;
    let t = item.bbox;
    let area = b.shared_area(t);
    ||| t.size() > 0 && 10 * area >= 8 * t.size()
    ||| {
        &&& 2 * b.left <= t.mid_x2() <= 2 * b.right
        &&& 2 * b.top <= t.mid_y2() <= 2 * b.bottom
        &&& {
            ||| trim_of(item.raw_text@).len() == 1 && t.size() > 0 && 2 * area >= t.size()
            ||| t.left >= b.left - CLIPPING && t.right <= b.right + CLIPPING && t.top >= b.top
                - CLIPPING && t.bottom <= b.bottom + CLIPPING
        }
    }
}

/// Whether region `a` is preferred to `b`: the smaller, then the inline one,
/// then the higher, then the one further left.
pub open spec fn preferred_region(a: FormulaRegion, b: FormulaRegion) -> bool {
    let sa = a.bbox.size();
    let sb = b.bbox.size();
    sa < sb || (sa == sb && ((a.inline && !b.inline) || (a.inline == b.inline && (a.bbox.top
        < b.bbox.top || (a.bbox.top == b.bbox.top && a.bbox.left < b.bbox.left)))))
}

/// The region of a run among the first `n`.
pub open spec fn region_upto(item: TextItem, regions: Seq<FormulaRegion>, n: int) -> Option<int>
    decreases n,
{
    if n <= 0 {
        None
    } else {
        let before = region_upto(item, regions, n - 1);
        if !well_covered(item, regions[n - 1]) {
            before
        } else {
            match before {
                None => Some(n - 1),
                Some(best) => if preferred_region(regions[n - 1], regions[best]) {
                    Some(n - 1)
                } else {
                    Some(best)
                },
            }
        }
    }
}

/// The region of a run.
pub open spec fn region_for(item: TextItem, regions: Seq<FormulaRegion>) -> Option<int> {
    region_upto(item, regions, regions.len() as int)
}

/// Whether a formula region covers a run well.
fn is_well_covered(item: &TextItem, region: &FormulaRegion) -> (yes: bool)
    ensures
        yes == well_covered(*item, *region),
{
    let b: Bbox = region.bbox;
    let t: Bbox = item.bbox;
    let area: i128 = b.intersection_area(&t);
    let whole: i128 = t.area();
    if whole > 0 && 10 * area >= 8 * whole {
        return true;
    }
    let cx: i64 = t.center_x2();
    let cy: i64 = t.center_y2();
    if cx < 2 * (b.left as i64) || cx > 2 * (b.right as i64) || cy < 2 * (b.top as i64) || cy > 2
        * (b.bottom as i64) {
        return false;
    }
    (whole > 0 && 2 * area >= whole && trimmed_len(&item.raw_text.chars()) == 1) || (t.left as i64
        >= b.left as i64 - CLIPPING && t.right as i64 <= b.right as i64 + CLIPPING && t.top as i64
        >= b.top as i64 - CLIPPING && t.bottom as i64 <= b.bottom as i64 + CLIPPING)
}

/// Assigns a run to its smallest well-covering formula, leaving crossing prose intact.
pub fn formula_region(item: &TextItem, regions: &Vec<FormulaRegion>) -> (found: Option<usize>)
    ensures
        match found {
            None => region_for(*item, regions@) is None,
            Some(i) => region_for(*item, regions@) == Some(i as int) && i < regions@.len(),
        },
{
    let mut best: Option<usize> = None;
    let mut n: usize = 0;
    while n < regions.len()
        invariant
            n <= regions@.len(),
            match best {
                None => region_upto(*item, regions@, n as int) is None,
                Some(i) => region_upto(*item, regions@, n as int) == Some(i as int) && i
                    < regions@.len(),
            },
        decreases regions@.len() - n,
    {
        if is_well_covered(item, &regions[n]) {
            match best {
                None => {
                    best = Some(n);
                },
                Some(i) => {
                    let a: &FormulaRegion = &regions[n];
                    let b: &FormulaRegion = &regions[i];
                    let sa: i128 = a.bbox.area();
                    let sb: i128 = b.bbox.area();
                    if sa < sb || (sa == sb && ((a.inline && !b.inline) || (a.inline == b.inline
                        && (a.bbox.top < b.bbox.top || (a.bbox.top == b.bbox.top && a.bbox.left
                        < b.bbox.left))))) {
                        best = Some(n);
                    }
                },
            }
        }
        n = n + 1;
    }
    best
}

/// The formula of a fragment: that of its first run, else that of its parent.
pub open spec fn formula_of(fs: Seq<FragmentModel>, regions: Seq<FormulaRegion>, i: int) -> Option<int>
    decreases i32::MAX - fs[i].metrics.font_size,
{
    let own = if fs[i].items.len() > 0 {
        region_for(fs[i].items[0], regions)
    } else {
        None
    };
    match own {
        Some(r) => Some(r),
        None => match owner_of(fs, i) {
            Some(p) => if fs[p].metrics.font_size > fs[i].metrics.font_size {
                formula_of(fs, regions, p)
            } else {
                None
            },
            None => None,
        },
    }
}

/// The formula of a fragment.
fn find_formula(fs: &Vec<LineFragment>, regions: &Vec<FormulaRegion>, i: usize) -> (found: Option<
    usize,
>)
    requires
        i < fs@.len(),
    ensures
        match found {
            None => formula_of(models(fs@), regions@, i as int) is None,
            Some(r) => formula_of(models(fs@), regions@, i as int) == Some(r as int) && r
                < regions@.len(),
        },
{
    let ghost all = models(fs@);
    let mut at: usize = i;
    loop
        invariant
            all == models(fs@),
            at < fs@.len(),
            formula_of(all, regions@, i as int) == formula_of(all, regions@, at as int),
        decreases i32::MAX - all[at as int].metrics.font_size,
    {
        if fs[at].items.len() > 0 {
            match formula_region(&fs[at].items[0], regions) {
                Some(r) => {
                    return Some(r);
                },
                None => {},
            }
        }
        match find_owner(fs, at) {
            None => {
                return None;
            },
            Some(p) => {
                proof {
                    lemma_owner(all, at as int);
                }
                at = p;
            },
        }
    }
}

/// The runs of the first `n` fragments that belong to this formula, or to none.
pub open spec fn formula_runs(
    fs: Seq<FragmentModel>,
    regions: Seq<FormulaRegion>,
    owner: Option<int>,
    n: int,
) -> Seq<TextItem>
    decreases n,
{
    if n <= 0 {
        Seq::empty()
    } else if formula_of(fs, regions, n - 1) == owner {
        formula_runs(fs, regions, owner, n - 1) + fs[n - 1].items
    } else {
        formula_runs(fs, regions, owner, n - 1)
    }
}

/// The runs of the fragments that belong to one formula, or to none.
fn collect_formula_runs(fs: &Vec<LineFragment>, owners: &Vec<Option<usize>>, regions: &Vec<FormulaRegion>, owner: Option<usize>) -> (items: Vec<
    TextItem,
>)
    requires
        owners@.len() == fs@.len(),
        forall|i: int|
            0 <= i < fs@.len() ==> match #[trigger] owners@[i] {
                None => formula_of(models(fs@), regions@, i) is None,
                Some(r) => formula_of(models(fs@), regions@, i) == Some(r as int),
            },
    ensures
        items@ == formula_runs(
            models(fs@),
            regions@,
            match owner {
                None => None,
                Some(r) => Some(r as int),
            },
            fs@.len() as int,
        ),
{
    let ghost all = models(fs@);
    let ghost key: Option<int> = match owner {
        None => None,
        Some(r) => Some(r as int),
    };
    let mut items: Vec<TextItem> = Vec::new();
    let mut n: usize = 0;
    while n < fs.len()
        invariant
            all == models(fs@),
            n <= fs@.len(),
            owners@.len() == fs@.len(),
            key == (match owner {
                None => None::<int>,
                Some(r) => Some(r as int),
            }),
            forall|i: int|
                0 <= i < fs@.len() ==> match #[trigger] owners@[i] {
                    None => formula_of(all, regions@, i) is None,
                    Some(r) => formula_of(all, regions@, i) == Some(r as int),
                },
            items@ == formula_runs(all, regions@, key, n as int),
        decreases fs@.len() - n,
    {
        let same: bool = match (owners[n], owner) {
            (None, None) => true,
            (Some(a), Some(b)) => a == b,
            _ => false,
        };
        if same {
            let mut more: Vec<TextItem> = copy_items(&fs[n].items);
            items.append(&mut more);
        }
        n = n + 1;
    }
    items
}

/// The lines of runs beside rules.
#[verifier::opaque]
pub open spec fn ruled_lines(items: Seq<TextItem>, config: FusionConfig, rules: Seq<TableRule>) -> Result<
    Seq<FragmentModel>,
    LineError,
> {
    let m = prepared(items, rules, false);
    match prepared_fault(items, rules, false) {
        Some(e) => Err(e),
        None => match assembled(m.items, config) {
            Err(e) => Err(e),
            Ok(fs) => Ok(restored(fs, m.originals)),
        },
    }
}

/// The rows of one formula.
#[verifier::opaque]
pub open spec fn formula_rows(items: Seq<TextItem>, config: FusionConfig, rules: Seq<TableRule>) -> Result<
    Seq<FragmentModel>,
    LineError,
> {
    let m = prepared(items, rules, true);
    match prepared_fault(items, rules, true) {
        Some(e) => Err(e),
        None => match assembled(m.items, config) {
            Err(e) => Err(e),
            Ok(fs) => Ok(restored(fs, m.originals)),
        },
    }
}

/// How well a run of prose attests the line of an inline formula row: the
/// distance, the font size and the height of the line.
pub open spec fn prose_line(item: TextItem, row: FragmentModel, angle: int) -> Option<(int, int, int)> {
    match (item.size(), item.baseline) {
        (Some(size), Some(line)) => {
            let gap = item.bbox.gap_x(row.bbox);
            let shift = abs(line.start.y - row.baseline.start.y) as int;
            if size > 0 && 100 * size >= 85 * row.metrics.font_size && 2 * shift <= size && 2
                * item.bbox.overlap_y(row.bbox) >= min(item.bbox.high(), row.bbox.high()) && gap
                <= 3 * size && parallel(item.rotation.angle as int, angle) {
                Some((gap + shift, size as int, line.start.y as int))
            } else {
                None
            }
        },
        _ => None,
    }
}

/// The nearest attested line among the first `n` runs of prose, then the highest.
pub open spec fn prose_line_upto(prose: Seq<TextItem>, row: FragmentModel, angle: int, n: int) -> Option<
    (int, int, int),
>
    decreases n,
{
    if n <= 0 {
        None
    } else {
        let before = prose_line_upto(prose, row, angle, n - 1);
        match prose_line(prose[n - 1], row, angle) {
            None => before,
            Some(here) => match before {
                None => Some(here),
                Some(best) => if here.0 < best.0 || (here.0 == best.0 && here.2 < best.2) {
                    Some(here)
                } else {
                    Some(best)
                },
            },
        }
    }
}

/// The run that stands for one formula row; an upright inline row adopts the
/// line and size of the prose beside it.
pub open spec fn row_atom(row: FragmentModel, prose: Seq<TextItem>, inline: bool) -> TextItem {
    let first = row.items[0];
    let grown = absorbing(first, row.items.skip(1), row.items.len() - 1);
    let plain = TextItem {
        bbox: row.bbox,
        baseline: Some(row.baseline),
        style: match first.style {
            None => None,
            Some(style) => Some(style.sized(row.metrics.font_size)),
        },
        ..grown
    };
    let angle = first.rotation.angle as int;
    if inline && level(angle) {
        match prose_line_upto(prose, row, angle, prose.len() as int) {
            None => plain,
            Some((_, size, y)) => TextItem {
                baseline: Some(
                    Baseline {
                        start: Point { x: row.bbox.left, y: y as i32 },
                        end: Point { x: row.bbox.right, y: y as i32 },
                    },
                ),
                style: match plain.style {
                    None => Some(TextStyle::none().sized(size as i32)),
                    Some(style) => Some(style.sized(size as i32)),
                },
                ..plain
            },
        }
    } else {
        plain
    }
}

/// Inline geometry after the first `n` rows of a formula joined it.
pub open spec fn with_rows(
    m: InlineModel,
    rows: Seq<FragmentModel>,
    n: int,
    prose: Seq<TextItem>,
    inline: bool,
) -> InlineModel
    decreases n,
{
    if n <= 0 {
        m
    } else {
        let before = with_rows(m, rows, n - 1, prose, inline);
        let row = rows[n - 1];
        if row.items.len() == 0 {
            before
        } else {
            let atom = row_atom(row, prose, inline);
            InlineModel {
                items: before.items.push(atom),
                originals: before.originals.insert(atom.id@, row.items),
            }
        }
    }
}

/// Inline geometry after the first `n` formulas joined the prose.
#[verifier::opaque]
pub open spec fn with_formulas(
    fs: Seq<FragmentModel>,
    regions: Seq<FormulaRegion>,
    n: int,
    config: FusionConfig,
    rules: Seq<TableRule>,
) -> Result<InlineModel, LineError>
    decreases n,
{
    let prose = formula_runs(fs, regions, None, fs.len() as int);
    if n <= 0 {
        Ok(InlineModel { items: prose, originals: Map::empty() })
    } else {
        match with_formulas(fs, regions, n - 1, config, rules) {
            Err(e) => Err(e),
            Ok(before) => {
                let items = formula_runs(fs, regions, Some(n - 1), fs.len() as int);
                if items.len() == 0 {
                    Ok(before)
                } else {
                    match formula_rows(items, config, rules) {
                        Err(e) => Err(e),
                        Ok(rows) => Ok(
                            with_rows(
                                before,
                                rows,
                                rows.len() as int,
                                prose,
                                regions[n - 1].inline,
                            ),
                        ),
                    }
                }
            },
        }
    }
}

/// The lines of runs around formulas.
#[verifier::opaque]
pub open spec fn formula_lines(
    items: Seq<TextItem>,
    config: FusionConfig,
    rules: Seq<TableRule>,
    regions: Seq<FormulaRegion>,
) -> Result<Seq<FragmentModel>, LineError> {
    if regions.len() == 0 {
        ruled_lines(items, config, rules)
    } else {
        let fs = singles(items, items.len() as int, seen_width(items));
        match runs_fault(items, items.len() as int) {
            Some(e) => Err(e),
            None => match with_formulas(fs, regions, regions.len() as int, config, rules) {
                Err(e) => Err(e),
                Ok(m) => match ruled_lines(m.items, config, rules) {
                    Err(e) => Err(e),
                    Ok(lines) => Ok(restored(lines, m.originals)),
                },
            },
        }
    }
}

/// How well a run of prose attests the line of an inline formula row.
fn find_prose_line(item: &TextItem, row: &LineFragment, angle: i32) -> (found: Option<(i64, i32, i32)>)
    ensures
        match found {
            None => prose_line(*item, row@, angle as int) is None,
            Some(f) => prose_line(*item, row@, angle as int) == Some(
                (f.0 as int, f.1 as int, f.2 as int),
            ),
        },
{
    match (item.font_size(), item.baseline) {
        (Some(size), Some(line)) => {
            let s: i64 = size as i64;
            let gap: i64 = item.bbox.horizontal_gap(&row.bbox);
            let shift: i128 = distance(line.start.y as i64, row.baseline.start.y as i64);
            let hi: i64 = item.bbox.height();
            let hr: i64 = row.bbox.height();
            let low: i64 = if hi <= hr {
                hi
            } else {
                hr
            };
            if size > 0 && 100 * s >= 85 * (row.metrics.font_size as i64) && 2 * shift <= s as i128
                && 2 * item.bbox.vertical_overlap(&row.bbox) >= low && gap <= 3 * s && is_parallel(
                item.rotation.angle,
                angle,
            ) {
                Some((gap + shift as i64, size, line.start.y))
            } else {
                None
            }
        },
        _ => None,
    }
}

/// The run that stands for one formula row.
fn make_row_atom(row: &LineFragment, prose: &Vec<TextItem>, inline: bool) -> (atom: TextItem)
    requires
        row.items@.len() > 0,
    ensures
        atom == row_atom(row@, prose@, inline),
{
    let mut atom: TextItem = absorb(&row.items[0], &row.items, 1);
    proof {
        lemma_absorbing_keeps(row.items@[0], row.items@.skip(1), row.items@.len() - 1);
    }
    let angle: i32 = atom.rotation.angle;
    atom.bbox = row.bbox;
    atom.baseline = Some(row.baseline);
    atom.style = match atom.style {
        None => None,
        Some(style) => Some(TextStyle { font_size: Some(row.metrics.font_size), ..style }),
    };
    if inline && is_level(angle) {
        let mut best: Option<(i64, i32, i32)> = None;
        let mut n: usize = 0;
        while n < prose.len()
            invariant
                n <= prose@.len(),
                match best {
                    None => prose_line_upto(prose@, row@, angle as int, n as int) is None,
                    Some(b) => prose_line_upto(prose@, row@, angle as int, n as int) == Some(
                        (b.0 as int, b.1 as int, b.2 as int),
                    ),
                },
            decreases prose@.len() - n,
        {
            match find_prose_line(&prose[n], row, angle) {
                None => {},
                Some(here) => {
                    best = match best {
                        None => Some(here),
                        Some(b) => if here.0 < b.0 || (here.0 == b.0 && here.2 < b.2) {
                            Some(here)
                        } else {
                            Some(b)
                        },
                    };
                },
            }
            n = n + 1;
        }
        match best {
            None => {},
            Some((_, size, y)) => {
                atom.baseline = Some(
                    Baseline {
                        start: Point::new(row.bbox.left, y),
                        end: Point::new(row.bbox.right, y),
                    },
                );
                atom.style = match atom.style {
                    None => Some(TextStyle { font_size: Some(size), ..TextStyle::unknown() }),
                    Some(style) => Some(TextStyle { font_size: Some(size), ..style }),
                };
            },
        }
    }
    atom
}

/// Taking parts in changes only the box and the text.
pub proof fn lemma_absorbing_keeps(item: TextItem, parts: Seq<TextItem>, n: int)
    ensures
        ({
            let grown = absorbing(item, parts, n);
            grown == TextItem { bbox: grown.bbox, raw_text: grown.raw_text, ..item }
        }),
    decreases n,
{
    if n > 0 {
        lemma_absorbing_keeps(item, parts, n - 1);
    }
}

impl ConservativeLineAssembler {
    /// Shares vector evidence with line assembly after text ownership is known.
    pub fn fragments_with_rules(&self, items: Vec<TextItem>, config: &FusionConfig, rules: &Vec<TableRule>) -> (made: Result<
        Vec<LineFragment>,
        LineError,
    >)
        ensures
            match made {
                Ok(lines) => ruled_lines(items@, *config, rules@) == Ok::<
                    Seq<FragmentModel>,
                    LineError,
                >(models(lines@)),
                Err(e) => ruled_lines(items@, *config, rules@) == Err::<
                    Seq<FragmentModel>,
                    LineError,
                >(e),
            },
    {
        reveal(ruled_lines);
        let input: InlineInput = match InlineInput::prepare(items, rules, false) {
            Ok(input) => input,
            Err(e) => {
                return Err(e);
            },
        };
        match self.fragments(input.items, config) {
            Err(e) => Err(e),
            Ok(lines) => Ok(restore(input.originals, lines)),
        }
    }

    /// The rows of one formula, ordered in isolation.
    fn order_formula(&self, items: Vec<TextItem>, config: &FusionConfig, rules: &Vec<TableRule>) -> (made: Result<
        Vec<LineFragment>,
        LineError,
    >)
        ensures
            match made {
                Ok(rows) => formula_rows(items@, *config, rules@) == Ok::<
                    Seq<FragmentModel>,
                    LineError,
                >(models(rows@)),
                Err(e) => formula_rows(items@, *config, rules@) == Err::<
                    Seq<FragmentModel>,
                    LineError,
                >(e),
            },
    {
        reveal(formula_rows);
        let input: InlineInput = match InlineInput::prepare(items, rules, true) {
            Ok(input) => input,
            Err(e) => {
                return Err(e);
            },
        };
        match self.fragments(input.items, config) {
            Err(e) => Err(e),
            Ok(rows) => Ok(restore(input.originals, rows)),
        }
    }

    /// Lets the rows of one formula join the prose as intact atoms.
    fn join_rows(&self, input: &mut InlineInput, rows: &Vec<LineFragment>, prose: &Vec<TextItem>, inline: bool)
        requires
            old(input).originals.wf(),
        ensures
            final(input).originals.wf(),
            final(input)@ == with_rows(
                old(input)@,
                models(rows@),
                rows@.len() as int,
                prose@,
                inline,
            ),
    {
        let ghost start = input@;
        let ghost all = models(rows@);
        let mut n: usize = 0;
        while n < rows.len()
            invariant
                all == models(rows@),
                n <= rows@.len(),
                input.originals.wf(),
                input@ == with_rows(start, all, n as int, prose@, inline),
            decreases rows@.len() - n,
        {
            let row: &LineFragment = &rows[n];
            if row.items.len() > 0 {
                let atom: TextItem = make_row_atom(row, prose, inline);
                input.originals.insert(atom.id.copy(), copy_items(&row.items));
                input.items.push(atom);
            }
            n = n + 1;
        }
    }

    /// Orders detected formula rows in isolation and inserts intact atoms into
    /// the surrounding prose.
    pub fn fragments_with_formulas(
        &self,
        items: Vec<TextItem>,
        config: &FusionConfig,
        rules: &Vec<TableRule>,
        formulas: &Vec<FormulaRegion>,
    ) -> (made: Result<Vec<LineFragment>, LineError>)
        ensures
            match made {
                Ok(lines) => formula_lines(items@, *config, rules@, formulas@) == Ok::<
                    Seq<FragmentModel>,
                    LineError,
                >(models(lines@)),
                Err(e) => formula_lines(items@, *config, rules@, formulas@) == Err::<
                    Seq<FragmentModel>,
                    LineError,
                >(e),
            },
    {
        reveal(formula_lines);
        if formulas.len() == 0 {
            return self.fragments_with_rules(items, config, rules);
        }
        let page_width: i32 = visible_width(&items);
        let fs: Vec<LineFragment> = match list_singles(&items, page_width) {
            Ok(fs) => fs,
            Err(e) => {
                return Err(e);
            },
        };
        let input: InlineInput = match self.join_formulas(&fs, config, rules, formulas) {
            Ok(input) => input,
            Err(e) => {
                return Err(e);
            },
        };
        match self.fragments_with_rules(input.items, config, rules) {
            Err(e) => Err(e),
            Ok(lines) => Ok(restore(input.originals, lines)),
        }
    }

    /// Lets the rows of all formulas join the prose.
    fn join_formulas(
        &self,
        fs: &Vec<LineFragment>,
        config: &FusionConfig,
        rules: &Vec<TableRule>,
        formulas: &Vec<FormulaRegion>,
    ) -> (made: Result<InlineInput, LineError>)
        ensures
            match made {
                Ok(input) => with_formulas(
                    models(fs@),
                    formulas@,
                    formulas@.len() as int,
                    *config,
                    rules@,
                ) == Ok::<InlineModel, LineError>(input@) && input.originals.wf(),
                Err(e) => with_formulas(
                    models(fs@),
                    formulas@,
                    formulas@.len() as int,
                    *config,
                    rules@,
                ) == Err::<InlineModel, LineError>(e),
            },
    {
        let ghost all = models(fs@);
        let mut owners: Vec<Option<usize>> = Vec::new();
        let mut n: usize = 0;
        while n < fs.len()
            invariant
                all == models(fs@),
                n <= fs@.len(),
                owners@.len() == n,
                forall|i: int|
                    0 <= i < n ==> match #[trigger] owners@[i] {
                        None => formula_of(all, formulas@, i) is None,
                        Some(r) => formula_of(all, formulas@, i) == Some(r as int),
                    },
            decreases fs@.len() - n,
        {
            owners.push(find_formula(fs, formulas, n));
            n = n + 1;
        }
        reveal_with_fuel(with_formulas, 2);
        let prose: Vec<TextItem> = collect_formula_runs(fs, &owners, formulas, None);
        let mut input: InlineInput = InlineInput {
            items: copy_items(&prose),
            originals: Originals::new(),
        };
        n = 0;
        while n < formulas.len()
            invariant
                all == models(fs@),
                n <= formulas@.len(),
                owners@.len() == fs@.len(),
                forall|i: int|
                    0 <= i < fs@.len() ==> match #[trigger] owners@[i] {
                        None => formula_of(all, formulas@, i) is None,
                        Some(r) => formula_of(all, formulas@, i) == Some(r as int),
                    },
                prose@ == formula_runs(all, formulas@, None, fs@.len() as int),
                input.originals.wf(),
                with_formulas(all, formulas@, n as int, *config, rules@) == Ok::<
                    InlineModel,
                    LineError,
                >(input@),
            decreases formulas@.len() - n,
        {
            reveal_with_fuel(with_formulas, 2);
            let items: Vec<TextItem> = collect_formula_runs(fs, &owners, formulas, Some(n));
            if items.len() > 0 {
                match self.order_formula(items, config, rules) {
                    Ok(rows) => {
                        self.join_rows(&mut input, &rows, &prose, formulas[n].inline);
                    },
                    Err(e) => {
                        proof {
                            lemma_formulas_stop(
                                all,
                                formulas@,
                                n + 1,
                                formulas@.len() as int,
                                *config,
                                rules@,
                            );
                        }
                        return Err(e);
                    },
                }
            }
            n = n + 1;
        }
        Ok(input)
    }
}

/// A formula that cannot be assembled ends the assembly.
proof fn lemma_formulas_stop(
    fs: Seq<FragmentModel>,
    regions: Seq<FormulaRegion>,
    part: int,
    n: int,
    config: FusionConfig,
    rules: Seq<TableRule>,
)
    requires
        part <= n,
        0 < part,
        with_formulas(fs, regions, part, config, rules) is Err,
    ensures
        with_formulas(fs, regions, n, config, rules) == with_formulas(
            fs,
            regions,
            part,
            config,
            rules,
        ),
    decreases n - part,
{
    reveal_with_fuel(with_formulas, 2);
    if part < n {
        lemma_formulas_stop(fs, regions, part, n - 1, config, rules);
    }
}

} // verus!
