//! Physical rows and spacing of lines, by the median width of a character.

use vstd::math::abs;
use vstd::prelude::*;

use crate::blocks::Line;
use crate::chars::{
    chars_of, lemma_trimmed_end, lemma_trimmed_start, trim, trim_end, trim_end_of, trim_of,
    trimmed_end, trimmed_start,
};
use crate::geometry::{distance, Bbox};
use crate::line::axes::{Frame, TextAxes};
use crate::sorting::{sort, sorted, sorting_orders_and_keeps, Order, Sorter};
use crate::types::{TextItem, WritingDirection, DEGREE};

verus! {

/// Columns of a row, at most.
pub const MAX_COLUMNS: usize = 4096;

/// The width of a run and how many characters it has besides the first.
#[derive(Debug, Clone, Copy, PartialEq, Eq, Structural)]
pub struct RunWidth {
    pub width: i64,
    pub others: u32,
}

impl RunWidth {
    /// Number of characters.
    pub open spec fn count(self) -> int {
        self.others + 1
    }
}

/// Runs by the width of their characters.
#[derive(Debug, Clone, Copy, PartialEq, Eq, Structural)]
pub struct WidthOrder;

impl Order<RunWidth> for WidthOrder {
    open spec fn lt(&self, a: RunWidth, b: RunWidth) -> bool {
        a.width * b.count() < b.width * a.count()
    }

    proof fn is_strict_weak(&self, a: RunWidth, b: RunWidth, c: RunWidth) {
        lemma_fractions(
            a.width as int,
            a.count(),
            b.width as int,
            b.count(),
            c.width as int,
            c.count(),
        );
    }
}

/// Fractions with positive denominators are ordered.
proof fn lemma_fractions(a: int, p: int, b: int, q: int, c: int, r: int)
    requires
        p > 0,
        q > 0,
        r > 0,
    ensures
        a * q < b * p && b * r < c * q ==> a * r < c * p,
        !(a * q < b * p) && !(b * r < c * q) ==> !(a * r < c * p),
{
    if a * q < b * p && b * r < c * q {
        assert(a * r < c * p) by (nonlinear_arith)
            requires
                p > 0,
                q > 0,
                r > 0,
                a * q < b * p,
                b * r < c * q,
        {
            assert(a * q * r < b * p * r);
            assert(b * r * p < c * q * p);
            assert((a * r) * q < (c * p) * q);
        }
    }
    if a * q >= b * p && b * r >= c * q {
        assert(a * r >= c * p) by (nonlinear_arith)
            requires
                p > 0,
                q > 0,
                r > 0,
                a * q >= b * p,
                b * r >= c * q,
        {
            assert(a * q * r >= b * p * r);
            assert(b * r * p >= c * q * p);
            assert((a * r) * q >= (c * p) * q);
        }
    }
}

impl Sorter<RunWidth> for WidthOrder {
    fn precedes(&self, a: &RunWidth, b: &RunWidth) -> (yes: bool) {
        proof {
            lemma_product(a.width as int, b.count());
            lemma_product(b.width as int, a.count());
        }
        a.width as i128 * (b.others as i128 + 1) < b.width as i128 * (a.others as i128 + 1)
    }
}

/// A width times a number of characters stays far from the limits.
proof fn lemma_product(w: int, n: int)
    requires
        -0x8000_0000_0000_0000 <= w <= 0x8000_0000_0000_0000,
        0 <= n <= 0x1_0000_0000,
    ensures
        -0x8000_0000_0000_0000_0000_0000 <= w * n <= 0x8000_0000_0000_0000_0000_0000,
{
    assert(-0x8000_0000_0000_0000_0000_0000 <= w * n <= 0x8000_0000_0000_0000_0000_0000)
        by (nonlinear_arith)
        requires
            -0x8000_0000_0000_0000 <= w <= 0x8000_0000_0000_0000,
            0 <= n <= 0x1_0000_0000,
    ;
}

/// A box in the frame of text: left, top, right and bottom.
pub type Placed = (int, int, int, int);

/// The box around a box in a frame, where it has an extent.
pub open spec fn placed_of(axes: TextAxes, b: Bbox) -> Option<Placed> {
    let f = axes.frame_of(b);
    if f.0 < f.2 && f.1 < f.3 {
        Some(f)
    } else {
        None
    }
}

/// The width of a run, where it has one.
pub open spec fn run_width(axes: TextAxes, item: TextItem) -> Option<RunWidth> {
    match placed_of(axes, item.bbox) {
        None => None,
        Some(f) => if item.raw_text@.len() > 0 {
            Some(
                RunWidth {
                    width: (f.2 - f.0) as i64,
                    others: (item.raw_text@.len() - 1) as u32,
                },
            )
        } else {
            None
        },
    }
}

/// The widths of the first `n` runs of a line.
pub open spec fn item_widths(axes: TextAxes, items: Seq<TextItem>, n: int) -> Seq<RunWidth>
    decreases n,
{
    if n <= 0 {
        Seq::empty()
    } else {
        match run_width(axes, items[n - 1]) {
            None => item_widths(axes, items, n - 1),
            Some(width) => item_widths(axes, items, n - 1).push(width),
        }
    }
}

/// The widths of the runs of the first `n` lines.
pub open spec fn line_widths(axes: TextAxes, lines: Seq<Line>, n: int) -> Seq<RunWidth>
    decreases n,
{
    if n <= 0 {
        Seq::empty()
    } else {
        line_widths(axes, lines, n - 1) + item_widths(
            axes,
            lines[n - 1].text_items@,
            lines[n - 1].text_items@.len() as int,
        )
    }
}

/// The median of fractions in order, as a fraction.
pub open spec fn median_of(s: Seq<RunWidth>) -> (int, int) {
    let m = s[s.len() as int / 2];
    if s.len() % 2 == 0 {
        let l = s[s.len() as int / 2 - 1];
        (l.width * m.count() + m.width * l.count(), 2 * (l.count() * m.count()))
    } else {
        (m.width as int, m.count())
    }
}

/// The width of a character as a fraction: the median, at least a tenth of a point.
pub open spec fn char_width(axes: TextAxes, lines: Seq<Line>) -> (int, int) {
    let widths = line_widths(axes, lines, lines.len() as int);
    let (num, den) = if widths.len() == 0 {
        (lines[0].bbox.high(), 2int)
    } else {
        median_of(sorted(widths, WidthOrder))
    };
    if num < 1_000 * den {
        (1_000, 1)
    } else {
        (num, den)
    }
}

/// Where a box starts, along the reading direction.
pub open spec fn start_of(f: Placed, rtl: bool) -> int {
    if rtl {
        -f.2
    } else {
        f.0
    }
}

/// Whether a line has something to show.
pub open spec fn has_content(line: Line) -> bool {
    trim_of(line.text@).len() > 0 || line.inline_spans > 0
}

/// The first start among the first `n` lines with something to show.
pub open spec fn origin_upto(axes: TextAxes, lines: Seq<Line>, rtl: bool, n: int) -> Option<int>
    decreases n,
{
    if n <= 0 {
        None
    } else {
        let before = origin_upto(axes, lines, rtl, n - 1);
        match placed_of(axes, lines[n - 1].bbox) {
            None => before,
            Some(f) => if !has_content(lines[n - 1]) {
                before
            } else {
                match before {
                    None => Some(start_of(f, rtl)),
                    Some(least) => if start_of(f, rtl) < least {
                        Some(start_of(f, rtl))
                    } else {
                        Some(least)
                    },
                }
            },
        }
    }
}

/// What all lines are measured against.
pub struct Grid {
    pub axes: TextAxes,
    pub rtl: bool,
    /// The width of a character as a fraction.
    pub num: int,
    pub den: int,
    pub origin: int,
}

/// What lines are measured against.
pub open spec fn grid_of(lines: Seq<Line>) -> Grid {
    let axes = TextAxes { rotation: lines[0].rotation };
    let rtl = lines[0].direction == WritingDirection::RightToLeft;
    let (num, den) = char_width(axes, lines);
    Grid {
        axes,
        rtl,
        num,
        den,
        origin: match origin_upto(axes, lines, rtl, lines.len() as int) {
            None => 0,
            Some(least) => least,
        },
    }
}

/// The line shown before: its direction and angle, its box and its baseline.
pub struct Shown {
    pub direction: WritingDirection,
    pub angle: int,
    pub bounds: Placed,
    pub row: int,
}

/// The cross-line coordinate of the baseline of a line.
pub open spec fn row_of(axes: TextAxes, line: Line, f: Placed) -> int {
    match line.baseline {
        None => f.3,
        Some(baseline) => axes.cross_of(baseline.start),
    }
}

/// The smaller height of two boxes.
pub open spec fn lower_height(a: Placed, b: Placed) -> int {
    if a.3 - a.1 < b.3 - b.1 {
        a.3 - a.1
    } else {
        b.3 - b.1
    }
}

/// Whether a line continues the row of the line shown before.
pub open spec fn same_row(grid: Grid, before: Shown, line: Line, f: Placed) -> bool {
    let row = row_of(grid.axes, line, f);
    &&& before.direction == line.direction
    &&& abs(before.angle - line.rotation.angle) < 2 * DEGREE
    &&& 100 * abs(row - before.row) <= 35 * lower_height(f, before.bounds)
    &&& (if grid.rtl {
        f.2 - before.bounds.0
    } else {
        before.bounds.2 - f.0
    }) * grid.den <= grid.num
}

/// The column a box starts at.
pub open spec fn column_of(grid: Grid, f: Placed) -> int {
    let d = start_of(f, grid.rtl) - grid.origin;
    let column = (2 * (d * grid.den) + grid.num) / (2 * grid.num);
    if d <= 0 {
        0
    } else if column > MAX_COLUMNS {
        MAX_COLUMNS as int
    } else {
        column
    }
}

/// The number of spaces at the start of a text, from `i` on.
pub open spec fn leading_from(s: Seq<char>, i: int) -> int
    decreases s.len() - i,
{
    if i >= s.len() || s[i] != ' ' {
        i
    } else {
        leading_from(s, i + 1)
    }
}

/// The gap between a box and the one shown before it.
pub open spec fn gap_of(grid: Grid, before: Shown, f: Placed) -> int {
    if grid.rtl {
        before.bounds.0 - f.2
    } else {
        f.0 - before.bounds.2
    }
}

/// The number of spaces in front of a line.
pub open spec fn spaces_of(
    grid: Grid,
    before: Option<Shown>,
    columns: int,
    line: Line,
    text: Seq<char>,
    f: Placed,
) -> int {
    let joined = before is Some && same_row(grid, before->0, line, f);
    let used = if joined {
        columns
    } else {
        0
    };
    let wanted = if column_of(grid, f) > used {
        column_of(grid, f) - used
    } else {
        0
    };
    let leading = leading_from(text, 0);
    let spaces = if wanted > leading {
        wanted
    } else {
        leading
    };
    if joined && 2 * gap_of(grid, before->0, f) * grid.den > grid.num && spaces < 1 {
        1
    } else {
        spaces
    }
}

/// One line as it is shown.
#[derive(Debug)]
pub struct ProjectedLine {
    /// Whether a new row starts.
    pub new_row: bool,
    pub spaces: usize,
    pub text: String,
}

/// What is shown of a line.
#[verifier::ext_equal]
pub struct ProjectedModel {
    pub new_row: bool,
    pub spaces: int,
    pub text: Seq<char>,
}

impl View for ProjectedLine {
    type V = ProjectedModel;

    open spec fn view(&self) -> ProjectedModel {
        ProjectedModel { new_row: self.new_row, spaces: self.spaces as int, text: self.text@ }
    }
}

/// What is shown of lines.
pub open spec fn shown_models(lines: Seq<ProjectedLine>) -> Seq<ProjectedModel> {
    lines.map_values(|l: ProjectedLine| l@)
}

/// What is shown of the first lines, the last of them, and the columns its row takes.
pub struct Progress {
    pub shown: Seq<ProjectedModel>,
    pub before: Option<Shown>,
    pub columns: int,
}

/// What is shown of the first `n` lines.
pub open spec fn projected_upto(
    grid: Grid,
    lines: Seq<Line>,
    rendered: Seq<Seq<char>>,
    n: int,
) -> Progress
    decreases n,
{
    if n <= 0 {
        Progress { shown: Seq::empty(), before: None, columns: 0 }
    } else {
        let sofar = projected_upto(grid, lines, rendered, n - 1);
        let line = lines[n - 1];
        let text = rendered[n - 1];
        match placed_of(grid.axes, line.bbox) {
            None => sofar,
            Some(f) => if trim_of(text).len() == 0 {
                sofar
            } else {
                let joined = sofar.before is Some && same_row(grid, sofar.before->0, line, f);
                let spaces = spaces_of(grid, sofar.before, sofar.columns, line, text, f);
                Progress {
                    shown: sofar.shown.push(
                        ProjectedModel {
                            new_row: !joined && sofar.before is Some,
                            spaces,
                            text: trim_end_of(text).skip(leading_from(text, 0)),
                        },
                    ),
                    before: Some(
                        Shown {
                            direction: line.direction,
                            angle: line.rotation.angle as int,
                            bounds: f,
                            row: row_of(grid.axes, line, f),
                        },
                    ),
                    columns: (if joined {
                        sofar.columns
                    } else {
                        0
                    }) + spaces + trim_of(line.text@).len(),
                }
            },
        }
    }
}

/// What is shown of lines.
pub open spec fn projection_of(lines: Seq<Line>, rendered: Seq<Seq<char>>) -> Seq<ProjectedModel> {
    if lines.len() == 0 {
        Seq::empty()
    } else {
        projected_upto(grid_of(lines), lines, rendered, lines.len() as int).shown
    }
}

/// Whether no run is longer than a machine can count.
pub open spec fn runs_fit(lines: Seq<Line>) -> bool {
    forall|l: int, i: int|
        0 <= l < lines.len() && 0 <= i < lines[l].text_items@.len() ==> (
        #[trigger] lines[l].text_items@[i]).raw_text@.len() <= u32::MAX
}

/// What all lines are measured against.
#[derive(Debug, Clone, Copy)]
struct Ruler {
    axes: TextAxes,
    rtl: bool,
    num: i128,
    den: i128,
    origin: i128,
}

impl Ruler {
    spec fn grid(self) -> Grid {
        Grid {
            axes: self.axes,
            rtl: self.rtl,
            num: self.num as int,
            den: self.den as int,
            origin: self.origin as int,
        }
    }

    spec fn wf(self) -> bool {
        &&& 1 <= self.num <= 0x100_0000_0000_0000_0000
        &&& 1 <= self.den <= 0x4_0000_0000_0000_0000
        &&& -0x8_0000_0000 <= self.origin <= 0x8_0000_0000
    }
}

/// The box around a box in a frame, where it has an extent.
fn place_box(axes: &TextAxes, b: &Bbox) -> (placed: Option<Frame>)
    ensures
        match placed {
            None => placed_of(*axes, *b) is None,
            Some(frame) => {
                &&& placed_of(*axes, *b) == Some(
                    (
                        frame.left as int,
                        frame.top as int,
                        frame.right as int,
                        frame.bottom as int,
                    ),
                )
                &&& -0x8_0000_0000 <= frame.left < frame.right <= 0x8_0000_0000
                &&& -0x8_0000_0000 <= frame.top < frame.bottom <= 0x8_0000_0000
            },
        },
{
    match axes.project_bbox(*b) {
        Ok(frame) => Some(frame),
        Err(_) => None,
    }
}

/// Whether widths are those of boxes on a page.
spec fn widths_bounded(s: Seq<RunWidth>) -> bool {
    forall|i: int| 0 <= i < s.len() ==> 0 < (#[trigger] s[i]).width <= 0x10_0000_0000
}

/// The widths of the runs of lines.
fn list_widths(axes: &TextAxes, lines: &Vec<Line>) -> (widths: Vec<RunWidth>)
    requires
        runs_fit(lines@),
    ensures
        widths@ == line_widths(*axes, lines@, lines@.len() as int),
        widths_bounded(widths@),
{
    let mut widths: Vec<RunWidth> = Vec::new();
    let mut l: usize = 0;
    while l < lines.len()
        invariant
            runs_fit(lines@),
            l <= lines@.len(),
            widths@ == line_widths(*axes, lines@, l as int),
            widths_bounded(widths@),
        decreases lines@.len() - l,
    {
        let items: &Vec<TextItem> = &lines[l].text_items;
        let ghost before = widths@;
        let mut i: usize = 0;
        assert(widths@ =~= before + item_widths(*axes, items@, 0));
        while i < items.len()
            invariant
                runs_fit(lines@),
                l < lines@.len(),
                items@ == lines@[l as int].text_items@,
                i <= items@.len(),
                widths@ == before + item_widths(*axes, items@, i as int),
                widths_bounded(widths@),
            decreases items@.len() - i,
        {
            let item: &TextItem = &items[i];
            assert(lines@[l as int].text_items@[i as int] == *item);
            let count: usize = item.raw_text.chars().len();
            i = i + 1;
            if count > 0 {
                if let Some(frame) = place_box(axes, &item.bbox) {
                    let width: i64 = frame.right - frame.left;
                    widths.push(RunWidth { width, others: (count - 1) as u32 });
                }
            }
            assert(widths@ =~= before + item_widths(*axes, items@, i as int));
        }
        l = l + 1;
    }
    widths
}

/// Two widths times two numbers of characters.
proof fn lemma_median(w: int, n: int, v: int, m: int)
    requires
        0 < w <= 0x10_0000_0000,
        0 < v <= 0x10_0000_0000,
        1 <= n <= 0x1_0000_0000,
        1 <= m <= 0x1_0000_0000,
    ensures
        0 < w * m <= 0x10_0000_0000_0000_0000,
        0 < v * n <= 0x10_0000_0000_0000_0000,
        1 <= n * m <= 0x1_0000_0000_0000_0000,
{
    assert(0 < w * m <= 0x10_0000_0000_0000_0000) by (nonlinear_arith)
        requires
            0 < w <= 0x10_0000_0000,
            1 <= m <= 0x1_0000_0000,
    ;
    assert(0 < v * n <= 0x10_0000_0000_0000_0000) by (nonlinear_arith)
        requires
            0 < v <= 0x10_0000_0000,
            1 <= n <= 0x1_0000_0000,
    ;
    assert(1 <= n * m <= 0x1_0000_0000_0000_0000) by (nonlinear_arith)
        requires
            1 <= n <= 0x1_0000_0000,
            1 <= m <= 0x1_0000_0000,
    ;
}

/// The width of a character as a fraction.
fn measure_char(axes: &TextAxes, lines: &Vec<Line>) -> (width: (i128, i128))
    requires
        runs_fit(lines@),
        lines@.len() > 0,
    ensures
        (width.0 as int, width.1 as int) == char_width(*axes, lines@),
        1 <= width.0 <= 0x100_0000_0000_0000_0000,
        1 <= width.1 <= 0x4_0000_0000_0000_0000,
{
    let widths: Vec<RunWidth> = list_widths(axes, lines);
    let ghost given = widths@;
    proof {
        sorting_orders_and_keeps(given, WidthOrder);
    }
    let s: Vec<RunWidth> = sort(widths, &WidthOrder);
    proof {
        given.to_multiset_ensures();
        s@.to_multiset_ensures();
        assert forall|i: int| 0 <= i < s@.len() implies 0 < (#[trigger] s@[i]).width
            <= 0x10_0000_0000 by {
            assert(s@.contains(s@[i]));
            assert(s@.to_multiset().count(s@[i]) > 0);
            assert(given.contains(s@[i]));
            let k = given.index_of(s@[i]);
            assert(given[k] == s@[i]);
        }
    }
    let n: usize = s.len();
    let (num, den): (i128, i128) = if n == 0 {
        (lines[0].bbox.height() as i128, 2)
    } else {
        let m: RunWidth = s[n / 2];
        if n % 2 == 0 {
            let l: RunWidth = s[n / 2 - 1];
            proof {
                lemma_median(l.width as int, l.count(), m.width as int, m.count());
            }
            let a: i128 = l.width as i128 * (m.others as i128 + 1);
            let b: i128 = m.width as i128 * (l.others as i128 + 1);
            let c: i128 = (l.others as i128 + 1) * (m.others as i128 + 1);
            (a + b, 2 * c)
        } else {
            (m.width as i128, m.others as i128 + 1)
        }
    };
    if num < 1_000 * den {
        (1_000, 1)
    } else {
        (num, den)
    }
}

/// Whether a line has something to show.
fn does_show(line: &Line) -> (yes: bool)
    ensures
        yes == has_content(*line),
{
    trim(line.text.as_str()).unicode_len() > 0 || line.inline_spans > 0
}

/// The first start among lines with something to show.
fn find_origin(axes: &TextAxes, lines: &Vec<Line>, rtl: bool) -> (origin: i128)
    ensures
        origin == (match origin_upto(*axes, lines@, rtl, lines@.len() as int) {
            None => 0,
            Some(least) => least,
        }),
        -0x8_0000_0000 <= origin <= 0x8_0000_0000,
{
    let mut least: Option<i64> = None;
    let mut l: usize = 0;
    while l < lines.len()
        invariant
            l <= lines@.len(),
            match (least, origin_upto(*axes, lines@, rtl, l as int)) {
                (None, None) => true,
                (Some(found), Some(expected)) => found == expected && -0x8_0000_0000 <= found
                    <= 0x8_0000_0000,
                _ => false,
            },
        decreases lines@.len() - l,
    {
        let line: &Line = &lines[l];
        if let Some(frame) = place_box(axes, &line.bbox) {
            if does_show(line) {
                let start: i64 = if rtl {
                    -frame.right
                } else {
                    frame.left
                };
                least = match least {
                    None => Some(start),
                    Some(found) => if start < found {
                        Some(start)
                    } else {
                        Some(found)
                    },
                };
            }
        }
        l = l + 1;
    }
    match least {
        None => 0,
        Some(found) => found as i128,
    }
}

/// The line shown before.
#[derive(Debug, Clone, Copy)]
struct Previous {
    direction: WritingDirection,
    angle: i32,
    bounds: Frame,
    row: i64,
}

impl Previous {
    spec fn shown(self) -> Shown {
        Shown {
            direction: self.direction,
            angle: self.angle as int,
            bounds: (
                self.bounds.left as int,
                self.bounds.top as int,
                self.bounds.right as int,
                self.bounds.bottom as int,
            ),
            row: self.row as int,
        }
    }

    spec fn wf(self) -> bool {
        &&& -0x8_0000_0000 <= self.bounds.left < self.bounds.right <= 0x8_0000_0000
        &&& -0x8_0000_0000 <= self.bounds.top < self.bounds.bottom <= 0x8_0000_0000
        &&& -0x8_0000_0000 <= self.row <= 0x8_0000_0000
    }
}

/// A distance on the page times a number of characters.
proof fn lemma_scaled(d: int, den: int)
    requires
        -0x20_0000_0000 <= d <= 0x20_0000_0000,
        1 <= den <= 0x4_0000_0000_0000_0000,
    ensures
        -0x80_0000_0000_0000_0000_0000_0000 <= d * den <= 0x80_0000_0000_0000_0000_0000_0000,
        d > 0 ==> d * den > 0,
{
    assert(-0x80_0000_0000_0000_0000_0000_0000 <= d * den <= 0x80_0000_0000_0000_0000_0000_0000)
        by (nonlinear_arith)
        requires
            -0x20_0000_0000 <= d <= 0x20_0000_0000,
            1 <= den <= 0x4_0000_0000_0000_0000,
    ;
    if d > 0 {
        assert(d * den > 0) by (nonlinear_arith)
            requires
                d > 0,
                den >= 1,
        ;
    }
}

/// Whether a line continues the row of the line shown before.
fn joins_row(ruler: &Ruler, before: &Previous, line: &Line, f: &Frame, row: i64) -> (yes: bool)
    requires
        ruler.wf(),
        before.wf(),
        -0x8_0000_0000 <= f.left < f.right <= 0x8_0000_0000,
        -0x8_0000_0000 <= f.top < f.bottom <= 0x8_0000_0000,
        -0x8_0000_0000 <= row <= 0x8_0000_0000,
        row == row_of(
            ruler.axes,
            *line,
            (f.left as int, f.top as int, f.right as int, f.bottom as int),
        ),
    ensures
        yes == same_row(
            ruler.grid(),
            before.shown(),
            *line,
            (f.left as int, f.top as int, f.right as int, f.bottom as int),
        ),
{
    let alike: bool = match (before.direction, line.direction) {
        (WritingDirection::LeftToRight, WritingDirection::LeftToRight) => true,
        (WritingDirection::RightToLeft, WritingDirection::RightToLeft) => true,
        (WritingDirection::Vertical, WritingDirection::Vertical) => true,
        _ => false,
    };
    if !alike || distance(before.angle as i64, line.rotation.angle as i64) >= 2 * (DEGREE as i128) {
        return false;
    }
    let own: i128 = f.height();
    let other: i128 = before.bounds.height();
    let least: i128 = if own < other {
        own
    } else {
        other
    };
    if 100 * distance(row, before.row) > 35 * least {
        return false;
    }
    let reach: i128 = if ruler.rtl {
        f.right as i128 - before.bounds.left as i128
    } else {
        before.bounds.right as i128 - f.left as i128
    };
    proof {
        lemma_scaled(reach as int, ruler.den as int);
    }
    reach * ruler.den <= ruler.num
}

/// The column a box starts at.
fn find_column(ruler: &Ruler, f: &Frame) -> (column: usize)
    requires
        ruler.wf(),
        -0x8_0000_0000 <= f.left < f.right <= 0x8_0000_0000,
    ensures
        column == column_of(
            ruler.grid(),
            (f.left as int, f.top as int, f.right as int, f.bottom as int),
        ),
        column <= MAX_COLUMNS,
{
    let start: i128 = if ruler.rtl {
        -(f.right as i128)
    } else {
        f.left as i128
    };
    let d: i128 = start - ruler.origin;
    if d <= 0 {
        return 0;
    }
    proof {
        lemma_scaled(d as int, ruler.den as int);
    }
    let top: i128 = 2 * (d * ruler.den) + ruler.num;
    let column: i128 = top / (2 * ruler.num);
    assert(column >= 0);
    if column > MAX_COLUMNS as i128 {
        MAX_COLUMNS
    } else {
        column as usize
    }
}

/// The number of spaces at the start of a text.
fn count_leading(all: &Vec<char>) -> (count: usize)
    ensures
        count == leading_from(all@, 0),
        count <= all@.len(),
{
    let mut i: usize = 0;
    while i < all.len() && all[i] == ' '
        invariant
            i <= all@.len(),
            leading_from(all@, 0) == leading_from(all@, i as int),
        decreases all@.len() - i,
    {
        i = i + 1;
    }
    i
}

/// Everything before the end of the leading spaces is a space.
proof fn lemma_leading(s: Seq<char>, i: int)
    requires
        0 <= i <= s.len(),
    ensures
        i <= leading_from(s, i) <= s.len(),
        forall|k: int| i <= k < leading_from(s, i) ==> #[trigger] s[k] == ' ',
    decreases s.len() - i,
{
    if i < s.len() && s[i] == ' ' {
        lemma_leading(s, i + 1);
    }
}

/// Blanks at the start do not reach beyond the text without blanks at its end.
proof fn lemma_body(s: Seq<char>)
    requires
        trim_of(s).len() > 0,
    ensures
        leading_from(s, 0) <= trim_end_of(s).len(),
{
    lemma_leading(s, 0);
    lemma_trimmed_end(s, s.len() as int);
    let end = trimmed_end(s, s.len() as int);
    lemma_trimmed_start(s, 0, end);
    let lead = leading_from(s, 0);
    if lead > end {
        lemma_all_blank(s, 0, end);
    }
}

/// A text of spaces has nothing else.
proof fn lemma_all_blank(s: Seq<char>, i: int, end: int)
    requires
        0 <= i <= end <= s.len(),
        forall|k: int| i <= k < end ==> #[trigger] s[k] == ' ',
    ensures
        trimmed_start(s, i, end) == end,
    decreases end - i,
{
    if i < end {
        assert(s[i] == ' ');
        lemma_all_blank(s, i + 1, end);
    }
}

/// The text of a line as it is shown.
fn shown_text(text: &str, all: &Vec<char>, leading: usize) -> (shown: String)
    requires
        all@ == text@,
        leading == leading_from(text@, 0),
        trim_of(text@).len() > 0,
    ensures
        shown@ == trim_end_of(text@).skip(leading as int),
{
    proof {
        lemma_body(text@);
    }
    let body: &str = trim_end(text);
    let chars: Vec<char> = chars_of(body);
    let mut shown: String = String::new();
    let mut k: usize = leading;
    assert(shown@ =~= chars@.subrange(leading as int, leading as int));
    while k < chars.len()
        invariant
            leading <= k <= chars@.len(),
            shown@ == chars@.subrange(leading as int, k as int),
        decreases chars@.len() - k,
    {
        shown.push(chars[k]);
        k = k + 1;
        assert(shown@ =~= chars@.subrange(leading as int, k as int));
    }
    assert(shown@ =~= trim_end_of(text@).skip(leading as int));
    shown
}

/// What lines render to.
pub open spec fn rendered_of(rendered: Seq<String>) -> Seq<Seq<char>> {
    rendered.map_values(|t: String| t@)
}

/// A sum, but no more than the columns of a row.
fn capped(a: usize, b: usize, c: usize) -> (sum: usize)
    ensures
        sum == (if a + b + c > MAX_COLUMNS {
            MAX_COLUMNS as int
        } else {
            a + b + c
        }),
{
    let total: u128 = a as u128 + b as u128 + c as u128;
    if total > MAX_COLUMNS as u128 {
        MAX_COLUMNS
    } else {
        total as usize
    }
}

impl Line {
    /// Rows and spacing of lines that render to the given texts, one for each line.
    pub fn project_layout(lines: &Vec<Line>, rendered: &Vec<String>) -> (shown: Vec<ProjectedLine>)
        requires
            lines@.len() == rendered@.len(),
            runs_fit(lines@),
        ensures
            shown_models(shown@) == projection_of(lines@, rendered_of(rendered@)),
    {
        let mut shown: Vec<ProjectedLine> = Vec::new();
        assert(shown_models(shown@) =~= Seq::empty());
        if lines.len() == 0 {
            return shown;
        }
        let axes: TextAxes = TextAxes { rotation: lines[0].rotation };
        let rtl: bool = matches!(lines[0].direction, WritingDirection::RightToLeft);
        let (num, den): (i128, i128) = measure_char(&axes, lines);
        let origin: i128 = find_origin(&axes, lines, rtl);
        let ruler = Ruler { axes, rtl, num, den, origin };
        let ghost grid = grid_of(lines@);
        assert(ruler.grid() == grid);
        let ghost texts = rendered_of(rendered@);
        let mut before: Option<Previous> = None;
        let mut columns: usize = 0;
        let mut l: usize = 0;
        while l < lines.len()
            invariant
                lines@.len() == rendered@.len(),
                ruler.wf(),
                ruler.grid() == grid,
                texts == rendered_of(rendered@),
                l <= lines@.len(),
                ({
                    let sofar = projected_upto(grid, lines@, texts, l as int);
                    &&& shown_models(shown@) == sofar.shown
                    &&& match before {
                        None => sofar.before is None,
                        Some(previous) => previous.wf() && sofar.before == Some(previous.shown()),
                    }
                    &&& columns == (if sofar.columns > MAX_COLUMNS {
                        MAX_COLUMNS as int
                    } else {
                        sofar.columns
                    })
                    &&& sofar.columns >= 0
                }),
            decreases lines@.len() - l,
        {
            let line: &Line = &lines[l];
            let text: &str = rendered[l].as_str();
            let ghost sofar = projected_upto(grid, lines@, texts, l as int);
            assert(texts[l as int] == text@);
            l = l + 1;
            if trim(text).unicode_len() == 0 {
                continue ;
            }
            let f: Frame = match place_box(&ruler.axes, &line.bbox) {
                None => {
                    continue ;
                },
                Some(frame) => frame,
            };
            let row: i64 = match &line.baseline {
                None => f.bottom,
                Some(baseline) => ruler.axes.project(baseline.start).1,
            };
            let joined: bool = match &before {
                None => false,
                Some(previous) => joins_row(&ruler, previous, line, &f, row),
            };
            let used: usize = if joined {
                columns
            } else {
                0
            };
            let target: usize = find_column(&ruler, &f);
            let all: Vec<char> = chars_of(text);
            let leading: usize = count_leading(&all);
            let wanted: usize = if target > used {
                target - used
            } else {
                0
            };
            let mut spaces: usize = if wanted > leading {
                wanted
            } else {
                leading
            };
            if joined {
                if let Some(previous) = &before {
                    let gap: i128 = if ruler.rtl {
                        previous.bounds.left as i128 - f.right as i128
                    } else {
                        f.left as i128 - previous.bounds.right as i128
                    };
                    proof {
                        lemma_scaled(2 * gap, ruler.den as int);
                    }
                    if 2 * gap * ruler.den > ruler.num && spaces < 1 {
                        spaces = 1;
                    }
                }
            }
            let ghost placed = (f.left as int, f.top as int, f.right as int, f.bottom as int);
            assert(spaces == spaces_of(
                grid,
                sofar.before,
                sofar.columns,
                *line,
                text@,
                placed,
            ));
            let new_row: bool = !joined && before.is_some();
            let made = ProjectedLine { new_row, spaces, text: shown_text(text, &all, leading) };
            let ghost held = shown@;
            shown.push(made);
            assert(shown_models(shown@) =~= shown_models(held).push(made@));
            let length: usize = trim(line.text.as_str()).unicode_len();
            columns = capped(used, spaces, length);
            before = Some(
                Previous {
                    direction: line.direction,
                    angle: line.rotation.angle,
                    bounds: f,
                    row,
                },
            );
            proof {
                let next = projected_upto(grid, lines@, texts, l as int);
                assert(made@ =~= next.shown.last());
                assert(shown_models(shown@) =~= next.shown);
            }
        }
        shown
    }
}

} // verus!
