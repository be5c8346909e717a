//! Typography and geometry of a line.

use vstd::math::abs;
use vstd::prelude::*;

use super::mean::{mean_of, Mean};
use crate::error::LineError;
use crate::geometry::{distance, narrow, narrowed, Baseline, Bbox, GeometryError, Point};
use crate::types::{TextItem, WHOLE};

verus! {

/// Coarse horizontal anchor used by paragraph and ordering heuristics.
#[derive(Debug, Clone, Copy, PartialEq, Eq, Structural)]
pub enum LineAnchor {
    Left,
    Center,
    Right,
}

/// Aggregate geometry and typography of one line.
#[derive(Debug, Clone, Copy, PartialEq, Eq, Structural)]
pub struct LineMetrics {
    pub font_size: i32,
    pub font_size_estimated: bool,
    pub bold_ratio: u32,
    pub italic_ratio: u32,
    pub bbox: Bbox,
    pub baseline: Baseline,
    pub anchor: LineAnchor,
    pub indent: i32,
}

/// The box around the first `n` runs.
pub open spec fn box_upto(items: Seq<TextItem>, n: int) -> Bbox
    decreases n,
{
    if n <= 1 {
        items[0].bbox
    } else {
        box_upto(items, n - 1).join(items[n - 1].bbox)
    }
}

/// Why a box has no extent, if it has none.
pub open spec fn box_fault(b: Bbox) -> Option<GeometryError> {
    if b.right <= b.left {
        Some(GeometryError::EmptyWidth)
    } else if b.bottom <= b.top {
        Some(GeometryError::EmptyHeight)
    } else {
        None
    }
}

/// Why a run makes no line by itself, if it makes none.
pub open spec fn run_fault(item: TextItem) -> Option<LineError> {
    match box_fault(item.bbox) {
        None => None,
        Some(e) => Some(LineError::Geometry(e)),
    }
}

/// Why runs in reading order make no line: there is none, or their joint box has no extent. The
/// box grows with every run, so that of the first one decides.
pub open spec fn line_fault(items: Seq<TextItem>) -> Option<LineError> {
    if items.len() == 0 {
        Some(LineError::EmptyFragment)
    } else {
        run_fault(items[0])
    }
}

/// The first fault among the first `n` runs, each by itself.
pub open spec fn runs_fault(items: Seq<TextItem>, n: int) -> Option<LineError>
    decreases n,
{
    if n <= 0 {
        None
    } else {
        match runs_fault(items, n - 1) {
            Some(e) => Some(e),
            None => run_fault(items[n - 1]),
        }
    }
}

/// Runs make a line exactly where the joint box of any number of them, from the first one on,
/// has an extent.
pub proof fn joint_boxes_have_extents(items: Seq<TextItem>)
    requires
        items.len() > 0,
    ensures
        line_fault(items) is None <==> forall|k: int|
            1 <= k <= items.len() ==> (#[trigger] box_upto(items, k)).valid(),
{
    if line_fault(items) is None {
        assert forall|k: int| 1 <= k <= items.len() implies (#[trigger] box_upto(items, k)).valid()
            by {
            lemma_box_grows(items, k);
        }
    } else {
        assert(!box_upto(items, 1).valid());
    }
}

/// A joint box that starts with an extent keeps it.
proof fn lemma_box_grows(items: Seq<TextItem>, k: int)
    requires
        1 <= k <= items.len(),
        items[0].bbox.valid(),
    ensures
        box_upto(items, k).valid(),
    decreases k,
{
    if k > 1 {
        lemma_box_grows(items, k - 1);
    }
}

/// Runs with extents have no fault.
pub proof fn lemma_sound_runs(items: Seq<TextItem>, n: int)
    requires
        n <= items.len(),
        forall|i: int| 0 <= i < n ==> (#[trigger] items[i]).bbox.valid(),
    ensures
        runs_fault(items, n) is None,
    decreases n,
{
    if n > 0 {
        lemma_sound_runs(items, n - 1);
    }
}

/// Runs without a fault have extents.
pub proof fn lemma_runs_sound(items: Seq<TextItem>, n: int)
    requires
        runs_fault(items, n) is None,
    ensures
        forall|i: int| 0 <= i < n ==> (#[trigger] items[i]).bbox.valid(),
    decreases n,
{
    if n > 0 {
        lemma_runs_sound(items, n - 1);
    }
}

/// A fault stays the first one.
pub proof fn lemma_fault_stays(items: Seq<TextItem>, part: int, n: int)
    requires
        part <= n,
        runs_fault(items, part) is Some,
    ensures
        runs_fault(items, n) == runs_fault(items, part),
    decreases n - part,
{
    if part < n {
        lemma_fault_stays(items, part, n - 1);
    }
}

/// Why a run makes no line by itself.
pub fn find_run_fault(item: &TextItem) -> (fault: Option<LineError>)
    ensures
        fault == run_fault(*item),
{
    let b: Bbox = item.bbox;
    match Bbox::new(b.left, b.top, b.right, b.bottom) {
        Ok(_) => None,
        Err(e) => Some(LineError::Geometry(e)),
    }
}

/// How much a run counts in averages: its characters, at least one.
pub open spec fn weight(item: TextItem) -> int {
    let n = item.raw_text@.len() as int;
    if n == 0 {
        1
    } else {
        n
    }
}

/// Total weight of the first `n` runs.
pub open spec fn weight_upto(items: Seq<TextItem>, n: int) -> int
    decreases n,
{
    if n <= 0 {
        0
    } else {
        weight_upto(items, n - 1) + weight(items[n - 1])
    }
}

/// Total weight of the runs among the first `n` whose font size is stated.
pub open spec fn sized_upto(items: Seq<TextItem>, n: int) -> int
    decreases n,
{
    if n <= 0 {
        0
    } else {
        sized_upto(items, n - 1) + if items[n - 1].size() is Some {
            weight(items[n - 1])
        } else {
            0
        }
    }
}

/// Weighted sum of the stated font sizes of the first `n` runs.
pub open spec fn size_sum_upto(items: Seq<TextItem>, n: int) -> int
    decreases n,
{
    if n <= 0 {
        0
    } else {
        size_sum_upto(items, n - 1) + match items[n - 1].size() {
            Some(size) => size * weight(items[n - 1]),
            None => 0,
        }
    }
}

/// Total weight of the bold runs among the first `n`.
pub open spec fn bold_upto(items: Seq<TextItem>, n: int) -> int
    decreases n,
{
    if n <= 0 {
        0
    } else {
        bold_upto(items, n - 1) + if items[n - 1].style matches Some(style) && style.bold {
            weight(items[n - 1])
        } else {
            0
        }
    }
}

/// Total weight of the italic runs among the first `n`.
pub open spec fn italic_upto(items: Seq<TextItem>, n: int) -> int
    decreases n,
{
    if n <= 0 {
        0
    } else {
        italic_upto(items, n - 1) + if items[n - 1].style matches Some(style) && style.italic {
            weight(items[n - 1])
        } else {
            0
        }
    }
}

/// Where the middle of a line lies on its page: within a fifth of the page
/// width around the middle, or on either side.
pub open spec fn anchor_of(bbox: Bbox, page_width: int) -> LineAnchor {
    if abs(bbox.mid_x2() - page_width) * 10 <= page_width * 4 {
        LineAnchor::Center
    } else if bbox.mid_x2() < page_width {
        LineAnchor::Left
    } else {
        LineAnchor::Right
    }
}

/// The bottom edge of a box, as a baseline.
pub open spec fn bottom_line(b: Bbox) -> Baseline {
    Baseline {
        start: Point { x: b.left, y: b.bottom },
        end: Point { x: b.right, y: b.bottom },
    }
}

/// The measured baseline of the first `n` runs: from the start of the first measured one to the
/// end of the last.
pub open spec fn measured_upto(items: Seq<TextItem>, n: int) -> Option<Baseline>
    decreases n,
{
    if n <= 0 {
        None
    } else {
        match (measured_upto(items, n - 1), items[n - 1].baseline) {
            (before, None) => before,
            (None, Some(line)) => Some(line),
            (Some(before), Some(line)) => Some(Baseline { start: before.start, end: line.end }),
        }
    }
}

/// The baseline of runs in reading order: the measured one, else the bottom edge of their box.
pub open spec fn line_of(items: Seq<TextItem>, bbox: Bbox) -> Baseline {
    match measured_upto(items, items.len() as int) {
        Some(line) => line,
        None => bottom_line(bbox),
    }
}

/// Weighted mean of the stated font sizes, rounded down; without any, the height
/// of the line.
pub open spec fn mean_size(items: Seq<TextItem>) -> int {
    let n = items.len() as int;
    if sized_upto(items, n) == 0 {
        narrowed(box_upto(items, n).high())
    } else {
        size_sum_upto(items, n) / sized_upto(items, n)
    }
}

/// The aggregate of these runs.
pub open spec fn metrics_of(items: Seq<TextItem>, page_width: int) -> LineMetrics {
    let n = items.len() as int;
    let bbox = box_upto(items, n);
    LineMetrics {
        font_size: mean_size(items) as i32,
        font_size_estimated: sized_upto(items, n) == 0,
        bold_ratio: (bold_upto(items, n) * WHOLE / weight_upto(items, n)) as u32,
        italic_ratio: (italic_upto(items, n) * WHOLE / weight_upto(items, n)) as u32,
        bbox,
        baseline: line_of(items, bbox),
        anchor: anchor_of(bbox, page_width),
        indent: bbox.left,
    }
}

impl LineMetrics {
    /// Aggregates character-weighted style and the joint box of the runs, which must have an
    /// extent.
    pub fn from_items(items: &Vec<TextItem>, page_width: i32) -> (made: Result<LineMetrics, LineError>)
        ensures
            match made {
                Ok(metrics) => line_fault(items@) is None && metrics == metrics_of(
                    items@,
                    page_width as int,
                ) && metrics.font_size == mean_size(items@),
                Err(e) => line_fault(items@) == Some(e),
            },
    {
        if items.len() == 0 {
            return Err(LineError::EmptyFragment);
        }
        match find_run_fault(&items[0]) {
            Some(e) => Err(e),
            None => Ok(LineMetrics::aggregate(items, page_width)),
        }
    }

    /// Aggregates at least one run.
    fn aggregate(items: &Vec<TextItem>, page_width: i32) -> (metrics: LineMetrics)
        requires
            items@.len() > 0,
        ensures
            metrics == metrics_of(items@, page_width as int),
            metrics.font_size == mean_size(items@),
    {
        let mut bbox: Bbox = items[0].bbox;
        let mut sizes: Mean = Mean::new();
        let mut bold: Mean = Mean::new();
        let mut italic: Mean = Mean::new();
        let mut measured: Option<Baseline> = None;
        let length: usize = items.len();
        let mut i: usize = 0;
        while i < length
            invariant
                i <= length == items@.len(),
                items@.len() > 0,
                bbox == box_upto(items@, i as int),
                sizes.wf(),
                sizes.sum() == size_sum_upto(items@, i as int),
                sizes.weight == sized_upto(items@, i as int),
                i32::MIN <= sizes.quotient <= i32::MAX,
                bold.wf(),
                bold.sum() == bold_upto(items@, i as int) * WHOLE,
                bold.weight == weight_upto(items@, i as int),
                0 <= bold.quotient <= WHOLE,
                italic.wf(),
                italic.sum() == italic_upto(items@, i as int) * WHOLE,
                italic.weight == weight_upto(items@, i as int),
                0 <= italic.quotient <= WHOLE,
                sizes.weight <= bold.weight,
                i <= bold.weight <= i * 0xFFFF_FFFF_FFFF_FFFF,
                measured == measured_upto(items@, i as int),
            decreases length - i,
        {
            let item: &TextItem = &items[i];
            bbox = bbox.union(&item.bbox);
            proof {
                assert(box_upto(items@, i + 1) == bbox) by {
                    if i == 0 {
                        assert(items@[0].bbox.join(items@[0].bbox) == items@[0].bbox);
                    }
                }
            }
            measured = match (measured, item.baseline) {
                (before, None) => before,
                (None, Some(line)) => Some(line),
                (Some(before), Some(line)) => Some(
                    Baseline { start: before.start, end: line.end },
                ),
            };
            let written: usize = item.raw_text.chars().len();
            let count: u64 = if written == 0 {
                1
            } else {
                written as u64
            };
            assert(count == weight(*item));
            proof {
                let k = i as int;
                assert((k + 1) * 0xFFFF_FFFF_FFFF_FFFF <= 0xFFFF_FFFF_FFFF_FFFF
                    * 0xFFFF_FFFF_FFFF_FFFF) by (nonlinear_arith)
                    requires
                        0 <= k < 0xFFFF_FFFF_FFFF_FFFF,
                ;
                assert((k + 1) * 0xFFFF_FFFF_FFFF_FFFF == k * 0xFFFF_FFFF_FFFF_FFFF
                    + 0xFFFF_FFFF_FFFF_FFFF) by (nonlinear_arith);
            }
            let (is_bold, is_italic): (bool, bool) = match &item.style {
                None => (false, false),
                Some(style) => {
                    if let Some(size) = style.font_size {
                        sizes.take(size, count);
                    }
                    (style.bold, style.italic)
                },
            };
            let whole: i32 = WHOLE as i32;
            let ghost c = count as int;
            proof {
                let (x, y) = (bold_upto(items@, i as int), italic_upto(items@, i as int));
                assert((x + c) * 1_000_000 == x * 1_000_000 + 1_000_000 * c) by (nonlinear_arith);
                assert((y + c) * 1_000_000 == y * 1_000_000 + 1_000_000 * c) by (nonlinear_arith);
            }
            bold.take(
                if is_bold {
                    whole
                } else {
                    0
                },
                count,
            );
            italic.take(
                if is_italic {
                    whole
                } else {
                    0
                },
                count,
            );
            i = i + 1;
        }
        proof {
            mean_of(sizes);
            mean_of(bold);
            mean_of(italic);
        }
        let estimated: bool = sizes.weight == 0;
        let font_size: i32 = if estimated {
            narrow(bbox.height())
        } else {
            sizes.quotient as i32
        };
        let cx: i64 = bbox.center_x2();
        let offset: i128 = distance(cx, page_width as i64);
        let anchor: LineAnchor = if offset * 10 <= (page_width as i128) * 4 {
            LineAnchor::Center
        } else if cx < page_width as i64 {
            LineAnchor::Left
        } else {
            LineAnchor::Right
        };
        LineMetrics {
            font_size,
            font_size_estimated: estimated,
            bold_ratio: bold.quotient as u32,
            italic_ratio: italic.quotient as u32,
            bbox,
            baseline: match measured {
                Some(line) => line,
                None => Baseline {
                    start: Point::new(bbox.left, bbox.bottom),
                    end: Point::new(bbox.right, bbox.bottom),
                },
            },
            anchor,
            indent: bbox.left,
        }
    }
}

} // verus!
