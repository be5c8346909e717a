//! How well a line fits into a detected region.

use vstd::math::{abs, max, min};
use vstd::prelude::*;

use crate::config::FusionConfig;
use crate::geometry::{Bbox, Point};
use crate::layout::LayoutDetection;
use crate::types::WHOLE;

verus! {

/// Scale of the components of a score.
pub const PART: i64 = 1_000_000_000;

/// What is measured of one text fact against one region.
///
/// `covered2` is twice the area of the fact inside the region; `baseline` is the
/// share of its baseline inside, in billionths.
#[derive(Debug, Clone, Copy, PartialEq, Eq, Structural)]
pub struct Measure {
    pub covered2: i128,
    pub center_inside: bool,
    pub baseline: i64,
}

/// What is measured of the fragments of a page, in their order, against the
/// outline of one detection.
#[derive(Debug)]
pub struct OutlineMeasures {
    pub source_detection_index: u32,
    pub facts: Vec<Measure>,
}

/// Exact score components retained for diagnostics and tie-breaking.
///
/// Shares are in billionths, the score in billionths of a millionth, and the
/// area is doubled.
#[derive(Debug, Clone, Copy, PartialEq, Eq, Structural)]
pub struct AssignmentScore {
    pub coverage: i64,
    pub center_inside: bool,
    pub baseline_intersection: i64,
    pub model_confidence: i64,
    pub specificity: i64,
    pub assignment_score: i128,
    pub region_area2: i128,
}

/// The part of a way along one axis, scaled, during which it stays in a range.
pub open spec fn axis_range(
    low: int,
    high: int,
    from: int,
    step: int,
    other: int,
    whole: int,
) -> (int, int) {
    if step == 0 {
        if low <= from <= high {
            (0, whole)
        } else {
            (whole, 0)
        }
    } else if step > 0 {
        ((low - from) * other, (high - from) * other)
    } else {
        ((from - high) * other, (from - low) * other)
    }
}

/// The share of a way between two points that lies in a box, in billionths.
pub open spec fn inside_share(b: Bbox, start: Point, end: Point) -> int {
    let dx = end.x - start.x;
    let dy = end.y - start.y;
    let ax = max(abs(dx) as int, 1);
    let ay = max(abs(dy) as int, 1);
    let whole = ax * ay;
    let x = axis_range(b.left as int, b.right as int, start.x as int, dx, ay, whole);
    let y = axis_range(b.top as int, b.bottom as int, start.y as int, dy, ax, whole);
    if dx == 0 && dy == 0 {
        0
    } else {
        let inside = min(whole, min(x.1, y.1)) - max(0, max(x.0, y.0));
        (max(inside, 0) * PART) / whole
    }
}

/// What is measured of a box with a baseline against a rectangle.
pub open spec fn rectangle_measure(region: Bbox, line: Bbox, start: Point, end: Point) -> Measure {
    Measure {
        covered2: (2 * region.shared_area(line)) as i128,
        center_inside: 2 * region.left <= line.mid_x2() <= 2 * region.right && 2 * region.top
            <= line.mid_y2() <= 2 * region.bottom,
        baseline: inside_share(region, start, end) as i64,
    }
}

/// Nothing inside.
pub open spec fn outside() -> Measure {
    Measure { covered2: 0, center_inside: false, baseline: 0 }
}

/// The measures of a detection's outline, from entry `i` on.
pub open spec fn outline_measure(
    measures: Seq<OutlineMeasures>,
    detection: u32,
    fact: int,
    i: int,
) -> Measure
    decreases measures.len() - i,
{
    if i < 0 || i >= measures.len() {
        outside()
    } else if measures[i].source_detection_index == detection {
        if 0 <= fact < measures[i].facts@.len() {
            measures[i].facts@[fact]
        } else {
            outside()
        }
    } else {
        outline_measure(measures, detection, fact, i + 1)
    }
}

/// What is measured of a text fact against a detection: by the measured outline
/// where the model gave one, else by its box.
pub open spec fn measure_of(
    measures: Seq<OutlineMeasures>,
    detection: LayoutDetection,
    fact: int,
    line: Bbox,
    start: Point,
    end: Point,
) -> Measure {
    if detection.outline is Some {
        outline_measure(measures, detection.source_detection_index, fact, 0)
    } else {
        rectangle_measure(detection.bbox, line, start, end)
    }
}

/// Twice the area of a detection's region.
pub open spec fn region_area2(detection: LayoutDetection) -> int {
    match detection.outline {
        Some(outline) => outline.area as int,
        None => 2 * detection.bbox.size(),
    }
}

/// A share of a positive whole, in billionths and between none and all.
pub open spec fn share_of(part: int, whole: int) -> int {
    (max(0, min(part, whole)) * PART) / whole
}

/// Whether a share is at least a number of millionths.
pub open spec fn reaches(part: int, whole: int, millionths: int) -> bool {
    max(0, min(part, whole)) * (WHOLE as int) >= millionths * whole
}

/// The score of a line in a region, where it may belong there.
pub open spec fn score_of(
    detection: LayoutDetection,
    measure: Measure,
    line: Bbox,
    page: Bbox,
    config: FusionConfig,
) -> Option<AssignmentScore> {
    let line2 = 2 * line.size();
    let page2 = 2 * page.size();
    let region2 = region_area2(detection);
    if !line.valid() || !page.valid() || region2 <= 0 {
        None
    } else if !reaches(measure.covered2 as int, line2, config.minimum_line_coverage as int) && !(
    measure.center_inside && reaches(
        measure.covered2 as int,
        line2,
        config.center_minimum_line_coverage as int,
    )) {
        None
    } else {
        let coverage = share_of(measure.covered2 as int, line2);
        let baseline = max(0, min(measure.baseline as int, PART as int));
        let specificity = PART - share_of(region2, page2);
        let confidence = 1000 * detection.confidence;
        Some(
            AssignmentScore {
                coverage: coverage as i64,
                center_inside: measure.center_inside,
                baseline_intersection: baseline as i64,
                model_confidence: detection.confidence,
                specificity: specificity as i64,
                assignment_score: (coverage * config.assignment_coverage_weight + (
                if measure.center_inside {
                    PART as int
                } else {
                    0
                }) * config.assignment_center_weight + baseline * config.assignment_baseline_weight
                    + confidence * config.assignment_confidence_weight + specificity
                    * config.assignment_specificity_weight) as i128,
                region_area2: region2 as i128,
            },
        )
    }
}

/// Whether a candidate wins over an earlier one: by score, coverage, confidence,
/// smaller region, earlier model order, earlier detection.
pub open spec fn wins(
    a: AssignmentScore,
    da: LayoutDetection,
    b: AssignmentScore,
    db: LayoutDetection,
) -> bool {
    if a.assignment_score != b.assignment_score {
        a.assignment_score > b.assignment_score
    } else if a.coverage != b.coverage {
        a.coverage > b.coverage
    } else if da.confidence != db.confidence {
        da.confidence > db.confidence
    } else if a.region_area2 != b.region_area2 {
        a.region_area2 < b.region_area2
    } else if da.model_order != db.model_order {
        da.model_order < db.model_order
    } else {
        da.source_detection_index <= db.source_detection_index
    }
}

/// Whether a candidate wins over an earlier one.
pub fn candidate_wins(
    a: &AssignmentScore,
    da: &LayoutDetection,
    b: &AssignmentScore,
    db: &LayoutDetection,
) -> (yes: bool)
    ensures
        yes == wins(*a, *da, *b, *db),
{
    if a.assignment_score != b.assignment_score {
        a.assignment_score > b.assignment_score
    } else if a.coverage != b.coverage {
        a.coverage > b.coverage
    } else if da.confidence != db.confidence {
        da.confidence > db.confidence
    } else if a.region_area2 != b.region_area2 {
        a.region_area2 < b.region_area2
    } else if da.model_order != db.model_order {
        da.model_order < db.model_order
    } else {
        da.source_detection_index <= db.source_detection_index
    }
}

proof fn lemma_span(x: int, y: int)
    requires
        -0x1_0000_0000 <= x <= 0x1_0000_0000,
        0 <= y <= 0x1_0000_0000,
    ensures
        -0x1_0000_0000_0000_0000 <= x * y <= 0x1_0000_0000_0000_0000,
{
    assert(-0x1_0000_0000_0000_0000 <= x * y <= 0x1_0000_0000_0000_0000) by (nonlinear_arith)
        requires
            -0x1_0000_0000 <= x <= 0x1_0000_0000,
            0 <= y <= 0x1_0000_0000,
    ;
}

/// The part of a way along one axis, scaled, during which it stays in a range.
fn range_along(low: i32, high: i32, from: i32, step: i64, other: i128, whole: i128) -> (range: (
    i128,
    i128,
))
    requires
        0 <= other <= 0x1_0000_0000,
        0 <= whole <= 0x1_0000_0000_0000_0000,
    ensures
        (range.0 as int, range.1 as int) == axis_range(
            low as int,
            high as int,
            from as int,
            step as int,
            other as int,
            whole as int,
        ),
        -0x1_0000_0000_0000_0000 <= range.0 <= 0x1_0000_0000_0000_0000,
        -0x1_0000_0000_0000_0000 <= range.1 <= 0x1_0000_0000_0000_0000,
{
    let (l, h, f): (i128, i128, i128) = (low as i128, high as i128, from as i128);
    proof {
        lemma_span(l - f, other as int);
        lemma_span(h - f, other as int);
        lemma_span(f - h, other as int);
        lemma_span(f - l, other as int);
    }
    if step == 0 {
        if low <= from && from <= high {
            (0, whole)
        } else {
            (whole, 0)
        }
    } else if step > 0 {
        ((l - f) * other, (h - f) * other)
    } else {
        ((f - h) * other, (f - l) * other)
    }
}

/// The share of a way between two points that lies in a box, in billionths.
pub fn share_inside(b: &Bbox, start: &Point, end: &Point) -> (share: i64)
    ensures
        share == inside_share(*b, *start, *end),
        0 <= share <= PART,
{
    let dx: i64 = end.x as i64 - start.x as i64;
    let dy: i64 = end.y as i64 - start.y as i64;
    if dx == 0 && dy == 0 {
        return 0;
    }
    let ax: i128 = if dx < 0 {
        -(dx as i128)
    } else if dx == 0 {
        1
    } else {
        dx as i128
    };
    let ay: i128 = if dy < 0 {
        -(dy as i128)
    } else if dy == 0 {
        1
    } else {
        dy as i128
    };
    proof {
        lemma_span(ax as int, ay as int);
        let (u, v) = (ax as int, ay as int);
        assert(u * v >= 1) by (nonlinear_arith)
            requires
                u >= 1,
                v >= 1,
        ;
    }
    let whole: i128 = ax * ay;
    let x: (i128, i128) = range_along(b.left, b.right, start.x, dx, ay, whole);
    let y: (i128, i128) = range_along(b.top, b.bottom, start.y, dy, ax, whole);
    let mut low: i128 = if x.0 > y.0 {
        x.0
    } else {
        y.0
    };
    if low < 0 {
        low = 0;
    }
    let mut high: i128 = if x.1 < y.1 {
        x.1
    } else {
        y.1
    };
    if high > whole {
        high = whole;
    }
    let inside: i128 = if high > low {
        high - low
    } else {
        0
    };
    proof {
        lemma_ratio(inside as int, whole as int);
    }
    ((inside * (PART as i128)) / whole) as i64
}

proof fn lemma_ratio(part: int, whole: int)
    requires
        0 <= part <= whole <= 0x4_0000_0000_0000_0000,
        0 < whole,
    ensures
        0 <= part * PART <= 0x10_0000_0000_0000_0000_0000_0000,
        0 <= (part * PART) / whole <= PART,
{
    assert(0 <= part * 1_000_000_000 <= 0x10_0000_0000_0000_0000_0000_0000) by (nonlinear_arith)
        requires
            0 <= part <= 0x4_0000_0000_0000_0000,
    ;
    assert(0 <= (part * 1_000_000_000) / whole <= 1_000_000_000) by (nonlinear_arith)
        requires
            0 <= part <= whole,
            0 < whole,
    ;
}

/// What is measured of a box with a baseline against a rectangle.
fn measure_rectangle(region: &Bbox, line: &Bbox, start: &Point, end: &Point) -> (measure: Measure)
    ensures
        measure == rectangle_measure(*region, *line, *start, *end),
{
    let x2: i64 = line.center_x2();
    let y2: i64 = line.center_y2();
    Measure {
        covered2: 2 * region.intersection_area(line),
        center_inside: 2 * (region.left as i64) <= x2 && x2 <= 2 * (region.right as i64) && 2 * (
        region.top as i64) <= y2 && y2 <= 2 * (region.bottom as i64),
        baseline: share_inside(region, start, end),
    }
}

/// The measure of a text fact against a detection's outline.
fn measure_outline(measures: &Vec<OutlineMeasures>, detection: u32, fact: usize) -> (measure:
    Measure)
    ensures
        measure == outline_measure(measures@, detection, fact as int, 0),
{
    let mut i: usize = 0;
    while i < measures.len()
        invariant
            i <= measures@.len(),
            outline_measure(measures@, detection, fact as int, 0) == outline_measure(
                measures@,
                detection,
                fact as int,
                i as int,
            ),
        decreases measures@.len() - i,
    {
        if measures[i].source_detection_index == detection {
            if fact < measures[i].facts.len() {
                return measures[i].facts[fact];
            }
            return Measure { covered2: 0, center_inside: false, baseline: 0 };
        }
        i = i + 1;
    }
    Measure { covered2: 0, center_inside: false, baseline: 0 }
}

/// What is measured of a text fact against a detection.
pub fn measure(
    measures: &Vec<OutlineMeasures>,
    detection: &LayoutDetection,
    fact: usize,
    line: &Bbox,
    start: &Point,
    end: &Point,
) -> (measured: Measure)
    ensures
        measured == measure_of(measures@, *detection, fact as int, *line, *start, *end),
{
    if detection.outline.is_some() {
        measure_outline(measures, detection.source_detection_index, fact)
    } else {
        measure_rectangle(&detection.bbox, line, start, end)
    }
}

/// A number kept between zero and a limit.
fn between(n: i128, limit: i128) -> (kept: i128)
    requires
        0 <= limit,
    ensures
        kept == max(0, min(n as int, limit as int)),
        0 <= kept <= limit,
{
    if n > limit {
        limit
    } else if n < 0 {
        0
    } else {
        n
    }
}

/// A share of a positive whole, in billionths and between none and all.
fn share(part: i128, whole: i128) -> (parts: i64)
    requires
        0 < whole <= 0x4_0000_0000_0000_0000,
    ensures
        parts == share_of(part as int, whole as int),
        0 <= parts <= PART,
{
    let kept: i128 = between(part, whole);
    proof {
        lemma_ratio(kept as int, whole as int);
    }
    ((kept * (PART as i128)) / whole) as i64
}

/// Whether a share is at least a number of millionths.
fn reach(part: i128, whole: i128, millionths: u32) -> (yes: bool)
    requires
        0 < whole <= 0x4_0000_0000_0000_0000,
    ensures
        yes == reaches(part as int, whole as int, millionths as int),
{
    let kept: i128 = between(part, whole);
    proof {
        let (k, m, w) = (kept as int, millionths as int, whole as int);
        assert(0 <= k * 1_000_000 <= 0x10_0000_0000_0000_0000_0000_0000) by (nonlinear_arith)
            requires
                0 <= k <= 0x4_0000_0000_0000_0000,
        ;
        assert(0 <= m * w <= 0x10_0000_0000_0000_0000_0000_0000) by (nonlinear_arith)
            requires
                0 <= m <= 0x1_0000_0000,
                0 <= w <= 0x4_0000_0000_0000_0000,
        ;
    }
    kept * (WHOLE as i128) >= (millionths as i128) * whole
}

proof fn lemma_weighted(part: int, weight: int)
    requires
        0 <= part <= PART,
        0 <= weight <= 0xFFFF_FFFF,
    ensures
        0 <= part * weight <= 0x4000_0000_0000_0000,
{
    assert(0 <= part * weight <= 0x4000_0000_0000_0000) by (nonlinear_arith)
        requires
            0 <= part <= 1_000_000_000,
            0 <= weight <= 0xFFFF_FFFF,
    ;
}

/// The score of a line in a region, where it may belong there.
pub fn score(
    detection: &LayoutDetection,
    measure: &Measure,
    line: &Bbox,
    page: &Bbox,
    config: &FusionConfig,
) -> (scored: Option<AssignmentScore>)
    requires
        0 <= detection.confidence <= WHOLE,
    ensures
        scored == score_of(*detection, *measure, *line, *page, *config),
{
    if !line.is_valid() || !page.is_valid() {
        return None;
    }
    proof {
        crate::geometry::valid_box_has_area(*line);
        crate::geometry::valid_box_has_area(*page);
    }
    let line2: i128 = 2 * line.area();
    let page2: i128 = 2 * page.area();
    let region2: i128 = match &detection.outline {
        Some(outline) => outline.area,
        None => 2 * detection.bbox.area(),
    };
    if region2 <= 0 {
        return None;
    }
    if !reach(measure.covered2, line2, config.minimum_line_coverage) && !(measure.center_inside
        && reach(measure.covered2, line2, config.center_minimum_line_coverage)) {
        return None;
    }
    let coverage: i64 = share(measure.covered2, line2);
    let center: i64 = if measure.center_inside {
        PART
    } else {
        0
    };
    let baseline: i64 = between(measure.baseline as i128, PART as i128) as i64;
    let specificity: i64 = PART - share(region2, page2);
    let confidence: i64 = 1000 * detection.confidence;
    proof {
        lemma_weighted(coverage as int, config.assignment_coverage_weight as int);
        lemma_weighted(center as int, config.assignment_center_weight as int);
        lemma_weighted(baseline as int, config.assignment_baseline_weight as int);
        lemma_weighted(confidence as int, config.assignment_confidence_weight as int);
        lemma_weighted(specificity as int, config.assignment_specificity_weight as int);
    }
    let assignment_score: i128 = (coverage as i128) * (config.assignment_coverage_weight as i128)
        + (center as i128) * (config.assignment_center_weight as i128) + (baseline as i128) * (
    config.assignment_baseline_weight as i128) + (confidence as i128) * (
    config.assignment_confidence_weight as i128) + (specificity as i128) * (
    config.assignment_specificity_weight as i128);
    Some(
        AssignmentScore {
            coverage,
            center_inside: measure.center_inside,
            baseline_intersection: baseline,
            model_confidence: detection.confidence,
            specificity,
            assignment_score,
            region_area2: region2,
        },
    )
}

/// Of two different candidates one wins.
pub proof fn winning_is_decided(
    a: AssignmentScore,
    da: LayoutDetection,
    b: AssignmentScore,
    db: LayoutDetection,
)
    ensures
        wins(a, da, b, db) || wins(b, db, a, da),
        da.source_detection_index != db.source_detection_index ==> !(wins(a, da, b, db) && wins(
            b,
            db,
            a,
            da,
        )),
{
}

} // verus!
