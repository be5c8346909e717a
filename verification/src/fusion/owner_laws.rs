//! What decides which region owns a fragment.

use vstd::prelude::*;

use super::assign::Assignment;
use super::score::{
    inside_share, outline_measure, outside, rectangle_measure, score_of, Measure, OutlineMeasures,
};
use crate::config::FusionConfig;
use crate::geometry::{Bbox, Point};
use crate::layout::LayoutDetection;

verus! {

/// The best of the first `n` regions is one of them, and none of them is better.
proof fn lemma_best_of_all(a: Assignment, i: int, n: int, other: int)
    requires
        0 <= other < n <= a.seeds.len(),
        a.score(i, other) is Some,
    ensures
        a.best_upto(i, n) matches Some((seed, best)) && 0 <= seed < n && a.score(i, seed) == Some(
            best,
        ) && ({
            let rival = a.score(i, other)->0;
            let (d, e) = (a.seeds[seed], a.seeds[other]);
            ||| best.assignment_score > rival.assignment_score
            ||| best.assignment_score == rival.assignment_score && best.coverage > rival.coverage
            ||| best.assignment_score == rival.assignment_score && best.coverage == rival.coverage
                && d.confidence > e.confidence
            ||| best.assignment_score == rival.assignment_score && best.coverage == rival.coverage
                && d.confidence == e.confidence && best.region_area2 < rival.region_area2
            ||| best.assignment_score == rival.assignment_score && best.coverage == rival.coverage
                && d.confidence == e.confidence && best.region_area2 == rival.region_area2
                && d.model_order < e.model_order
            ||| best.assignment_score == rival.assignment_score && best.coverage == rival.coverage
                && d.confidence == e.confidence && best.region_area2 == rival.region_area2
                && d.model_order == e.model_order && d.source_detection_index
                <= e.source_detection_index
        }),
    decreases n,
{
    lemma_best_scored(a, i, n - 1);
    if other < n - 1 {
        lemma_best_of_all(a, i, n - 1, other);
    }
}

/// The best of the first `n` regions is one of them, with its own score.
proof fn lemma_best_scored(a: Assignment, i: int, n: int)
    ensures
        a.best_upto(i, n) matches Some((seed, best)) ==> 0 <= seed < n && a.score(i, seed) == Some(
            best,
        ),
    decreases n,
{
    if n > 0 {
        lemma_best_scored(a, i, n - 1);
    }
}

/// The region that owns a fragment has the highest score of all to which the fragment may
/// belong. Of regions with that score it is the one that covers most of the fragment, then the
/// one that the model is surest of, then the smallest, then the first in the order of the model,
/// then the first detected.
pub proof fn owners_score_highest(a: Assignment, i: int, other: int)
    requires
        0 <= other < a.seeds.len(),
        a.score(i, other) is Some,
    ensures
        a.owner(i) matches Some(seed) && 0 <= seed < a.seeds.len() && a.score(i, seed) is Some
            && ({
            let mine = a.score(i, seed)->0;
            let rival = a.score(i, other)->0;
            let (d, e) = (a.seeds[seed], a.seeds[other]);
            &&& mine.assignment_score >= rival.assignment_score
            &&& mine.assignment_score == rival.assignment_score ==> mine.coverage >= rival.coverage
            &&& mine.assignment_score == rival.assignment_score && mine.coverage == rival.coverage
                ==> d.confidence >= e.confidence
            &&& mine.assignment_score == rival.assignment_score && mine.coverage == rival.coverage
                && d.confidence == e.confidence ==> mine.region_area2 <= rival.region_area2
            &&& mine.assignment_score == rival.assignment_score && mine.coverage == rival.coverage
                && d.confidence == e.confidence && mine.region_area2 == rival.region_area2
                ==> d.model_order <= e.model_order
            &&& mine.assignment_score == rival.assignment_score && mine.coverage == rival.coverage
                && d.confidence == e.confidence && mine.region_area2 == rival.region_area2
                && d.model_order == e.model_order ==> d.source_detection_index
                <= e.source_detection_index
        }),
        a.evidence(i).selected == a.score(i, a.owner(i)->0)->0,
{
    lemma_best_of_all(a, i, a.seeds.len() as int, other);
}

/// No region owns a fragment where it may belong to none.
pub proof fn unclaimed_fragments_fit_nowhere(a: Assignment, i: int)
    ensures
        a.owner(i) is None <==> forall|seed: int|
            0 <= seed < a.seeds.len() ==> #[trigger] a.score(i, seed) is None,
{
    let n = a.seeds.len() as int;
    lemma_best_scored(a, i, n);
    if a.owner(i) is None {
        assert forall|seed: int| 0 <= seed < n implies #[trigger] a.score(i, seed) is None by {
            if a.score(i, seed) is Some {
                lemma_best_of_all(a, i, n, seed);
            }
        }
    }
}

/// A line may belong to a region where enough of it lies inside, and less is enough where its
/// centre lies inside too. Its score weighs, by the settings, how much of it lies inside, whether
/// its centre does, how much of its baseline does, how sure the model is, and how little of the
/// page the region takes.
pub proof fn scores_weigh_the_evidence(
    d: LayoutDetection,
    m: Measure,
    line: Bbox,
    page: Bbox,
    config: FusionConfig,
)
    requires
        line.left < line.right && line.top < line.bottom,
        page.left < page.right && page.top < page.bottom,
        0 <= m.covered2 <= 2 * ((line.right - line.left) * (line.bottom - line.top)),
        0 <= m.baseline <= 1_000_000_000,
        0 <= d.confidence <= 1_000_000,
    ensures
        ({
            let whole = 2 * ((line.right - line.left) * (line.bottom - line.top));
            let extent = match d.outline {
                Some(outline) => outline.area as int,
                None => 2 * ((d.bbox.right - d.bbox.left) * (d.bbox.bottom - d.bbox.top)),
            };
            let held = m.covered2 * 1_000_000 >= config.minimum_line_coverage * whole || (
            m.center_inside && m.covered2 * 1_000_000 >= config.center_minimum_line_coverage
                * whole);
            score_of(d, m, line, page, config) is Some <==> extent > 0 && held
        }),
        score_of(d, m, line, page, config) matches Some(s) ==> {
            let whole = 2 * ((line.right - line.left) * (line.bottom - line.top));
            let sheet = 2 * ((page.right - page.left) * (page.bottom - page.top));
            let extent = match d.outline {
                Some(outline) => outline.area as int,
                None => 2 * ((d.bbox.right - d.bbox.left) * (d.bbox.bottom - d.bbox.top)),
            };
            &&& s.coverage * whole <= m.covered2 * 1_000_000_000 < (s.coverage + 1) * whole
            &&& s.center_inside == m.center_inside
            &&& s.baseline_intersection == m.baseline
            &&& s.model_confidence == d.confidence
            &&& s.region_area2 == extent
            &&& extent >= sheet ==> s.specificity == 0
            &&& extent <= sheet ==> (1_000_000_000 - s.specificity) * sheet <= extent
                * 1_000_000_000 < (1_000_000_000 - s.specificity + 1) * sheet
            &&& s.assignment_score == s.coverage * config.assignment_coverage_weight + (
            if s.center_inside {
                1_000_000_000int
            } else {
                0
            }) * config.assignment_center_weight + s.baseline_intersection
                * config.assignment_baseline_weight + 1_000 * s.model_confidence
                * config.assignment_confidence_weight + s.specificity
                * config.assignment_specificity_weight
        },
{
    let whole = 2 * ((line.right - line.left) * (line.bottom - line.top));
    let sheet = 2 * ((page.right - page.left) * (page.bottom - page.top));
    crate::geometry::valid_box_has_area(line);
    crate::geometry::valid_box_has_area(page);
    assert(whole == 2 * line.size() && sheet == 2 * page.size());
    if let Some(s) = score_of(d, m, line, page, config) {
        let extent = super::score::region_area2(d);
        lemma_quotient(m.covered2 as int, whole);
        let kept = if extent < sheet {
            extent
        } else {
            sheet
        };
        lemma_quotient(kept, sheet);
        lemma_extents(line);
        lemma_extents(page);
        if let Some(outline) = d.outline {
        } else {
            lemma_extents(d.bbox);
        }
        if extent >= sheet {
            assert((sheet * 1_000_000_000) / sheet == 1_000_000_000) by (nonlinear_arith)
                requires
                    sheet > 0,
            ;
        }
        let coverage = (m.covered2 * 1_000_000_000) / whole;
        let specificity = 1_000_000_000 - (kept * 1_000_000_000) / sheet;
        lemma_part(coverage, config.assignment_coverage_weight as int);
        lemma_part(1_000_000_000, config.assignment_center_weight as int);
        lemma_part(m.baseline as int, config.assignment_baseline_weight as int);
        lemma_part(1_000 * d.confidence, config.assignment_confidence_weight as int);
        lemma_part(specificity, config.assignment_specificity_weight as int);
    }
}

proof fn lemma_extents(b: Bbox)
    ensures
        -0x2_0000_0000_0000_0000 <= (b.right - b.left) * (b.bottom - b.top)
            <= 0x2_0000_0000_0000_0000,
{
    let (w, h) = (b.right - b.left, b.bottom - b.top);
    assert(-0x2_0000_0000_0000_0000 <= w * h <= 0x2_0000_0000_0000_0000) by (nonlinear_arith)
        requires
            -0x1_0000_0000 <= w <= 0x1_0000_0000,
            -0x1_0000_0000 <= h <= 0x1_0000_0000,
    ;
}

proof fn lemma_quotient(part: int, whole: int)
    requires
        0 <= part <= whole,
        0 < whole,
    ensures
        ({
            let q = (part * 1_000_000_000) / whole;
            0 <= q <= 1_000_000_000 && q * whole <= part * 1_000_000_000 < (q + 1) * whole
        }),
{
    let q = (part * 1_000_000_000) / whole;
    assert(0 <= q <= 1_000_000_000 && q * whole <= part * 1_000_000_000 < (q + 1) * whole)
        by (nonlinear_arith)
        requires
            0 <= part <= whole,
            0 < whole,
            q == (part * 1_000_000_000) / whole,
    ;
}

proof fn lemma_part(part: int, weight: int)
    requires
        0 <= part <= 1_000_000_000,
        0 <= weight <= 0xFFFF_FFFF,
    ensures
        0 <= part * weight <= 0x4000_0000_0000_0000,
{
    assert(0 <= part * weight <= 0x4000_0000_0000_0000) by (nonlinear_arith)
        requires
            0 <= part <= 1_000_000_000,
            0 <= weight <= 0xFFFF_FFFF,
    ;
}

/// Against a rectangle, twice the area that both share is measured, and whether the centre of
/// the line lies between its edges.
pub proof fn rectangles_measure_what_they_share(region: Bbox, line: Bbox, start: Point, end: Point)
    requires
        region.left < region.right && region.top < region.bottom,
        line.left < line.right && line.top < line.bottom,
    ensures
        ({
            let m = rectangle_measure(region, line, start, end);
            let left = if region.left > line.left {
                region.left
            } else {
                line.left
            };
            let right = if region.right < line.right {
                region.right
            } else {
                line.right
            };
            let top = if region.top > line.top {
                region.top
            } else {
                line.top
            };
            let bottom = if region.bottom < line.bottom {
                region.bottom
            } else {
                line.bottom
            };
            &&& left < right && top < bottom ==> m.covered2 == 2 * ((right - left) * (bottom - top))
            &&& left >= right || top >= bottom ==> m.covered2 == 0
            &&& m.center_inside <==> 2 * region.left <= line.left + line.right <= 2 * region.right
                && 2 * region.top <= line.top + line.bottom <= 2 * region.bottom
        }),
{
    let w = region.overlap_x(line);
    let h = region.overlap_y(line);
    if w > 0 && h > 0 {
        assert(0 <= w * h <= 0x2_0000_0000_0000_0000) by (nonlinear_arith)
            requires
                0 < w <= 0x1_0000_0000,
                0 < h <= 0x1_0000_0000,
        ;
    } else {
        assert(region.shared_area(line) == 0) by (nonlinear_arith)
            requires
                region.shared_area(line) == vstd::math::max(w, 0) * vstd::math::max(h, 0),
                w <= 0 || h <= 0,
        ;
    }
}

/// Of a level baseline, the share counts that lies between the left and the right edge, in
/// billionths rounded down, where its height is between the upper and the lower one; else none.
pub proof fn level_baselines_count_by_length(b: Bbox, start: Point, end: Point)
    requires
        start.y == end.y,
        start.x < end.x,
        b.left < b.right,
    ensures
        ({
            let from = if b.left > start.x {
                b.left
            } else {
                start.x
            };
            let to = if b.right < end.x {
                b.right
            } else {
                end.x
            };
            let long = end.x - start.x;
            let share = inside_share(b, start, end);
            &&& b.top <= start.y <= b.bottom && from < to ==> share * long <= (to - from)
                * 1_000_000_000 && (to - from) * 1_000_000_000 < share * long + long
            &&& start.y < b.top || start.y > b.bottom || from >= to ==> share == 0
        }),
{
    let long = end.x - start.x;
    let x0 = b.left - start.x;
    let x1 = b.right - start.x;
    let low = if x0 > 0 {
        x0
    } else {
        0
    };
    let high = if x1 < long {
        x1
    } else {
        long
    };
    let inside = high - low;
    assert(long * 1 == long);
    assert(x0 * 1 == x0 && x1 * 1 == x1);
    if b.top <= start.y <= b.bottom && inside > 0 {
        let top = inside * 1_000_000_000;
        vstd::arithmetic::div_mod::lemma_fundamental_div_mod(top, long);
        vstd::arithmetic::div_mod::lemma_mod_bound(top, long);
        assert(long * (top / long) == (top / long) * long) by (nonlinear_arith);
        assert(inside_share(b, start, end) == top / long);
    } else {
        assert(0int / long == 0) by (nonlinear_arith)
            requires
                long > 0,
        ;
    }
}

/// A fragment is measured against an outline as the first entry for the detection says, and as
/// outside where there is none.
pub proof fn outlines_are_measured_by_their_first_entry(
    measures: Seq<OutlineMeasures>,
    detection: u32,
    fact: int,
    from: int,
)
    requires
        0 <= from <= measures.len(),
    ensures
        forall|i: int|
            from <= i < measures.len() && (#[trigger] measures[i]).source_detection_index
                == detection && 0 <= fact < measures[i].facts@.len() && (forall|k: int|
                from <= k < i ==> (#[trigger] measures[k]).source_detection_index != detection)
                ==> outline_measure(measures, detection, fact, from) == measures[i].facts@[fact],
        (forall|i: int|
            from <= i < measures.len() ==> (#[trigger] measures[i]).source_detection_index
                != detection) ==> outline_measure(measures, detection, fact, from) == outside(),
        outside().covered2 == 0 && !outside().center_inside && outside().baseline == 0,
    decreases measures.len() - from,
{
    if from < measures.len() {
        outlines_are_measured_by_their_first_entry(measures, detection, fact, from + 1);
    }
}

} // verus!
