//! Where text has to be recognized.

use vstd::math::{max, min};
use vstd::prelude::*;

use crate::geometry::Bbox;
use crate::layout::{LayoutDetection, LayoutLabel};
use crate::sorting::{deduped, deduped_upto, sort, sorted, Order, Sorter};
use crate::types::{TextItem, WHOLE};

use super::index::{hits, positions, topmost_first, TextIndex};
use super::OcrPolicy;

verus! {

/// Page-local recognition work and coverage diagnostics; the coverage is in millionths.
#[derive(Debug)]
pub struct OcrPlan {
    pub regions: Vec<Bbox>,
    pub native_text_coverage: u32,
}

/// Boxes by top, left, bottom and right edge.
pub struct BoxOrder;

impl Order<Bbox> for BoxOrder {
    open spec fn lt(&self, a: Bbox, b: Bbox) -> bool {
        a.top < b.top || (a.top == b.top && (a.left < b.left || (a.left == b.left && (a.bottom
            < b.bottom || (a.bottom == b.bottom && a.right < b.right)))))
    }

    proof fn is_strict_weak(&self, a: Bbox, b: Bbox, c: Bbox) {
    }
}

impl Sorter<Bbox> for BoxOrder {
    fn precedes(&self, a: &Bbox, b: &Bbox) -> (yes: bool) {
        a.top < b.top || (a.top == b.top && (a.left < b.left || (a.left == b.left && (a.bottom
            < b.bottom || (a.bottom == b.bottom && a.right < b.right)))))
    }
}

/// Whether a fact is page text, and usable or not.
pub open spec fn is_page_text(item: TextItem, unusable: bool, wanted: bool) -> bool {
    !item.watermark && unusable == wanted
}

/// The facts, of the first `n`, that are page text, usable or not.
pub open spec fn page_text_upto(
    items: Seq<TextItem>,
    unusable: Seq<bool>,
    wanted: bool,
    n: int,
) -> Seq<TextItem>
    decreases n,
{
    if n <= 0 {
        Seq::empty()
    } else {
        let before = page_text_upto(items, unusable, wanted, n - 1);
        if is_page_text(items[n - 1], unusable[n - 1], wanted) {
            before.push(items[n - 1])
        } else {
            before
        }
    }
}

/// Total area of the first `n` facts.
pub open spec fn area_upto(items: Seq<TextItem>, n: int) -> int
    decreases n,
{
    if n <= 0 {
        0
    } else {
        area_upto(items, n - 1) + max(items[n - 1].bbox.size(), 0)
    }
}

/// Number of characters of the first `n` facts.
pub open spec fn characters_upto(items: Seq<TextItem>, n: int) -> int
    decreases n,
{
    if n <= 0 {
        0
    } else {
        characters_upto(items, n - 1) + items[n - 1].raw_text@.len()
    }
}

/// Share of a page that an area is, in millionths and at most the whole.
pub open spec fn share(area: int, page: Bbox) -> int {
    (min(area, page.size()) * (WHOLE as int)) / page.size()
}

/// Whether a page has too little usable text to look for gaps in it.
pub open spec fn is_sparse(characters: int, area: int, page: Bbox) -> bool {
    characters < 20 || (characters < 2000 && 100 * area < 15 * page.size())
}

/// Whether a label draws a picture.
pub open spec fn is_picture(label: LayoutLabel) -> bool {
    label is Image || label is Chart || label is HeaderImage || label is FooterImage
}

/// Whether usable text covers enough of itself inside a box.
pub open spec fn is_served(index: Seq<TextItem>, b: Bbox, coverage: int) -> bool {
    exists|k: int|
        0 <= k < hits(index, b).len() && index[#[trigger] hits(index, b)[k]].bbox.shared_area(b)
            * (WHOLE as int) >= coverage * index[hits(index, b)[k]].bbox.size()
}

/// Whether the text of a detection has to be recognized.
///
/// Pictures need recognition whatever their native captions say.
pub open spec fn needs_text(
    index: Seq<TextItem>,
    detection: LayoutDetection,
    page: Bbox,
    coverage: int,
) -> bool {
    &&& !(detection.label is InlineFormula || detection.label is Reference)
    &&& detection.bbox.valid()
    &&& page.holds(detection.bbox)
    &&& is_picture(detection.label) || !is_served(index, detection.bbox, coverage)
}

/// The boxes of the first `n` detections whose text has to be recognized.
pub open spec fn gaps_upto(
    index: Seq<TextItem>,
    detections: Seq<LayoutDetection>,
    page: Bbox,
    coverage: int,
    n: int,
) -> Seq<Bbox>
    decreases n,
{
    if n <= 0 {
        Seq::empty()
    } else {
        let before = gaps_upto(index, detections, page, coverage, n - 1);
        if needs_text(index, detections[n - 1], page, coverage) {
            before.push(detections[n - 1].bbox)
        } else {
            before
        }
    }
}

/// The boxes of facts.
pub open spec fn boxes_of(items: Seq<TextItem>) -> Seq<Bbox> {
    Seq::new(items.len(), |i: int| items[i].bbox)
}

/// Where text has to be recognized.
pub open spec fn regions_of(
    items: Seq<TextItem>,
    unusable: Seq<bool>,
    detections: Seq<LayoutDetection>,
    page: Bbox,
    policy: OcrPolicy,
    coverage: int,
) -> Seq<Bbox> {
    let n = items.len() as int;
    let healthy = page_text_upto(items, unusable, false, n);
    let area = area_upto(healthy, healthy.len() as int);
    match policy {
        OcrPolicy::Disabled => Seq::empty(),
        OcrPolicy::Always => seq![page],
        OcrPolicy::MissingRegions => if is_sparse(
            characters_upto(healthy, healthy.len() as int),
            area,
            page,
        ) {
            seq![page]
        } else {
            let broken = boxes_of(page_text_upto(items, unusable, true, n));
            let gaps = gaps_upto(
                topmost_first(healthy),
                detections,
                page,
                coverage,
                detections.len() as int,
            );
            deduped(sorted(broken + gaps, BoxOrder))
        },
    }
}

/// Facts that are page text, usable or not.
fn page_text(items: &Vec<TextItem>, unusable: &Vec<bool>, wanted: bool) -> (found: Vec<TextItem>)
    requires
        unusable@.len() == items@.len(),
    ensures
        found@ == page_text_upto(items@, unusable@, wanted, items@.len() as int),
{
    let mut found: Vec<TextItem> = Vec::new();
    let mut i: usize = 0;
    while i < items.len()
        invariant
            unusable@.len() == items@.len(),
            i <= items@.len(),
            found@ == page_text_upto(items@, unusable@, wanted, i as int),
        decreases items@.len() - i,
    {
        if !items[i].watermark && unusable[i] == wanted {
            found.push(items[i].copy());
        }
        i = i + 1;
    }
    found
}

/// Total area of facts, but no more than a limit.
fn capped_area(items: &Vec<TextItem>, limit: i128) -> (area: i128)
    requires
        0 <= limit <= 0x2_0000_0000_0000_0000,
    ensures
        area == min(area_upto(items@, items@.len() as int), limit as int),
        0 <= area <= limit,
{
    let mut area: i128 = 0;
    let mut i: usize = 0;
    while i < items.len()
        invariant
            0 <= limit <= 0x2_0000_0000_0000_0000,
            i <= items@.len(),
            0 <= area <= limit,
            area == min(area_upto(items@, i as int), limit as int),
            area_upto(items@, i as int) >= 0,
        decreases items@.len() - i,
    {
        let size: i128 = items[i].bbox.area();
        if size > 0 {
            area = area + size;
            if area > limit {
                area = limit;
            }
        }
        i = i + 1;
    }
    area
}

/// Number of characters of facts, but no more than two thousand.
fn capped_characters(items: &Vec<TextItem>) -> (count: usize)
    ensures
        count == min(characters_upto(items@, items@.len() as int), 2000),
{
    let mut count: usize = 0;
    let mut i: usize = 0;
    while i < items.len()
        invariant
            i <= items@.len(),
            count <= 2000,
            count == min(characters_upto(items@, i as int), 2000),
            characters_upto(items@, i as int) >= 0,
        decreases items@.len() - i,
    {
        let text: Vec<char> = items[i].raw_text.chars();
        let more: usize = text.len();
        if more >= 2000 {
            count = 2000;
        } else {
            count = count + more;
            if count > 2000 {
                count = 2000;
            }
        }
        i = i + 1;
    }
    count
}

/// Whether usable text covers enough of itself inside a box.
fn served(index: &TextIndex, b: Bbox, coverage: u32) -> (yes: bool)
    requires
        index.wf(),
    ensures
        yes == is_served(index@, b, coverage as int),
{
    let found: Vec<usize> = index.overlapping(b);
    let mut i: usize = 0;
    while i < found.len()
        invariant
            index.wf(),
            positions(found@) == hits(index@, b),
            forall|k: int| 0 <= k < found@.len() ==> #[trigger] found@[k] < index@.len(),
            i <= found@.len(),
            forall|k: int|
                0 <= k < i ==> !(index@[#[trigger] hits(index@, b)[k]].bbox.shared_area(b) * (
                WHOLE as int) >= coverage * index@[hits(index@, b)[k]].bbox.size()),
        decreases found@.len() - i,
    {
        assert(positions(found@)[i as int] == found@[i as int]);
        assert(hits(index@, b)[i as int] == found@[i as int]);
        let item: &TextItem = index.item(found[i]);
        let shared: i128 = item.bbox.intersection_area(&b);
        let area: i128 = item.bbox.area();
        proof {
            let (c, a) = (coverage as int, area as int);
            assert(-0x2_0000_0000_0000_0000_0000_0000 <= c * a
                <= 0x2_0000_0000_0000_0000_0000_0000) by (nonlinear_arith)
                requires
                    0 <= c <= 0x1_0000_0000,
                    -0x2_0000_0000_0000_0000 <= a <= 0x2_0000_0000_0000_0000,
            ;
        }
        if shared * (WHOLE as i128) >= (coverage as i128) * area {
            return true;
        }
        i = i + 1;
    }
    false
}

/// Whether the text of a detection has to be recognized.
fn wants_text(
    index: &TextIndex,
    detection: &LayoutDetection,
    page: &Bbox,
    coverage: u32,
) -> (yes: bool)
    requires
        index.wf(),
    ensures
        yes == needs_text(index@, *detection, *page, coverage as int),
{
    let b: Bbox = detection.bbox;
    match detection.label {
        LayoutLabel::InlineFormula | LayoutLabel::Reference => {
            return false;
        },
        _ => {},
    }
    if !b.is_valid() || !page.contains(&b) {
        return false;
    }
    let picture: bool = match detection.label {
        LayoutLabel::Image
        | LayoutLabel::Chart
        | LayoutLabel::HeaderImage
        | LayoutLabel::FooterImage => true,
        _ => false,
    };
    picture || !served(index, b, coverage)
}

/// The values without those equal to the one before them.
fn dedup(boxes: &Vec<Bbox>) -> (kept: Vec<Bbox>)
    ensures
        kept@ == deduped(boxes@),
{
    let mut kept: Vec<Bbox> = Vec::new();
    let mut i: usize = 0;
    while i < boxes.len()
        invariant
            i <= boxes@.len(),
            kept@ == deduped_upto(boxes@, i as int),
        decreases boxes@.len() - i,
    {
        let last: usize = kept.len();
        if last == 0 || kept[last - 1] != boxes[i] {
            kept.push(boxes[i]);
        }
        i = i + 1;
    }
    kept
}

impl OcrPlan {
    /// Classifies native text once, then compares only geometry against detections.
    pub fn new(
        items: &Vec<TextItem>,
        unusable: &Vec<bool>,
        detections: &Vec<LayoutDetection>,
        page: Bbox,
        policy: OcrPolicy,
        center_minimum_line_coverage: u32,
    ) -> (plan: OcrPlan)
        requires
            unusable@.len() == items@.len(),
            page.valid(),
        ensures
            plan.regions@ == regions_of(
                items@,
                unusable@,
                detections@,
                page,
                policy,
                center_minimum_line_coverage as int,
            ),
            ({
                let healthy = page_text_upto(items@, unusable@, false, items@.len() as int);
                plan.native_text_coverage == share(
                    area_upto(healthy, healthy.len() as int),
                    page,
                )
            }),
    {
        let healthy: Vec<TextItem> = page_text(items, unusable, false);
        proof {
            crate::geometry::valid_box_has_area(page);
        }
        let whole: i128 = page.area();
        let area: i128 = capped_area(&healthy, whole);
        proof {
            let (a, w) = (area as int, whole as int);
            assert(0 <= a * 1_000_000 <= 0x20_0000_0000_0000_0000_0000_0000) by (nonlinear_arith)
                requires
                    0 <= a <= 0x2_0000_0000_0000_0000,
            ;
            assert(0 <= (a * 1_000_000) / w <= 1_000_000) by (nonlinear_arith)
                requires
                    0 <= a <= w,
                    0 < w,
            ;
        }
        let native_text_coverage: u32 = ((area * (WHOLE as i128)) / whole) as u32;
        let mut regions: Vec<Bbox> = Vec::new();
        match policy {
            OcrPolicy::Disabled => {
                return OcrPlan { regions, native_text_coverage };
            },
            OcrPolicy::Always => {
                regions.push(page);
                return OcrPlan { regions, native_text_coverage };
            },
            OcrPolicy::MissingRegions => {},
        }
        let characters: usize = capped_characters(&healthy);
        if characters < 20 || (characters < 2000 && 100 * area < 15 * whole) {
            regions.push(page);
            assert(regions@ =~= seq![page]);
            return OcrPlan { regions, native_text_coverage };
        }
        let broken: Vec<TextItem> = page_text(items, unusable, true);
        let mut i: usize = 0;
        while i < broken.len()
            invariant
                i <= broken@.len(),
                regions@ == boxes_of(broken@).take(i as int),
            decreases broken@.len() - i,
        {
            regions.push(broken[i].bbox);
            i = i + 1;
            assert(regions@ =~= boxes_of(broken@).take(i as int));
        }
        assert(regions@ =~= boxes_of(broken@));
        let index: TextIndex = TextIndex::new(healthy);
        let ghost first = regions@;
        let mut k: usize = 0;
        assert(first + Seq::<Bbox>::empty() =~= first);
        while k < detections.len()
            invariant
                index.wf(),
                k <= detections@.len(),
                regions@ == first + gaps_upto(
                    index@,
                    detections@,
                    page,
                    center_minimum_line_coverage as int,
                    k as int,
                ),
            decreases detections@.len() - k,
        {
            if wants_text(&index, &detections[k], &page, center_minimum_line_coverage) {
                regions.push(detections[k].bbox);
            }
            k = k + 1;
            assert(regions@ =~= first + gaps_upto(
                index@,
                detections@,
                page,
                center_minimum_line_coverage as int,
                k as int,
            ));
        }
        let ordered: Vec<Bbox> = sort(regions, &BoxOrder);
        OcrPlan { regions: dedup(&ordered), native_text_coverage }
    }
}

/// Nothing is recognized where recognition is disabled.
pub proof fn disabled_plans_are_empty(
    items: Seq<TextItem>,
    unusable: Seq<bool>,
    detections: Seq<LayoutDetection>,
    page: Bbox,
    coverage: int,
)
    ensures
        regions_of(items, unusable, detections, page, OcrPolicy::Disabled, coverage).len() == 0,
{
}

} // verus!
