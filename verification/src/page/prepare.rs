//! Native facts and detections before recognition.

use vstd::math::max;
use vstd::prelude::*;

use crate::chars::{push_text, str_same};
use crate::context::builder::DocumentContext;
use crate::error::PageAnalysisError;
use crate::extract::metadata::ExtractedPage;
use crate::geometry::{valid_box_has_area, Bbox};
use crate::layout::{LayoutDetection, LayoutLabel};
use crate::numerals::{read_number, spelled_number};
use crate::ocr::plan::BoxOrder;
use crate::sorting::{deduped, deduped_upto, sort, sorted};
use crate::types::{TextItem, WHOLE};

verus! {

/// Reusable facts produced before the optional recognition.
///
/// The native text covers `native_area` out of `page_area`.
#[derive(Debug)]
pub struct PageAnalysisDraft {
    pub extracted: ExtractedPage,
    pub detections: Vec<LayoutDetection>,
    pub missing_regions: Vec<Bbox>,
    pub native_area: i128,
    pub page_area: i128,
}

/// Whether a box has an area and lies on the page.
pub open spec fn on_page(b: Bbox, page: Bbox) -> bool {
    b.valid() && page.holds(b)
}

/// Whether a box has an area and lies on the page.
pub fn valid_page_bbox(b: &Bbox, page: &Bbox) -> (yes: bool)
    ensures
        yes == on_page(*b, *page),
{
    b.is_valid() && page.contains(b)
}

/// The value of a key, from entry `i` on.
pub open spec fn value_from(list: Seq<(String, String)>, key: Seq<char>, i: int) -> Option<
    Seq<char>,
>
    decreases list.len() - i,
{
    if i >= list.len() {
        None
    } else if list[i].0@ == key {
        Some(list[i].1@)
    } else {
        value_from(list, key, i + 1)
    }
}

/// Whether the context was made for this page alone.
pub open spec fn stands_alone(context: DocumentContext, page_number: u32) -> bool {
    match value_from(context.metadata@, "standalone_page_number"@, 0) {
        None => false,
        Some(value) => spelled_number(value) == Some(page_number as nat),
    }
}

/// Whether page number, dimensions, rotation and context agree.
pub open spec fn agrees(page: ExtractedPage, context: DocumentContext) -> bool {
    &&& page.page_number != 0
    &&& page.page_number <= context.page_count || stands_alone(context, page.page_number)
    &&& page.width > 0
    &&& page.height > 0
    &&& page.rotation == 0 || page.rotation == 90 || page.rotation == 180 || page.rotation == 270
}

/// The box of a page.
pub open spec fn page_box(page: ExtractedPage) -> Bbox {
    Bbox { left: 0, top: 0, right: page.width, bottom: page.height }
}

/// The area of the first `n` facts that are no watermarks.
pub open spec fn native_upto(items: Seq<TextItem>, n: int) -> int
    decreases n,
{
    if n <= 0 {
        0
    } else {
        native_upto(items, n - 1) + if items[n - 1].watermark {
            0
        } else {
            max(items[n - 1].bbox.size(), 0)
        }
    }
}

/// Whether a fact is page text of which a sufficient share lies in a box.
pub open spec fn serves(item: TextItem, b: Bbox, coverage: int) -> bool {
    !item.watermark && (if item.bbox.size() > 0 {
        WHOLE * item.bbox.shared_area(b) >= coverage * item.bbox.size()
    } else {
        coverage <= 0
    })
}

/// Whether a detection should hold text and has none.
pub open spec fn is_missing(
    detection: LayoutDetection,
    items: Seq<TextItem>,
    page: Bbox,
    coverage: int,
) -> bool {
    &&& !(detection.label is InlineFormula)
    &&& !(detection.label is Reference)
    &&& on_page(detection.bbox, page)
    &&& forall|i: int|
        0 <= i < items.len() ==> !serves(#[trigger] items[i], detection.bbox, coverage)
}

/// Those of the first `n` detections that should hold text and have none.
pub open spec fn missing_upto(
    detections: Seq<LayoutDetection>,
    items: Seq<TextItem>,
    page: Bbox,
    coverage: int,
    n: int,
) -> Seq<Bbox>
    decreases n,
{
    if n <= 0 {
        Seq::empty()
    } else {
        let before = missing_upto(detections, items, page, coverage, n - 1);
        if is_missing(detections[n - 1], items, page, coverage) {
            before.push(detections[n - 1].bbox)
        } else {
            before
        }
    }
}

/// The regions without text.
pub open spec fn missing_of(
    page: ExtractedPage,
    detections: Seq<LayoutDetection>,
    coverage: int,
) -> Seq<Bbox> {
    let items = page.text_items@;
    let found = if forall|i: int| 0 <= i < items.len() ==> (#[trigger] items[i]).watermark {
        seq![
            match page.content_bounds {
                Some(bounds) => bounds,
                None => page_box(page),
            },
        ]
    } else {
        missing_upto(detections, items, page_box(page), coverage, detections.len() as int)
    };
    deduped(sorted(found, BoxOrder))
}

/// Whether the context was made for this page alone.
fn is_alone(context: &DocumentContext, page_number: u32) -> (yes: bool)
    ensures
        yes == stands_alone(*context, page_number),
{
    let list: &Vec<(String, String)> = &context.metadata;
    let mut i: usize = 0;
    while i < list.len()
        invariant
            list@ == context.metadata@,
            i <= list@.len(),
            value_from(list@, "standalone_page_number"@, 0) == value_from(
                list@,
                "standalone_page_number"@,
                i as int,
            ),
        decreases list@.len() - i,
    {
        if str_same(list[i].0.as_str(), "standalone_page_number") {
            return match read_number(list[i].1.as_str()) {
                None => false,
                Some(number) => number == page_number,
            };
        }
        i = i + 1;
    }
    false
}

/// Whether a fact is page text of which a sufficient share lies in a box.
fn does_serve(item: &TextItem, b: &Bbox, coverage: u32) -> (yes: bool)
    ensures
        yes == serves(*item, *b, coverage as int),
{
    if item.watermark {
        return false;
    }
    let area: i128 = item.bbox.area();
    let common: i128 = item.bbox.intersection_area(b);
    if area > 0 {
        assert(0 <= coverage * area <= 0xFFFF_FFFF * 0x2_0000_0000_0000_0000) by (nonlinear_arith)
            requires
                0 <= coverage <= 0xFFFF_FFFF,
                0 < area <= 0x2_0000_0000_0000_0000,
        ;
        1_000_000 * common >= coverage as i128 * area
    } else {
        coverage == 0
    }
}

/// The regions of detections without text.
fn list_missing(
    detections: &Vec<LayoutDetection>,
    items: &Vec<TextItem>,
    page: &Bbox,
    coverage: u32,
) -> (found: Vec<Bbox>)
    ensures
        found@ == missing_upto(
            detections@,
            items@,
            *page,
            coverage as int,
            detections@.len() as int,
        ),
{
    let mut found: Vec<Bbox> = Vec::new();
    let mut d: usize = 0;
    while d < detections.len()
        invariant
            d <= detections@.len(),
            found@ == missing_upto(detections@, items@, *page, coverage as int, d as int),
        decreases detections@.len() - d,
    {
        let detection: &LayoutDetection = &detections[d];
        let plain: bool = !matches!(
            detection.label,
            LayoutLabel::InlineFormula | LayoutLabel::Reference
        );
        if plain && valid_page_bbox(&detection.bbox, page) {
            let mut served: bool = false;
            let mut i: usize = 0;
            while i < items.len() && !served
                invariant
                    d < detections@.len(),
                    *detection == detections@[d as int],
                    i <= items@.len(),
                    !served ==> forall|k: int|
                        0 <= k < i ==> !serves(
                            #[trigger] items@[k],
                            detection.bbox,
                            coverage as int,
                        ),
                    served ==> exists|k: int|
                        0 <= k < items@.len() && serves(
                            #[trigger] items@[k],
                            detection.bbox,
                            coverage as int,
                        ),
                decreases items@.len() - i,
            {
                if does_serve(&items[i], &detection.bbox, coverage) {
                    assert(serves(items@[i as int], detection.bbox, coverage as int));
                    served = true;
                }
                i = i + 1;
            }
            if !served {
                found.push(detection.bbox);
            }
        }
        d = d + 1;
    }
    found
}

/// Boxes in order and without repetition.
fn sort_boxes(boxes: Vec<Bbox>) -> (kept: Vec<Bbox>)
    ensures
        kept@ == deduped(sorted(boxes@, BoxOrder)),
{
    let ordered: Vec<Bbox> = sort(boxes, &BoxOrder);
    let mut kept: Vec<Bbox> = Vec::new();
    let mut i: usize = 0;
    while i < ordered.len()
        invariant
            i <= ordered@.len(),
            kept@ == deduped_upto(ordered@, i as int),
        decreases ordered@.len() - i,
    {
        let last: usize = kept.len();
        if last == 0 || kept[last - 1] != ordered[i] {
            kept.push(ordered[i]);
        }
        i = i + 1;
    }
    kept
}

/// The area of facts that are no watermarks, but no more than a limit.
fn sum_native(items: &Vec<TextItem>, limit: i128) -> (area: i128)
    requires
        0 <= limit <= 0x2_0000_0000_0000_0000,
    ensures
        area == (if native_upto(items@, items@.len() as int) > limit {
            limit as int
        } else {
            native_upto(items@, items@.len() as int)
        }),
{
    let mut area: i128 = 0;
    let mut i: usize = 0;
    while i < items.len()
        invariant
            0 <= limit <= 0x2_0000_0000_0000_0000,
            i <= items@.len(),
            native_upto(items@, i as int) >= 0,
            area == (if native_upto(items@, i as int) > limit {
                limit as int
            } else {
                native_upto(items@, i as int)
            }),
        decreases items@.len() - i,
    {
        if !items[i].watermark {
            let own: i128 = items[i].bbox.area();
            if own > 0 {
                area = area + own;
                if area > limit {
                    area = limit;
                }
            }
        }
        i = i + 1;
    }
    area
}

/// Whether all facts are watermarks.
fn only_watermarks(items: &Vec<TextItem>) -> (yes: bool)
    ensures
        yes == (forall|i: int| 0 <= i < items@.len() ==> (#[trigger] items@[i]).watermark),
{
    let mut i: usize = 0;
    while i < items.len()
        invariant
            i <= items@.len(),
            forall|k: int| 0 <= k < i ==> (#[trigger] items@[k]).watermark,
        decreases items@.len() - i,
    {
        if !items[i].watermark {
            assert(!items@[i as int].watermark);
            return false;
        }
        i = i + 1;
    }
    true
}

impl PageAnalysisDraft {
    /// Prepares stable native and layout facts and the regions without text;
    /// `coverage` is the share, in millionths, of a fact that has to lie in a region.
    pub fn prepare(
        extracted: ExtractedPage,
        detections: Vec<LayoutDetection>,
        context: &DocumentContext,
        coverage: u32,
    ) -> (prepared: Result<PageAnalysisDraft, PageAnalysisError>)
        ensures
            match prepared {
                Ok(draft) => {
                    &&& agrees(extracted, *context)
                    &&& draft.extracted == extracted
                    &&& draft.detections == detections
                    &&& draft.missing_regions@ == missing_of(
                        extracted,
                        detections@,
                        coverage as int,
                    )
                    &&& draft.page_area == page_box(extracted).size()
                    &&& draft.native_area == ({
                        let area = native_upto(
                            extracted.text_items@,
                            extracted.text_items@.len() as int,
                        );
                        if area > draft.page_area {
                            draft.page_area as int
                        } else {
                            area
                        }
                    })
                },
                Err(PageAnalysisError::InvalidInput { reason }) => !agrees(extracted, *context)
                    && reason@ == "page number, dimensions, rotation, and context must agree"@,
                Err(_) => false,
            },
    {
        let alone: bool = is_alone(context, extracted.page_number);
        let turned: bool = extracted.rotation == 0 || extracted.rotation == 90
            || extracted.rotation == 180 || extracted.rotation == 270;
        if extracted.page_number == 0 || (extracted.page_number > context.page_count && !alone)
            || extracted.width <= 0 || extracted.height <= 0 || !turned {
            let mut reason: String = String::new();
            push_text(&mut reason, "page number, dimensions, rotation, and context must agree");
            assert(reason@ =~= "page number, dimensions, rotation, and context must agree"@);
            return Err(PageAnalysisError::InvalidInput { reason });
        }
        let page = Bbox { left: 0, top: 0, right: extracted.width, bottom: extracted.height };
        proof {
            valid_box_has_area(page);
        }
        let page_area: i128 = page.area();
        let native_area: i128 = sum_native(&extracted.text_items, page_area);
        let found: Vec<Bbox> = if only_watermarks(&extracted.text_items) {
            let whole: Bbox = match extracted.content_bounds {
                Some(bounds) => bounds,
                None => page,
            };
            let mut one: Vec<Bbox> = Vec::new();
            one.push(whole);
            assert(one@ =~= seq![whole]);
            one
        } else {
            list_missing(&detections, &extracted.text_items, &page, coverage)
        };
        let missing_regions: Vec<Bbox> = sort_boxes(found);
        Ok(PageAnalysisDraft { extracted, detections, missing_regions, native_area, page_area })
    }
}

} // verus!
