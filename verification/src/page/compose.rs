//! From facts and detections to owned regions.

use vstd::prelude::*;

use crate::chars::{push_text, str_same};
use crate::error::PageAnalysisError;
use crate::fusion::assign::{is_assigned, AssignmentEngine, AssignmentResult, BlockSeed};
use crate::fusion::fallback::{region_of, spots_of, xy_cut, RegionTree, MAX_DEPTH};
use crate::fusion::region::RegionPath;
use crate::fusion::score::OutlineMeasures;
use crate::geometry::Bbox;
use crate::layout::LayoutDetection;
use crate::line::formula::FormulaRegion;
use crate::line::fragment::models;
use crate::line::metrics::runs_fault;
use crate::ocr::{OcrCompletion, OcrPolicy, OcrResult};
use crate::page::complete::{list_native_ids, native_ids};
use crate::page::prepare::{on_page, valid_page_bbox};
use crate::page::recognized::{
    bare_upto, merge_ocr, ocr_facts, ocr_warnings, recognized_facts_have_extents,
    without_overlays, Overlay,
};
use crate::sorting::sorted;
use crate::texts::{texts, TextOrder};
use crate::types::{fact_models, warning_models, FactModel, PageWarning, TextItem, WarningModel};

verus! {

/// Those of the first `n` facts that are watermarks, or are not.
pub open spec fn parted_upto(items: Seq<TextItem>, watermark: bool, n: int) -> Seq<TextItem>
    decreases n,
{
    if n <= 0 {
        Seq::empty()
    } else if items[n - 1].watermark == watermark {
        parted_upto(items, watermark, n - 1).push(items[n - 1])
    } else {
        parted_upto(items, watermark, n - 1)
    }
}

/// Parts watermarks from the text of the page.
pub fn part_watermarks(items: &Vec<TextItem>) -> (parts: (Vec<TextItem>, Vec<TextItem>))
    ensures
        parts.0@ == parted_upto(items@, true, items@.len() as int),
        parts.1@ == parted_upto(items@, false, items@.len() as int),
{
    let mut marks: Vec<TextItem> = Vec::new();
    let mut text: Vec<TextItem> = Vec::new();
    let mut i: usize = 0;
    while i < items.len()
        invariant
            i <= items@.len(),
            marks@ == parted_upto(items@, true, i as int),
            text@ == parted_upto(items@, false, i as int),
        decreases items@.len() - i,
    {
        if items[i].watermark {
            marks.push(items[i].copy());
        } else {
            text.push(items[i].copy());
        }
        i = i + 1;
    }
    (marks, text)
}

/// Whether a detection, with its outline, lies on the page.
pub open spec fn lies_on(detection: LayoutDetection, page: Bbox) -> bool {
    on_page(detection.bbox, page) && (detection.outline matches Some(outline) ==> on_page(
        outline.bbox,
        page,
    ))
}

/// The formula regions of the first `n` detections.
pub open spec fn formulas_upto(detections: Seq<LayoutDetection>, page: Bbox, n: int) -> Seq<
    FormulaRegion,
>
    decreases n,
{
    if n <= 0 {
        Seq::empty()
    } else {
        let before = formulas_upto(detections, page, n - 1);
        match crate::line::formula::region_of(detections[n - 1]) {
            Some(region) => if lies_on(detections[n - 1], page) {
                before.push(region)
            } else {
                before
            },
            None => before,
        }
    }
}

/// The formula regions of a page.
pub fn formula_regions(detections: &Vec<LayoutDetection>, page: &Bbox) -> (regions: Vec<
    FormulaRegion,
>)
    ensures
        regions@ == formulas_upto(detections@, *page, detections@.len() as int),
{
    let mut regions: Vec<FormulaRegion> = Vec::new();
    let mut d: usize = 0;
    while d < detections.len()
        invariant
            d <= detections@.len(),
            regions@ == formulas_upto(detections@, *page, d as int),
        decreases detections@.len() - d,
    {
        let detection: &LayoutDetection = &detections[d];
        let inside: bool = valid_page_bbox(&detection.bbox, page) && (match &detection.outline {
            None => true,
            Some(outline) => valid_page_bbox(&outline.bbox, page),
        });
        if inside {
            if let Some(region) = FormulaRegion::from_detection(detection) {
                regions.push(region);
            }
        }
        d = d + 1;
    }
    regions
}

/// Those of the first `n` warnings that are not about a region without text.
pub open spec fn lasting_upto(warnings: Seq<WarningModel>, n: int) -> Seq<WarningModel>
    decreases n,
{
    if n <= 0 {
        Seq::empty()
    } else if warnings[n - 1].code == "EmptyModelRegion"@ {
        lasting_upto(warnings, n - 1)
    } else {
        lasting_upto(warnings, n - 1).push(warnings[n - 1])
    }
}

/// Drops warnings about regions without text: empty candidates may disappear
/// before the page is done.
pub fn lasting_warnings(warnings: &Vec<PageWarning>) -> (kept: Vec<PageWarning>)
    ensures
        warning_models(kept@) == lasting_upto(
            warning_models(warnings@),
            warnings@.len() as int,
        ),
{
    let ghost all = warning_models(warnings@);
    let mut kept: Vec<PageWarning> = Vec::new();
    assert(warning_models(kept@) =~= Seq::empty());
    let mut i: usize = 0;
    while i < warnings.len()
        invariant
            all == warning_models(warnings@),
            i <= warnings@.len(),
            warning_models(kept@) == lasting_upto(all, i as int),
        decreases warnings@.len() - i,
    {
        let warning: &PageWarning = &warnings[i];
        assert(all[i as int] == warning@);
        if !str_same(warning.code.as_str(), "EmptyModelRegion") {
            let copy = PageWarning {
                code: warning.code.clone(),
                stage: warning.stage.clone(),
                message: warning.message.clone(),
            };
            assert(copy@ =~= warning@);
            let ghost before = kept@;
            kept.push(copy);
            assert(warning_models(kept@) =~= warning_models(before).push(warning@));
        }
        i = i + 1;
    }
    kept
}

/// What is said of a table whose structure is not known.
pub open spec fn table_warning_of(id: Seq<char>, reason: Seq<char>) -> WarningModel {
    WarningModel {
        code: "TableStructureUnavailable"@,
        stage: "table"@,
        message: "table "@ + id + " retains source lines: "@ + reason,
    }
}

/// What is said of a table whose structure is not known.
pub fn table_warning(id: &str, reason: &str) -> (warning: PageWarning)
    ensures
        warning@ == table_warning_of(id@, reason@),
{
    let mut message: String = String::new();
    push_text(&mut message, "table ");
    push_text(&mut message, id);
    push_text(&mut message, " retains source lines: ");
    push_text(&mut message, reason);
    assert(message@ =~= "table "@ + id@ + " retains source lines: "@ + reason@);
    let warning: PageWarning = PageWarning::new("TableStructureUnavailable", "table", message);
    assert(warning@ =~= table_warning_of(id@, reason@));
    warning
}

/// Facts of a page parted from its watermarks.
#[derive(Debug)]
pub struct PageParts {
    pub watermark_items: Vec<TextItem>,
    pub text_items: Vec<TextItem>,
    pub formula_regions: Vec<FormulaRegion>,
    /// Identities of the native facts of the page, in order.
    pub expected_native_ids: Vec<String>,
}

impl PageParts {
    /// Parts watermarks from the text before anything owns it, and finds the
    /// formula regions.
    pub fn new(items: &Vec<TextItem>, detections: &Vec<LayoutDetection>, page: &Bbox) -> (parts:
        PageParts)
        ensures
            parts.watermark_items@ == parted_upto(items@, true, items@.len() as int),
            parts.text_items@ == parted_upto(items@, false, items@.len() as int),
            parts.formula_regions@ == formulas_upto(detections@, *page, detections@.len() as int),
            texts(parts.expected_native_ids@) == sorted(
                native_ids(items@, items@.len() as int),
                TextOrder,
            ),
    {
        let (watermark_items, text_items): (Vec<TextItem>, Vec<TextItem>) = part_watermarks(items);
        PageParts {
            watermark_items,
            text_items,
            formula_regions: formula_regions(detections, page),
            expected_native_ids: list_native_ids(items),
        }
    }
}

/// Text of a page with its owners: detected regions, or leaves of the fallback.
#[derive(Debug)]
pub struct PageComposition {
    pub text_items: Vec<TextItem>,
    pub warnings: Vec<PageWarning>,
    pub assignment: AssignmentResult,
    pub fallback: RegionTree,
}

/// The outcome of recognition without what shows a watermark.
pub open spec fn bare_completion(completion: OcrCompletion, overlays: Seq<Overlay>, bare: OcrCompletion) -> bool {
    match (completion, bare) {
        (
            OcrCompletion::Succeeded { result },
            OcrCompletion::Succeeded { result: kept },
        ) => kept.items@ == bare_upto(result.items@, overlays, result.items@.len() as int),
        (OcrCompletion::Succeeded { result }, _) => false,
        _ => bare == completion,
    }
}

/// Drops what shows a watermark from the outcome of recognition.
fn strip_overlays(completion: OcrCompletion, overlays: &Vec<Overlay>) -> (bare: OcrCompletion)
    ensures
        bare_completion(completion, overlays@, bare),
{
    match completion {
        OcrCompletion::Succeeded { result } => OcrCompletion::Succeeded {
            result: OcrResult { items: without_overlays(&result.items, overlays) },
        },
        other => other,
    }
}

/// The boxes of detected regions.
pub open spec fn seed_boxes(seeds: Seq<BlockSeed>) -> Seq<Bbox> {
    Seq::new(seeds.len(), |i: int| seeds[i].detection.bbox)
}

/// What of a composition follows from the text, the detections and their outlines.
pub open spec fn is_owned(
    composed: PageComposition,
    engine: AssignmentEngine,
    detections: Seq<LayoutDetection>,
    measures: Seq<OutlineMeasures>,
) -> bool {
    let result = composed.assignment;
    &&& is_assigned(result, engine, composed.text_items@, detections, measures)
    &&& composed.fallback@ == region_of(
        spots_of(models(result.residual@)),
        seed_boxes(result.model_seeds@),
        engine.page_bbox,
        RegionPath::Root,
        MAX_DEPTH as nat,
    )
}

impl PageComposition {
    /// Merges recognized text, assigns every fact to a detected region or to the
    /// rest, and cuts the rest into regions that cross no detected one. A fact without an extent
    /// is refused.
    pub fn new(
        text_items: Vec<TextItem>,
        engine: &AssignmentEngine,
        detections: &Vec<LayoutDetection>,
        measures: &Vec<OutlineMeasures>,
        policy: OcrPolicy,
        completion: OcrCompletion,
        missing_regions: &Vec<Bbox>,
        overlays: &Vec<Overlay>,
    ) -> (made: Result<PageComposition, PageAnalysisError>)
        ensures
            match made {
                Ok(composed) => {
                    &&& runs_fault(text_items@, text_items@.len() as int) is None
                    &&& is_owned(composed, *engine, detections@, measures@)
                    &&& composed.text_items@.len() >= text_items@.len()
                    &&& composed.text_items@.take(text_items@.len() as int) == text_items@
                    &&& exists|bare: OcrCompletion| #[trigger]
                        bare_completion(completion, overlays@, bare) && ({
                            let idle = policy == OcrPolicy::Disabled || missing_regions@.len()
                                == 0;
                            &&& fact_models(composed.text_items@) == fact_models(text_items@) + (
                            if idle {
                                Seq::empty()
                            } else {
                                ocr_facts(
                                    bare,
                                    text_items@,
                                    engine.page_number as nat,
                                    engine.page_bbox,
                                )
                            })
                            &&& warning_models(composed.warnings@) == (if idle {
                                Seq::empty()
                            } else {
                                ocr_warnings(bare, engine.page_bbox)
                            })
                        })
                },
                Err(PageAnalysisError::Line(e)) => runs_fault(
                    text_items@,
                    text_items@.len() as int,
                ) == Some(e),
                Err(_) => false,
            },
    {
        let ghost given = text_items@;
        let mut items: Vec<TextItem> = text_items;
        let mut warnings: Vec<PageWarning> = Vec::new();
        assert(warning_models(warnings@) =~= Seq::empty());
        let bare: OcrCompletion = strip_overlays(completion, overlays);
        merge_ocr(
            policy,
            engine.page_number,
            &engine.page_bbox,
            &mut items,
            &mut warnings,
            &bare,
            missing_regions,
        );
        proof {
            let idle = policy == OcrPolicy::Disabled || missing_regions@.len() == 0;
            lemma_merged_fault(
                given,
                items@,
                if idle {
                    Seq::empty()
                } else {
                    ocr_facts(bare, given, engine.page_number as nat, engine.page_bbox)
                },
                bare,
                engine.page_number as nat,
                engine.page_bbox,
            );
        }
        let assignment: AssignmentResult = match engine.assign(&items, detections, measures) {
            Err(e) => {
                return Err(PageAnalysisError::Line(e));
            },
            Ok(assignment) => assignment,
        };
        let mut obstacles: Vec<Bbox> = Vec::new();
        let seeds: &Vec<BlockSeed> = &assignment.model_seeds;
        let mut i: usize = 0;
        while i < seeds.len()
            invariant
                i <= seeds@.len(),
                obstacles@ == seed_boxes(seeds@).take(i as int),
            decreases seeds@.len() - i,
        {
            obstacles.push(seeds[i].detection.bbox);
            i = i + 1;
            assert(obstacles@ =~= seed_boxes(seeds@).take(i as int));
        }
        assert(obstacles@ =~= seed_boxes(seeds@));
        let fallback: RegionTree = xy_cut(&assignment.residual, &obstacles, engine.page_bbox);
        let composed = PageComposition { text_items: items, warnings, assignment, fallback };
        proof {
            assert(Seq::<WarningModel>::empty() + Seq::empty() =~= Seq::<WarningModel>::empty());
            assert(Seq::<WarningModel>::empty() + ocr_warnings(bare, engine.page_bbox)
                =~= ocr_warnings(bare, engine.page_bbox));
            assert(bare_completion(completion, overlays@, bare));
        }
        Ok(composed)
    }
}

/// Recognized facts have extents, so only a given fact can have a fault.
proof fn lemma_merged_fault(
    given: Seq<TextItem>,
    items: Seq<TextItem>,
    more: Seq<FactModel>,
    bare: OcrCompletion,
    page_number: nat,
    page: Bbox,
)
    requires
        items.take(given.len() as int) == given,
        items.len() >= given.len(),
        fact_models(items) == fact_models(given) + more,
        more.len() == 0 || more == ocr_facts(bare, given, page_number, page),
    ensures
        runs_fault(items, items.len() as int) == runs_fault(given, given.len() as int),
{
    let n = given.len() as int;
    lemma_same_fault(given, items, n);
    recognized_facts_have_extents(bare, given, page_number, page);
    assert forall|i: int| n <= i < items.len() implies (#[trigger] items[i]).bbox.valid() by {
        let all = fact_models(given) + more;
        assert(fact_models(items).len() == items.len() && fact_models(given).len() == n);
        assert(all.len() == n + more.len());
        assert(all[i] == more[i - n]);
        assert(fact_models(items)[i] == items[i]@);
    }
    lemma_valid_tail(items, n, items.len() as int);
}

/// The faults of the first runs depend on these alone.
proof fn lemma_same_fault(a: Seq<TextItem>, b: Seq<TextItem>, n: int)
    requires
        n <= a.len() <= b.len(),
        b.take(a.len() as int) == a,
    ensures
        runs_fault(a, n) == runs_fault(b, n),
    decreases n,
{
    if n > 0 {
        lemma_same_fault(a, b, n - 1);
        assert(b.take(a.len() as int)[n - 1] == b[n - 1]);
    }
}

/// Runs with extents add no fault.
proof fn lemma_valid_tail(items: Seq<TextItem>, part: int, n: int)
    requires
        0 <= part <= n <= items.len(),
        forall|i: int| part <= i < n ==> (#[trigger] items[i]).bbox.valid(),
    ensures
        runs_fault(items, n) == runs_fault(items, part),
    decreases n - part,
{
    if part < n {
        lemma_valid_tail(items, part, n - 1);
    }
}

/// Parting watermarks loses no fact and makes none up.
pub proof fn parting_keeps_facts(items: Seq<TextItem>, n: int)
    requires
        0 <= n <= items.len(),
    ensures
        parted_upto(items, true, n).to_multiset().add(parted_upto(items, false, n).to_multiset())
            == items.take(n).to_multiset(),
    decreases n,
{
    broadcast use vstd::seq_lib::group_to_multiset_ensures;

    if n > 0 {
        parting_keeps_facts(items, n - 1);
        assert(items.take(n) =~= items.take(n - 1).push(items[n - 1]));
        let marks = parted_upto(items, true, n);
        let text = parted_upto(items, false, n);
        assert(marks.to_multiset().add(text.to_multiset()) =~= items.take(n - 1).to_multiset().insert(
            items[n - 1],
        ));
    } else {
        assert(parted_upto(items, true, n).to_multiset() =~= vstd::multiset::Multiset::empty());
        assert(items.take(n) =~= Seq::empty());
        assert(items.take(n).to_multiset() =~= vstd::multiset::Multiset::empty());
        assert(parted_upto(items, true, n).to_multiset().add(
            parted_upto(items, false, n).to_multiset(),
        ) =~= vstd::multiset::Multiset::empty());
    }
}

} // verus!
