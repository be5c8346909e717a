//! Recognized text beside the native text of a page.

use std::sync::Arc;
use vstd::prelude::*;

use crate::chars::{
    chars_of, is_space, is_whitespace, lowercase, lowered, push_text, str_same, trim, trim_of,
};
use crate::geometry::{Baseline, Bbox, Point};
use crate::layout::is_probability;
use crate::ocr::merge::{failed_warning, invalid_warning, warn_invalid};
use crate::ocr::{OcrCompletion, OcrPolicy, OcrResult, OcrTextItem};
use crate::page::prepare::{on_page, valid_page_bbox};
use crate::rope::Rope;
use crate::types::{
    fact_models, ocr_id, warn, warning_models, FactModel, PageWarning, Rotation,
    TextItem, TextItemId, TextSource, WarningModel, WHOLE,
};

verus! {

/// The first `n` characters without blanks.
pub open spec fn squeezed_upto(s: Seq<char>, n: int) -> Seq<char>
    decreases n,
{
    if n <= 0 {
        Seq::empty()
    } else if is_space(s[n - 1]) {
        squeezed_upto(s, n - 1)
    } else {
        squeezed_upto(s, n - 1).push(s[n - 1])
    }
}

/// A text without blanks and in lowercase.
pub open spec fn folded(s: Seq<char>) -> Seq<char> {
    lowered(squeezed_upto(s, s.len() as int))
}

/// A text without blanks and in lowercase.
fn fold(text: &str) -> (form: String)
    ensures
        form@ == folded(text@),
{
    let all: Vec<char> = chars_of(text);
    let mut kept: String = String::new();
    assert(kept@ =~= Seq::empty());
    let mut i: usize = 0;
    while i < all.len()
        invariant
            i <= all@.len(),
            kept@ == squeezed_upto(all@, i as int),
        decreases all@.len() - i,
    {
        if !is_whitespace(all[i]) {
            kept.push(all[i]);
        }
        i = i + 1;
    }
    lowercase(kept.as_str())
}

/// Compares text after stable case and whitespace normalization.
pub fn equivalent_text(a: &str, b: &str) -> (yes: bool)
    ensures
        yes == (folded(a@) == folded(b@)),
{
    let x: String = fold(a);
    let y: String = fold(b);
    str_same(x.as_str(), y.as_str())
}

/// Whether two boxes share four fifths of the smaller one.
pub open spec fn coincide(a: Bbox, b: Bbox) -> bool {
    let least = if a.size() < b.size() {
        a.size()
    } else {
        b.size()
    };
    least > 0 && 10 * a.shared_area(b) >= 8 * least
}

/// Whether two boxes share four fifths of the smaller one.
fn do_coincide(a: &Bbox, b: &Bbox) -> (yes: bool)
    ensures
        yes == coincide(*a, *b),
{
    let x: i128 = a.area();
    let y: i128 = b.area();
    let least: i128 = if x < y {
        x
    } else {
        y
    };
    least > 0 && 10 * a.intersection_area(b) >= 8 * least
}

/// Whether a recognized fact can be used.
pub open spec fn is_sound(fact: OcrTextItem, page: Bbox) -> bool {
    &&& trim_of(fact.text@).len() > 0
    &&& is_probability(fact.confidence as int)
    &&& on_page(fact.bbox, page)
    &&& fact.outline matches Some(outline) ==> on_page(outline, page)
}

/// Whether a recognized fact repeats a native one.
pub open spec fn is_repeat(fact: OcrTextItem, items: Seq<TextItem>) -> bool {
    exists|i: int| 0 <= i < items.len() && #[trigger] repeats(fact, items[i])
}

/// Whether a recognized fact repeats this native one.
pub open spec fn repeats(fact: OcrTextItem, item: TextItem) -> bool {
    item.source == TextSource::Native && folded(item.raw_text@) == folded(trim_of(fact.text@))
        && coincide(item.bbox, fact.bbox)
}

/// The text fact of a recognized fact.
pub open spec fn adopted(fact: OcrTextItem, page: nat, index: u32) -> FactModel {
    FactModel {
        id: ocr_id(page, index as nat),
        raw_text: fact.text@,
        raw_bbox: Some(fact.bbox),
        bbox: fact.bbox,
        rotation: Rotation::none(),
        baseline: Some(
            Baseline {
                start: Point { x: fact.bbox.left, y: fact.bbox.bottom },
                end: Point { x: fact.bbox.right, y: fact.bbox.bottom },
            },
        ),
        style: None,
        source: TextSource::Ocr,
        quad: None,
        confidence: Some(fact.confidence as u32),
        extraction_order: index,
        final_order: 0,
        watermark: false,
        provenance: None,
        repair_actions: Seq::empty(),
    }
}

/// The warning about a recognized fact whose place is too far.
pub open spec fn far_warning() -> WarningModel {
    WarningModel {
        code: "InvalidOcrResult"@,
        stage: "ocr"@,
        message: "OCR result index exceeds u32"@,
    }
}

/// The warning about a missing engine.
pub open spec fn absent_warning() -> WarningModel {
    WarningModel {
        code: "OcrUnavailable"@,
        stage: "ocr"@,
        message: "OCR was requested for missing regions but no engine was available"@,
    }
}

/// The facts adopted from the first `n` recognized ones.
pub open spec fn adopted_upto(
    facts: Seq<OcrTextItem>,
    items: Seq<TextItem>,
    page_number: nat,
    page: Bbox,
    n: int,
) -> Seq<FactModel>
    decreases n,
{
    if n <= 0 {
        Seq::empty()
    } else {
        let before = adopted_upto(facts, items, page_number, page, n - 1);
        if n - 1 <= u32::MAX && is_sound(facts[n - 1], page) && !is_repeat(facts[n - 1], items) {
            before.push(adopted(facts[n - 1], page_number, (n - 1) as u32))
        } else {
            before
        }
    }
}

/// The warnings about the first `n` recognized facts.
pub open spec fn refused_upto(facts: Seq<OcrTextItem>, page: Bbox, n: int) -> Seq<WarningModel>
    decreases n,
{
    if n <= 0 {
        Seq::empty()
    } else {
        let before = refused_upto(facts, page, n - 1);
        if n - 1 > u32::MAX {
            before.push(far_warning())
        } else if !is_sound(facts[n - 1], page) {
            before.push(invalid_warning((n - 1) as nat))
        } else {
            before
        }
    }
}

/// The facts that recognition adds.
pub open spec fn ocr_facts(
    completion: OcrCompletion,
    items: Seq<TextItem>,
    page_number: nat,
    page: Bbox,
) -> Seq<FactModel> {
    match completion {
        OcrCompletion::Succeeded { result } => adopted_upto(
            result.items@,
            items,
            page_number,
            page,
            result.items@.len() as int,
        ),
        _ => Seq::empty(),
    }
}

/// The warnings that recognition adds.
pub open spec fn ocr_warnings(completion: OcrCompletion, page: Bbox) -> Seq<WarningModel> {
    match completion {
        OcrCompletion::Succeeded { result } => refused_upto(
            result.items@,
            page,
            result.items@.len() as int,
        ),
        OcrCompletion::Unavailable => seq![absent_warning()],
        OcrCompletion::NotRequested => seq![absent_warning()],
        OcrCompletion::Failed { message } => seq![failed_warning(message@)],
    }
}

/// Every fact that recognition adds has an extent.
pub proof fn recognized_facts_have_extents(
    completion: OcrCompletion,
    items: Seq<TextItem>,
    page_number: nat,
    page: Bbox,
)
    ensures
        forall|i: int|
            #![trigger ocr_facts(completion, items, page_number, page)[i]]
            0 <= i < ocr_facts(completion, items, page_number, page).len() ==> ocr_facts(
                completion,
                items,
                page_number,
                page,
            )[i].bbox.valid(),
{
    if let OcrCompletion::Succeeded { result } = completion {
        lemma_adopted_extents(result.items@, items, page_number, page, result.items@.len() as int);
    }
}

/// Every adopted fact has an extent.
proof fn lemma_adopted_extents(
    facts: Seq<OcrTextItem>,
    items: Seq<TextItem>,
    page_number: nat,
    page: Bbox,
    n: int,
)
    ensures
        forall|i: int|
            #![trigger adopted_upto(facts, items, page_number, page, n)[i]]
            0 <= i < adopted_upto(facts, items, page_number, page, n).len() ==> adopted_upto(
                facts,
                items,
                page_number,
                page,
                n,
            )[i].bbox.valid(),
    decreases n,
{
    if n > 0 {
        lemma_adopted_extents(facts, items, page_number, page, n - 1);
        let before = adopted_upto(facts, items, page_number, page, n - 1);
        let after = adopted_upto(facts, items, page_number, page, n);
        assert forall|i: int| 0 <= i < after.len() implies (#[trigger] after[i]).bbox.valid() by {
            if i < before.len() {
                assert(after[i] == before[i]);
            }
        }
    }
}

/// Whether a recognized fact can be used.
fn is_usable(fact: &OcrTextItem, page: &Bbox) -> (yes: bool)
    ensures
        yes == is_sound(*fact, *page),
{
    if trim(fact.text.as_str()).unicode_len() == 0 || fact.confidence < 0 || fact.confidence
        > WHOLE as i64 || !valid_page_bbox(&fact.bbox, page) {
        return false;
    }
    match &fact.outline {
        None => true,
        Some(outline) => valid_page_bbox(outline, page),
    }
}

/// Whether a recognized fact repeats one of the first `n` facts.
fn find_repeat(fact: &OcrTextItem, items: &Vec<TextItem>, n: usize) -> (yes: bool)
    requires
        n <= items@.len(),
    ensures
        yes == is_repeat(*fact, items@.take(n as int)),
{
    let ghost known = items@.take(n as int);
    let text: &str = trim(fact.text.as_str());
    let mut i: usize = 0;
    while i < n
        invariant
            n <= items@.len(),
            known == items@.take(n as int),
            text@ == trim_of(fact.text@),
            i <= n,
            forall|k: int| 0 <= k < i ==> !#[trigger] repeats(*fact, known[k]),
        decreases n - i,
    {
        let item: &TextItem = &items[i];
        assert(known[i as int] == *item);
        if matches!(item.source, TextSource::Native) && do_coincide(&item.bbox, &fact.bbox) {
            let raw: String = item.raw_text.to_text();
            if equivalent_text(raw.as_str(), text) {
                assert(repeats(*fact, known[i as int]));
                return true;
            }
        }
        i = i + 1;
    }
    false
}

/// The text fact of a recognized fact.
fn adopt(fact: &OcrTextItem, page_number: u32, index: u32) -> (item: TextItem)
    requires
        is_probability(fact.confidence as int),
    ensures
        item@ == adopted(*fact, page_number as nat, index),
{
    let item = TextItem {
        id: TextItemId::ocr(page_number, index),
        raw_text: Rope::new(fact.text.clone()),
        raw_bbox: Some(fact.bbox),
        bbox: fact.bbox,
        rotation: Rotation::upright(),
        baseline: Some(
            Baseline {
                start: Point { x: fact.bbox.left, y: fact.bbox.bottom },
                end: Point { x: fact.bbox.right, y: fact.bbox.bottom },
            },
        ),
        style: None,
        source: TextSource::Ocr,
        quad: None,
        confidence: Some(fact.confidence as u32),
        extraction_order: index,
        final_order: 0,
        watermark: false,
        provenance: None,
        repair_actions: Arc::new(Vec::new()),
    };
    assert(item@ =~= adopted(*fact, page_number as nat, index));
    item
}

/// A warning of the recognition stage.
fn ocr_warning(code: &str, message: &str) -> (warning: PageWarning)
    ensures
        warning@ == (WarningModel { code: code@, stage: "ocr"@, message: message@ }),
{
    let mut text: String = String::new();
    push_text(&mut text, message);
    assert(text@ =~= message@);
    PageWarning::new(code, "ocr", text)
}

/// Checks recognized facts and adds those that repeat no native one.
fn merge_result(
    page_number: u32,
    page: &Bbox,
    items: &mut Vec<TextItem>,
    warnings: &mut Vec<PageWarning>,
    result: &OcrResult,
)
    ensures
        final(items)@.len() >= old(items)@.len(),
        final(items)@.take(old(items)@.len() as int) == old(items)@,
        fact_models(final(items)@) == fact_models(old(items)@) + adopted_upto(
            result.items@,
            old(items)@,
            page_number as nat,
            *page,
            result.items@.len() as int,
        ),
        warning_models(final(warnings)@) == warning_models(old(warnings)@) + refused_upto(
            result.items@,
            *page,
            result.items@.len() as int,
        ),
{
    let ghost given = items@;
    let ghost known = fact_models(given);
    let ghost said = warning_models(warnings@);
    let facts: &Vec<OcrTextItem> = &result.items;
    let n: usize = items.len();
    let mut i: usize = 0;
    assert(items@.take(n as int) =~= given);
    assert(fact_models(items@) =~= known + adopted_upto(
        facts@,
        given,
        page_number as nat,
        *page,
        0,
    ));
    assert(warning_models(warnings@) =~= said + refused_upto(facts@, *page, 0));
    while i < facts.len()
        invariant
            facts@ == result.items@,
            n == given.len(),
            known == fact_models(given),
            items@.len() >= n,
            items@.take(n as int) == given,
            i <= facts@.len(),
            fact_models(items@) == known + adopted_upto(
                facts@,
                given,
                page_number as nat,
                *page,
                i as int,
            ),
            warning_models(warnings@) == said + refused_upto(facts@, *page, i as int),
        decreases facts@.len() - i,
    {
        let fact: &OcrTextItem = &facts[i];
        let ghost before = items@;
        let ghost warned = warning_models(warnings@);
        if i as u64 > u32::MAX as u64 {
            warn(warnings, ocr_warning("InvalidOcrResult", "OCR result index exceeds u32"));
        } else if !is_usable(fact, page) {
            warn_invalid(warnings, i as u64);
        } else if !find_repeat(fact, items, n) {
            let item: TextItem = adopt(fact, page_number, i as u32);
            items.push(item);
            assert(fact_models(items@) =~= fact_models(before).push(item@));
            assert(items@.take(n as int) =~= before.take(n as int));
        }
        i = i + 1;
        assert(fact_models(items@) =~= known + adopted_upto(
            facts@,
            given,
            page_number as nat,
            *page,
            i as int,
        ));
        assert(warning_models(warnings@) =~= said + refused_upto(facts@, *page, i as int));
    }
}

/// Validates recognized facts and adds those that repeat no native text.
pub fn merge_ocr(
    policy: OcrPolicy,
    page_number: u32,
    page: &Bbox,
    items: &mut Vec<TextItem>,
    warnings: &mut Vec<PageWarning>,
    completion: &OcrCompletion,
    missing_regions: &Vec<Bbox>,
)
    ensures
        ({
            let idle = policy == OcrPolicy::Disabled || missing_regions@.len() == 0;
            &&& fact_models(final(items)@) == fact_models(old(items)@) + (if idle {
                Seq::empty()
            } else {
                ocr_facts(*completion, old(items)@, page_number as nat, *page)
            })
            &&& warning_models(final(warnings)@) == warning_models(old(warnings)@) + (if idle {
                Seq::empty()
            } else {
                ocr_warnings(*completion, *page)
            })
        }),
        final(items)@.len() >= old(items)@.len(),
        final(items)@.take(old(items)@.len() as int) == old(items)@,
{
    let ghost known = fact_models(items@);
    let ghost said = warning_models(warnings@);
    assert(items@.take(items@.len() as int) =~= items@);
    assert(known + Seq::empty() =~= known);
    assert(said + Seq::empty() =~= said);
    if matches!(policy, OcrPolicy::Disabled) || missing_regions.len() == 0 {
        return;
    }
    match completion {
        OcrCompletion::Succeeded { result } => {
            merge_result(page_number, page, items, warnings, result);
        },
        OcrCompletion::Unavailable | OcrCompletion::NotRequested => {
            let warning: PageWarning = ocr_warning(
                "OcrUnavailable",
                "OCR was requested for missing regions but no engine was available",
            );
            assert(warning@ =~= absent_warning());
            warn(warnings, warning);
            assert(warning_models(warnings@) =~= said + seq![absent_warning()]);
        },
        OcrCompletion::Failed { message } => {
            let warning: PageWarning = ocr_warning("OcrFailed", message.as_str());
            assert(warning@ =~= failed_warning(message@));
            warn(warnings, warning);
            assert(warning_models(warnings@) =~= said + seq![failed_warning(message@)]);
        },
    }
}

/// A watermark: its text and its place.
#[derive(Debug)]
pub struct Overlay {
    pub text: String,
    pub bbox: Bbox,
}

/// Whether a recognized fact shows a watermark.
pub open spec fn shows_overlay(fact: OcrTextItem, overlay: Overlay) -> bool {
    overlay.text@.len() > 0 && folded(overlay.text@) == folded(fact.text@) && coincide(
        overlay.bbox,
        fact.bbox,
    )
}

/// Whether a recognized fact shows one of the watermarks.
pub open spec fn is_overlay(fact: OcrTextItem, overlays: Seq<Overlay>) -> bool {
    exists|i: int| 0 <= i < overlays.len() && #[trigger] shows_overlay(fact, overlays[i])
}

/// Those of the first `n` recognized facts that show no watermark.
pub open spec fn bare_upto(facts: Seq<OcrTextItem>, overlays: Seq<Overlay>, n: int) -> Seq<
    OcrTextItem,
>
    decreases n,
{
    if n <= 0 {
        Seq::empty()
    } else if is_overlay(facts[n - 1], overlays) {
        bare_upto(facts, overlays, n - 1)
    } else {
        bare_upto(facts, overlays, n - 1).push(facts[n - 1])
    }
}

/// An equal recognized fact.
fn copy_fact(fact: &OcrTextItem) -> (copy: OcrTextItem)
    ensures
        copy == *fact,
{
    OcrTextItem {
        text: fact.text.clone(),
        bbox: fact.bbox,
        outline: fact.outline,
        quad: fact.quad,
        confidence: fact.confidence,
    }
}

/// Drops recognized facts that show a watermark before any of them becomes body text.
pub fn without_overlays(facts: &Vec<OcrTextItem>, overlays: &Vec<Overlay>) -> (kept: Vec<
    OcrTextItem,
>)
    ensures
        kept@ == bare_upto(facts@, overlays@, facts@.len() as int),
{
    let mut kept: Vec<OcrTextItem> = Vec::new();
    let mut i: usize = 0;
    while i < facts.len()
        invariant
            i <= facts@.len(),
            kept@ == bare_upto(facts@, overlays@, i as int),
        decreases facts@.len() - i,
    {
        let fact: &OcrTextItem = &facts[i];
        let mut shown: bool = false;
        let mut k: usize = 0;
        while k < overlays.len() && !shown
            invariant
                k <= overlays@.len(),
                !shown ==> forall|p: int|
                    0 <= p < k ==> !#[trigger] shows_overlay(*fact, overlays@[p]),
                shown ==> is_overlay(*fact, overlays@),
            decreases overlays@.len() - k,
        {
            let overlay: &Overlay = &overlays[k];
            if overlay.text.as_str().unicode_len() > 0 && do_coincide(&overlay.bbox, &fact.bbox)
                && equivalent_text(overlay.text.as_str(), fact.text.as_str()) {
                assert(shows_overlay(*fact, overlays@[k as int]));
                shown = true;
            }
            k = k + 1;
        }
        if !shown {
            kept.push(copy_fact(fact));
        }
        i = i + 1;
    }
    kept
}

/// Native facts stay as they are: recognition only adds facts of its own behind them.
pub proof fn recognition_only_adds(
    facts: Seq<OcrTextItem>,
    items: Seq<TextItem>,
    page_number: nat,
    page: Bbox,
    n: int,
    i: int,
)
    requires
        0 <= i < adopted_upto(facts, items, page_number, page, n).len(),
    ensures
        adopted_upto(facts, items, page_number, page, n)[i].source == TextSource::Ocr,
    decreases n,
{
    if n > 0 {
        let before = adopted_upto(facts, items, page_number, page, n - 1);
        if i < before.len() {
            recognition_only_adds(facts, items, page_number, page, n - 1, i);
        }
    }
}

} // verus!
