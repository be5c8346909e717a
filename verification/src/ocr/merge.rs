//! Recognized text beside native text.

use std::sync::Arc;
use vstd::multiset::Multiset;
use vstd::prelude::*;

use crate::chars::{chars_of, push_decimal, push_text, text_of_decimal, trim, trim_of};
use crate::geometry::{narrow, narrowed, Baseline, Bbox, Point};
use crate::layout::is_probability;
use crate::rope::Rope;
use crate::text_rules::TextRules;
use crate::types::{
    fact_models, ocr_id, warn, warning_models, FactModel, PageWarning, Quad, Rotation,
    StyleModel, TextItem, TextItemId, TextSource, TextStyle, WarningModel, WHOLE,
};

use super::index::{topmost_first, TextIndex};
use super::overlap::{half_shared, is_half_shared, is_mostly_covered, kept_of, mostly_covered, without_native};
use super::spacing::{space_words, spaced_words};
use super::{OcrCompletion, OcrConfig, OcrPolicy, OcrTextItem};

verus! {

/// Confidence from which recognized text replaces unusable native text.
pub const RELIABLE: u32 = 800_000;

/// Merges recognized text against a fixed native snapshot before ownership is assigned.
#[derive(Debug)]
pub struct OcrMerger {
    pub config: OcrConfig,
    pub page_number: u32,
    pub page_bbox: Bbox,
    pub missing_regions: Vec<Bbox>,
}

/// Whether a recognized fact is usable at all.
pub open spec fn is_valid_fact(fact: OcrTextItem, index: int, page: Bbox) -> bool {
    &&& index <= u32::MAX
    &&& trim_of(fact.text@).len() > 0
    &&& is_probability(fact.confidence as int)
    &&& fact.bbox.valid()
    &&& page.holds(fact.bbox)
    &&& fact.outline matches Some(outline) ==> fact.bbox.holds(outline)
}

/// Whether a recognized fact is sure enough and lies in a region without text.
pub open spec fn is_wanted(fact: OcrTextItem, threshold: int, regions: Seq<Bbox>) -> bool {
    &&& fact.confidence > 100_000
    &&& fact.confidence >= threshold
    &&& exists|i: int|
        0 <= i < regions.len() && half_shared(#[trigger] regions[i], fact.bbox)
}

/// Whether a character is a stroke of a rule.
pub open spec fn is_rule_mark(c: char) -> bool {
    c == '|' || c == '_' || c == '─' || c == '—'
}

/// Whether a recognized fact is a drawn rule taken for text.
pub open spec fn is_drawn_rule(fact: OcrTextItem) -> bool {
    &&& fact.bbox.wide() > 10 * fact.bbox.high()
    &&& forall|k: int|
        0 <= k < trim_of(fact.text@).len() ==> is_rule_mark(#[trigger] trim_of(fact.text@)[k])
}

/// The text fact of a recognized fact.
pub open spec fn recognized(fact: OcrTextItem, page: nat, index: u32) -> FactModel {
    let (baseline, rotation, height) = match fact.quad {
        Some(q) => (Baseline { start: q.quad.d, end: q.quad.c }, q.rotation, q.height as int),
        None => (
            Baseline {
                start: Point { x: fact.bbox.left, y: fact.bbox.bottom },
                end: Point { x: fact.bbox.right, y: fact.bbox.bottom },
            },
            Rotation::none(),
            narrowed(fact.bbox.high()),
        ),
    };
    FactModel {
        id: ocr_id(page, index as nat),
        raw_text: trim_of(fact.text@),
        raw_bbox: Some(fact.bbox),
        bbox: fact.bbox,
        rotation,
        baseline: Some(baseline),
        style: Some(
            StyleModel {
                font_name: Some("OCR"@),
                font_size: Some(height as i32),
                font_height: Some(height as i32),
                font_size_estimated: true,
                ..TextStyle::none()@
            },
        ),
        source: TextSource::Ocr,
        quad: match fact.quad {
            Some(q) => Some(q.quad),
            None => None,
        },
        confidence: Some(fact.confidence as u32),
        extraction_order: index,
        final_order: 0,
        watermark: false,
        provenance: None,
        repair_actions: Seq::empty(),
    }
}

/// The warning about an unusable recognized fact.
pub open spec fn invalid_warning(index: nat) -> WarningModel {
    WarningModel {
        code: "InvalidOcrResult"@,
        stage: "ocr"@,
        message: "ignored OCR result "@ + text_of_decimal(index),
    }
}

/// The native facts, among the first `n`, that recognized text must not repeat.
pub open spec fn healthy_upto(items: Seq<TextItem>, unusable: Seq<bool>, n: int) -> Seq<TextItem>
    decreases n,
{
    if n <= 0 {
        Seq::empty()
    } else {
        let before = healthy_upto(items, unusable, n - 1);
        if items[n - 1].source == TextSource::Native && !unusable[n - 1] && trim_of(
            items[n - 1].raw_text@,
        ).len() > 0 {
            before.push(items[n - 1])
        } else {
            before
        }
    }
}

/// What the merging of a page looks at.
pub ghost struct Setting {
    pub rules: TextRules,
    pub threshold: int,
    pub page: nat,
    pub page_bbox: Bbox,
    pub regions: Seq<Bbox>,
    /// The page has text facts already.
    pub has_text: bool,
    pub healthy: Seq<TextItem>,
}

/// What one recognized fact adds: facts and warnings.
pub open spec fn added(s: Setting, fact: OcrTextItem, index: int) -> (
    Seq<FactModel>,
    Seq<WarningModel>,
) {
    if !is_valid_fact(fact, index, s.page_bbox) {
        (Seq::empty(), seq![invalid_warning(index as nat)])
    } else if !is_wanted(fact, s.threshold, s.regions) || (s.has_text && is_drawn_rule(fact)) {
        (Seq::empty(), Seq::empty())
    } else {
        kept_of(s.rules, recognized(fact, s.page, index as u32), s.healthy)
    }
}

/// What the first `n` recognized facts add.
pub open spec fn added_upto(s: Setting, facts: Seq<OcrTextItem>, n: int) -> (
    Seq<FactModel>,
    Seq<WarningModel>,
)
    decreases n,
{
    if n <= 0 {
        (Seq::empty(), Seq::empty())
    } else {
        let before = added_upto(s, facts, n - 1);
        let more = added(s, facts[n - 1], n - 1);
        (before.0 + more.0, before.1 + more.1)
    }
}

/// Boxes, of the first `n` facts, that are reliable and meet a box.
pub open spec fn reliable_boxes(facts: Seq<FactModel>, b: Bbox, n: int) -> Seq<Bbox>
    decreases n,
{
    if n <= 0 {
        Seq::empty()
    } else {
        let before = reliable_boxes(facts, b, n - 1);
        let f = facts[n - 1];
        if f.confidence is Some && f.confidence->0 >= RELIABLE && f.bbox.shared_area(b) > 0 {
            before.push(f.bbox)
        } else {
            before
        }
    }
}

/// Whether reliable recognized text replaces a native fact.
pub open spec fn is_replaced(facts: Seq<FactModel>, native: TextItem, unusable: bool) -> bool {
    &&& unusable
    &&& native.bbox.valid()
    &&& mostly_covered(native.bbox, reliable_boxes(facts, native.bbox, facts.len() as int))
}

/// Whether a native fact that is not replaced stands in the way of a recognized one.
pub open spec fn is_blocked(
    facts: Seq<FactModel>,
    items: Seq<TextItem>,
    unusable: Seq<bool>,
    b: Bbox,
) -> bool {
    exists|i: int|
        0 <= i < items.len() && unusable[i] && !is_replaced(facts, items[i], unusable[i])
            && half_shared((#[trigger] items[i]).bbox, b)
}

/// The recognized facts, of the first `n`, that no native fact blocks.
pub open spec fn free_upto(
    facts: Seq<FactModel>,
    items: Seq<TextItem>,
    unusable: Seq<bool>,
    n: int,
) -> Seq<FactModel>
    decreases n,
{
    if n <= 0 {
        Seq::empty()
    } else {
        let before = free_upto(facts, items, unusable, n - 1);
        if is_blocked(facts, items, unusable, facts[n - 1].bbox) {
            before
        } else {
            before.push(facts[n - 1])
        }
    }
}

/// The native facts, of the first `n`, that are replaced or that are kept.
pub open spec fn sifted(
    facts: Seq<FactModel>,
    items: Seq<TextItem>,
    unusable: Seq<bool>,
    replaced: bool,
    n: int,
) -> Seq<TextItem>
    decreases n,
{
    if n <= 0 {
        Seq::empty()
    } else {
        let before = sifted(facts, items, unusable, replaced, n - 1);
        if is_replaced(facts, items[n - 1], unusable[n - 1]) == replaced {
            before.push(items[n - 1])
        } else {
            before
        }
    }
}

/// The recognized facts that join the native ones.
pub open spec fn joining(
    facts: Seq<FactModel>,
    items: Seq<TextItem>,
    unusable: Seq<bool>,
) -> Seq<FactModel> {
    spaced_words(free_upto(facts, items, unusable, facts.len() as int))
}

impl OcrMerger {
    /// Whether nothing is merged.
    pub open spec fn is_idle(self) -> bool {
        self.config.policy == OcrPolicy::Disabled || self.missing_regions@.len() == 0
    }

    /// What the merging of facts looks at.
    pub open spec fn setting(
        self,
        rules: TextRules,
        items: Seq<TextItem>,
        unusable: Seq<bool>,
    ) -> Setting {
        Setting {
            rules,
            threshold: self.config.recognition_threshold as int,
            page: self.page_number as nat,
            page_bbox: self.page_bbox,
            regions: self.missing_regions@,
            has_text: items.len() > 0,
            healthy: topmost_first(healthy_upto(items, unusable, items.len() as int)),
        }
    }
}

/// The warning about a missing engine.
pub open spec fn unavailable_warning() -> WarningModel {
    WarningModel {
        code: "OcrUnavailable"@,
        stage: "ocr"@,
        message: "OCR was requested but no engine was available"@,
    }
}

/// The warning about a failed engine.
pub open spec fn failed_warning(message: Seq<char>) -> WarningModel {
    WarningModel { code: "OcrFailed"@, stage: "ocr"@, message }
}

/// The native facts that recognized text must not repeat.
fn list_healthy(items: &Vec<TextItem>, unusable: &Vec<bool>) -> (healthy: Vec<TextItem>)
    requires
        unusable@.len() == items@.len(),
    ensures
        healthy@ == healthy_upto(items@, unusable@, items@.len() as int),
{
    let mut healthy: Vec<TextItem> = Vec::new();
    let mut i: usize = 0;
    while i < items.len()
        invariant
            unusable@.len() == items@.len(),
            i <= items@.len(),
            healthy@ == healthy_upto(items@, unusable@, i as int),
        decreases items@.len() - i,
    {
        let item: &TextItem = &items[i];
        let native: bool = match item.source {
            TextSource::Native => true,
            TextSource::Ocr => false,
        };
        if native && !unusable[i] && has_ink(&item.raw_text) {
            healthy.push(item.copy());
        }
        i = i + 1;
    }
    healthy
}

/// Whether a text is more than blanks.
fn has_ink(text: &Rope) -> (yes: bool)
    ensures
        yes == (trim_of(text@).len() > 0),
{
    let all: String = text.to_text();
    trim(all.as_str()).unicode_len() > 0
}

/// Whether a recognized fact is a drawn rule taken for text.
fn drawn_rule(fact: &OcrTextItem) -> (yes: bool)
    ensures
        yes == is_drawn_rule(*fact),
{
    if fact.bbox.width() <= 10 * fact.bbox.height() {
        return false;
    }
    let text: Vec<char> = chars_of(trim(fact.text.as_str()));
    let mut i: usize = 0;
    while i < text.len()
        invariant
            text@ == trim_of(fact.text@),
            i <= text@.len(),
            fact.bbox.wide() > 10 * fact.bbox.high(),
            forall|k: int| 0 <= k < i ==> is_rule_mark(#[trigger] trim_of(fact.text@)[k]),
        decreases text@.len() - i,
    {
        let c: char = text[i];
        if !(c == '|' || c == '_' || c == '─' || c == '—') {
            assert(!is_rule_mark(trim_of(fact.text@)[i as int]));
            return false;
        }
        i = i + 1;
    }
    true
}

/// The text fact of a recognized fact.
fn recognize(fact: &OcrTextItem, page_number: u32, index: u32) -> (item: TextItem)
    requires
        is_probability(fact.confidence as int),
    ensures
        item@ == recognized(*fact, page_number as nat, index),
{
    let (baseline, rotation, height): (Baseline, Rotation, i32) = match fact.quad {
        Some(q) => (Baseline { start: q.quad.d, end: q.quad.c }, q.rotation, q.height),
        None => (
            Baseline {
                start: Point { x: fact.bbox.left, y: fact.bbox.bottom },
                end: Point { x: fact.bbox.right, y: fact.bbox.bottom },
            },
            Rotation::upright(),
            narrow(fact.bbox.height()),
        ),
    };
    let quad: Option<Quad> = match fact.quad {
        Some(q) => Some(q.quad),
        None => None,
    };
    let mut text: String = String::new();
    push_text(&mut text, trim(fact.text.as_str()));
    let mut name: String = String::new();
    push_text(&mut name, "OCR");
    assert(text@ =~= trim_of(fact.text@));
    assert(name@ =~= "OCR"@);
    let item = TextItem {
        id: TextItemId::ocr(page_number, index),
        raw_text: Rope::new(text),
        raw_bbox: Some(fact.bbox),
        bbox: fact.bbox,
        rotation,
        baseline: Some(baseline),
        style: Some(
            TextStyle {
                font_name: Some(name),
                font_size: Some(height),
                font_height: Some(height),
                font_size_estimated: true,
                ..TextStyle::unknown()
            },
        ),
        source: TextSource::Ocr,
        quad,
        confidence: Some(fact.confidence as u32),
        extraction_order: index,
        final_order: 0,
        watermark: false,
        provenance: None,
        repair_actions: Arc::new(Vec::new()),
    };
    assert(item@ =~= recognized(*fact, page_number as nat, index));
    item
}

/// The warning about an unusable recognized fact.
pub fn warn_invalid(warnings: &mut Vec<PageWarning>, index: u64)
    ensures
        warning_models(final(warnings)@) == warning_models(old(warnings)@).push(
            invalid_warning(index as nat),
        ),
{
    let mut message: String = String::new();
    push_text(&mut message, "ignored OCR result ");
    push_decimal(&mut message, index);
    let warning: PageWarning = PageWarning::new("InvalidOcrResult", "ocr", message);
    assert(warning@ =~= invalid_warning(index as nat));
    warn(warnings, warning);
}

/// What lists of facts say, one behind the other.
proof fn lemma_models_join(a: Seq<TextItem>, b: Seq<TextItem>)
    ensures
        fact_models(a + b) == fact_models(a) + fact_models(b),
{
    assert(fact_models(a + b) =~= fact_models(a) + fact_models(b));
}

impl OcrMerger {
    /// Whether a recognized fact is usable at all.
    fn valid_fact(&self, fact: &OcrTextItem, index: usize) -> (yes: bool)
        ensures
            yes == is_valid_fact(*fact, index as int, self.page_bbox),
    {
        let inside: bool = match &fact.outline {
            None => true,
            Some(outline) => fact.bbox.contains(outline),
        };
        index as u64 <= u32::MAX as u64 && trim(fact.text.as_str()).unicode_len() > 0 && 0
            <= fact.confidence && fact.confidence <= WHOLE as i64 && fact.bbox.is_valid()
            && self.page_bbox.contains(&fact.bbox) && inside
    }

    /// Whether a recognized fact is sure enough and lies in a region without text.
    fn wanted(&self, fact: &OcrTextItem) -> (yes: bool)
        ensures
            yes == is_wanted(
                *fact,
                self.config.recognition_threshold as int,
                self.missing_regions@,
            ),
    {
        if fact.confidence <= 100_000 || fact.confidence < self.config.recognition_threshold as i64 {
            return false;
        }
        let mut i: usize = 0;
        while i < self.missing_regions.len()
            invariant
                fact.confidence > 100_000,
                fact.confidence >= self.config.recognition_threshold,
                i <= self.missing_regions@.len(),
                forall|k: int|
                    0 <= k < i ==> !half_shared(#[trigger] self.missing_regions@[k], fact.bbox),
            decreases self.missing_regions@.len() - i,
        {
            if is_half_shared(&self.missing_regions[i], &fact.bbox) {
                assert(half_shared(self.missing_regions@[i as int], fact.bbox));
                return true;
            }
            i = i + 1;
        }
        false
    }

    /// Accepts recognized facts beside the native ones.
    fn accept(
        &self,
        rules: &TextRules,
        items: &Vec<TextItem>,
        unusable: &Vec<bool>,
        facts: &Vec<OcrTextItem>,
        warnings: &mut Vec<PageWarning>,
    ) -> (accepted: Vec<TextItem>)
        requires
            unusable@.len() == items@.len(),
        ensures
            ({
                let s = self.setting(*rules, items@, unusable@);
                let all = added_upto(s, facts@, facts@.len() as int);
                &&& fact_models(accepted@) == all.0
                &&& warning_models(final(warnings)@) == warning_models(old(warnings)@) + all.1
            }),
    {
        let ghost s = self.setting(*rules, items@, unusable@);
        let ghost before = warning_models(warnings@);
        let index: TextIndex = TextIndex::new(list_healthy(items, unusable));
        let has_text: bool = items.len() > 0;
        let mut accepted: Vec<TextItem> = Vec::new();
        let mut i: usize = 0;
        assert(fact_models(accepted@) =~= Seq::empty());
        assert(before + Seq::<WarningModel>::empty() =~= before);
        while i < facts.len()
            invariant
                s == self.setting(*rules, items@, unusable@),
                index.wf(),
                index@ == s.healthy,
                has_text == s.has_text,
                i <= facts@.len(),
                fact_models(accepted@) == added_upto(s, facts@, i as int).0,
                warning_models(warnings@) == before + added_upto(s, facts@, i as int).1,
            decreases facts@.len() - i,
        {
            let fact: &OcrTextItem = &facts[i];
            let ghost so_far = added_upto(s, facts@, i as int);
            let ghost more = added(s, facts@[i as int], i as int);
            if !self.valid_fact(fact, i) {
                warn_invalid(warnings, i as u64);
                assert(before + (so_far.1 + more.1) =~= (before + so_far.1).push(
                    invalid_warning(i as nat),
                ));
                assert(so_far.0 + more.0 =~= so_far.0);
            } else if !self.wanted(fact) || (has_text && drawn_rule(fact)) {
                assert(so_far.0 + more.0 =~= so_far.0);
                assert(so_far.1 + more.1 =~= so_far.1);
            } else {
                let item: TextItem = recognize(fact, self.page_number, i as u32);
                let mut kept: Vec<TextItem> = without_native(rules, item, &index, warnings);
                let ghost list = accepted@;
                let ghost new = kept@;
                accepted.append(&mut kept);
                proof {
                    lemma_models_join(list, new);
                    assert(accepted@ =~= list + new);
                    assert(before + so_far.1 + more.1 =~= before + (so_far.1 + more.1));
                }
            }
            i = i + 1;
        }
        accepted
    }

    /// Keeps healthy native facts, archives reliably replaced ones, and reports
    /// failures without losing text. The archived facts are returned.
    pub fn merge(
        &self,
        rules: &TextRules,
        text_items: &mut Vec<TextItem>,
        unusable: &Vec<bool>,
        warnings: &mut Vec<PageWarning>,
        completion: OcrCompletion,
    ) -> (archived: Vec<TextItem>)
        requires
            unusable@.len() == old(text_items)@.len(),
        ensures
            self.is_idle() ==> archived@.len() == 0 && final(text_items)@ == old(text_items)@
                && final(warnings)@ == old(warnings)@,
            !self.is_idle() ==> match completion {
                OcrCompletion::Succeeded { result } => {
                    let old_items = old(text_items)@;
                    let s = self.setting(*rules, old_items, unusable@);
                    let facts = added_upto(s, result.items@, result.items@.len() as int);
                    let n = old_items.len() as int;
                    &&& archived@ == sifted(facts.0, old_items, unusable@, true, n)
                    &&& fact_models(final(text_items)@) == fact_models(
                        sifted(facts.0, old_items, unusable@, false, n),
                    ) + joining(facts.0, old_items, unusable@)
                    &&& warning_models(final(warnings)@) == warning_models(old(warnings)@)
                        + facts.1
                },
                OcrCompletion::Failed { message } => {
                    &&& archived@.len() == 0
                    &&& final(text_items)@ == old(text_items)@
                    &&& warning_models(final(warnings)@) == warning_models(old(warnings)@).push(
                        failed_warning(message@),
                    )
                },
                _ => {
                    &&& archived@.len() == 0
                    &&& final(text_items)@ == old(text_items)@
                    &&& warning_models(final(warnings)@) == warning_models(old(warnings)@).push(
                        unavailable_warning(),
                    )
                },
            },
    {
        let idle: bool = match self.config.policy {
            OcrPolicy::Disabled => true,
            _ => self.missing_regions.len() == 0,
        };
        if idle {
            return Vec::new();
        }
        match completion {
            OcrCompletion::Succeeded { result } => {
                let accepted: Vec<TextItem> = self.accept(
                    rules,
                    text_items,
                    unusable,
                    &result.items,
                    warnings,
                );
                settle(text_items, unusable, accepted)
            },
            OcrCompletion::Failed { message } => {
                let warning: PageWarning = PageWarning::new("OcrFailed", "ocr", message);
                assert(warning@ =~= failed_warning(message@));
                warn(warnings, warning);
                Vec::new()
            },
            _ => {
                let mut message: String = String::new();
                push_text(&mut message, "OCR was requested but no engine was available");
                let warning: PageWarning = PageWarning::new("OcrUnavailable", "ocr", message);
                assert(warning@ =~= unavailable_warning());
                warn(warnings, warning);
                Vec::new()
            },
        }
    }
}

/// Boxes of the facts that are reliable and meet a box.
fn list_reliable(facts: &Vec<TextItem>, b: &Bbox) -> (boxes: Vec<Bbox>)
    ensures
        boxes@ == reliable_boxes(fact_models(facts@), *b, facts@.len() as int),
{
    let mut boxes: Vec<Bbox> = Vec::new();
    let mut i: usize = 0;
    while i < facts.len()
        invariant
            i <= facts@.len(),
            boxes@ == reliable_boxes(fact_models(facts@), *b, i as int),
        decreases facts@.len() - i,
    {
        let fact: &TextItem = &facts[i];
        assert(fact_models(facts@)[i as int] == fact@);
        if let Some(confidence) = fact.confidence {
            if confidence >= RELIABLE && fact.bbox.intersection_area(b) > 0 {
                boxes.push(fact.bbox);
            }
        }
        i = i + 1;
    }
    boxes
}

/// Which native facts are replaced.
fn find_replaced(items: &Vec<TextItem>, unusable: &Vec<bool>, accepted: &Vec<TextItem>) -> (
    replaced: Vec<bool>)
    requires
        unusable@.len() == items@.len(),
    ensures
        replaced@.len() == items@.len(),
        forall|i: int|
            0 <= i < items@.len() ==> #[trigger] replaced@[i] == is_replaced(
                fact_models(accepted@),
                items@[i],
                unusable@[i],
            ),
{
    let mut replaced: Vec<bool> = Vec::new();
    let mut i: usize = 0;
    while i < items.len()
        invariant
            unusable@.len() == items@.len(),
            i <= items@.len(),
            replaced@.len() == i,
            forall|k: int|
                0 <= k < i ==> #[trigger] replaced@[k] == is_replaced(
                    fact_models(accepted@),
                    items@[k],
                    unusable@[k],
                ),
        decreases items@.len() - i,
    {
        let b: Bbox = items[i].bbox;
        let gone: bool = if unusable[i] && b.is_valid() {
            let boxes: Vec<Bbox> = list_reliable(accepted, &b);
            is_mostly_covered(&b, &boxes)
        } else {
            false
        };
        replaced.push(gone);
        i = i + 1;
    }
    replaced
}

/// Whether a native fact that is not replaced stands in the way of a box.
fn blocked(
    items: &Vec<TextItem>,
    unusable: &Vec<bool>,
    replaced: &Vec<bool>,
    b: &Bbox,
    Ghost(facts): Ghost<Seq<FactModel>>,
) -> (yes: bool)
    requires
        unusable@.len() == items@.len(),
        replaced@.len() == items@.len(),
        forall|i: int|
            0 <= i < items@.len() ==> #[trigger] replaced@[i] == is_replaced(
                facts,
                items@[i],
                unusable@[i],
            ),
    ensures
        yes == is_blocked(facts, items@, unusable@, *b),
{
    let mut i: usize = 0;
    while i < items.len()
        invariant
            unusable@.len() == items@.len(),
            replaced@.len() == items@.len(),
            forall|k: int|
                0 <= k < items@.len() ==> #[trigger] replaced@[k] == is_replaced(
                    facts,
                    items@[k],
                    unusable@[k],
                ),
            i <= items@.len(),
            forall|k: int|
                0 <= k < i ==> !(unusable@[k] && !is_replaced(facts, items@[k], unusable@[k])
                    && half_shared((#[trigger] items@[k]).bbox, *b)),
        decreases items@.len() - i,
    {
        assert(replaced@[i as int] == is_replaced(facts, items@[i as int], unusable@[i as int]));
        if unusable[i] && !replaced[i] && is_half_shared(&items[i].bbox, b) {
            assert(half_shared(items@[i as int].bbox, *b));
            return true;
        }
        i = i + 1;
    }
    false
}

/// Replaces unusable native facts by reliable recognized ones.
///
/// Replacement is a page-level decision: lines jointly cover a native fact, and
/// a repeated box never adds to the evidence.
fn settle(
    text_items: &mut Vec<TextItem>,
    unusable: &Vec<bool>,
    accepted: Vec<TextItem>,
) -> (archived: Vec<TextItem>)
    requires
        unusable@.len() == old(text_items)@.len(),
    ensures
        ({
            let old_items = old(text_items)@;
            let facts = fact_models(accepted@);
            let n = old_items.len() as int;
            &&& archived@ == sifted(facts, old_items, unusable@, true, n)
            &&& fact_models(final(text_items)@) == fact_models(
                sifted(facts, old_items, unusable@, false, n),
            ) + joining(facts, old_items, unusable@)
        }),
{
    let ghost facts = fact_models(accepted@);
    let ghost items = text_items@;
    let replaced: Vec<bool> = find_replaced(text_items, unusable, &accepted);
    let mut free: Vec<TextItem> = Vec::new();
    let mut i: usize = 0;
    assert(fact_models(free@) =~= Seq::empty());
    while i < accepted.len()
        invariant
            facts == fact_models(accepted@),
            items == text_items@,
            unusable@.len() == items.len(),
            replaced@.len() == items.len(),
            forall|k: int|
                0 <= k < items.len() ==> #[trigger] replaced@[k] == is_replaced(
                    facts,
                    items[k],
                    unusable@[k],
                ),
            i <= accepted@.len(),
            fact_models(free@) == free_upto(facts, items, unusable@, i as int),
        decreases accepted@.len() - i,
    {
        assert(facts[i as int] == accepted@[i as int]@);
        if !blocked(text_items, unusable, &replaced, &accepted[i].bbox, Ghost(facts)) {
            let ghost before = free@;
            free.push(accepted[i].copy());
            assert(fact_models(free@) =~= fact_models(before).push(accepted@[i as int]@));
        }
        i = i + 1;
    }
    let mut spaced: Vec<TextItem> = space_words(&free);
    let mut archived: Vec<TextItem> = Vec::new();
    let mut retained: Vec<TextItem> = Vec::new();
    let mut k: usize = 0;
    while k < text_items.len()
        invariant
            items == text_items@,
            unusable@.len() == items.len(),
            replaced@.len() == items.len(),
            forall|m: int|
                0 <= m < items.len() ==> #[trigger] replaced@[m] == is_replaced(
                    facts,
                    items[m],
                    unusable@[m],
                ),
            k <= items.len(),
            archived@ == sifted(facts, items, unusable@, true, k as int),
            retained@ == sifted(facts, items, unusable@, false, k as int),
        decreases items.len() - k,
    {
        assert(replaced@[k as int] == is_replaced(facts, items[k as int], unusable@[k as int]));
        if replaced[k] {
            archived.push(text_items[k].copy());
        } else {
            retained.push(text_items[k].copy());
        }
        k = k + 1;
    }
    let ghost kept = retained@;
    let ghost new = spaced@;
    retained.append(&mut spaced);
    proof {
        lemma_models_join(kept, new);
        assert(retained@ =~= kept + new);
    }
    *text_items = retained;
    archived
}

/// Every native fact is kept or archived, and none is both.
pub proof fn native_facts_are_conserved(
    facts: Seq<FactModel>,
    items: Seq<TextItem>,
    unusable: Seq<bool>,
)
    ensures
        sifted(facts, items, unusable, true, items.len() as int).to_multiset().add(
            sifted(facts, items, unusable, false, items.len() as int).to_multiset(),
        ) == items.to_multiset(),
{
    lemma_sifted(facts, items, unusable, items.len() as int);
    assert(items.take(items.len() as int) =~= items);
}

proof fn lemma_sifted(facts: Seq<FactModel>, items: Seq<TextItem>, unusable: Seq<bool>, n: int)
    requires
        0 <= n <= items.len(),
    ensures
        sifted(facts, items, unusable, true, n).to_multiset().add(
            sifted(facts, items, unusable, false, n).to_multiset(),
        ) == items.take(n).to_multiset(),
    decreases n,
{
    broadcast use vstd::seq_lib::group_to_multiset_ensures;

    if n > 0 {
        lemma_sifted(facts, items, unusable, n - 1);
        assert(items.take(n) =~= items.take(n - 1).push(items[n - 1]));
        let gone = sifted(facts, items, unusable, true, n).to_multiset();
        let kept = sifted(facts, items, unusable, false, n).to_multiset();
        assert(gone.add(kept) =~= items.take(n).to_multiset());
    } else {
        assert(items.take(0) =~= Seq::<TextItem>::empty());
        assert(Multiset::<TextItem>::empty().add(Multiset::empty()) =~= Multiset::empty());
    }
}

/// A usable native fact is never archived.
pub proof fn usable_facts_stay(facts: Seq<FactModel>, native: TextItem)
    ensures
        !is_replaced(facts, native, false),
{
}

} // verus!
