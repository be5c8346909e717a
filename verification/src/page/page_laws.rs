//! What of recognition, watermarks and references enters a page.

use vstd::prelude::*;

use crate::blocks::Block;
use crate::chars::{is_space, lowered, text_before, trim_of};
use crate::geometry::Bbox;
use crate::layout::LayoutDetection;
use crate::line::formula::{region_of, FormulaRegion};
use crate::ocr::plan::BoxOrder;
use crate::ocr::plan_laws::common_area;
use crate::ocr::OcrTextItem;
use crate::page::complete::{
    common_share, empties_upto, empty_warning, finished, half_under, is_empty_region, overlap,
    relabelled, warning_lt,
};
use crate::page::compose::{formulas_upto, parted_upto};
use crate::page::prepare::{
    agrees, is_missing, missing_of, native_upto, serves, stands_alone,
};
use crate::page::recognized::{
    adopted, adopted_upto, bare_upto, coincide, folded, is_overlay, is_repeat, is_sound, repeats,
    shows_overlay, squeezed_upto, Overlay,
};
use crate::sorting::{deduped_upto, sorted, sorting_holds_the_same, sorting_orders_and_keeps};
use crate::types::{FactModel, TextItem, TextSource, WarningModel};

verus! {

/// The area of a box.
pub open spec fn extent(b: Bbox) -> int {
    (b.right - b.left) * (b.bottom - b.top)
}

/// Whether a box has an extent and lies on the page, edges included.
pub open spec fn lies_inside(b: Bbox, page: Bbox) -> bool {
    page.left <= b.left && b.left < b.right && b.right <= page.right && page.top <= b.top && b.top
        < b.bottom && b.bottom <= page.bottom
}

/// Whether a text is spelled without blanks by another.
pub open spec fn leaves_out_blanks(s: Seq<char>, kept: Seq<char>, n: int) -> bool
    decreases n,
{
    if n <= 0 {
        kept.len() == 0
    } else if is_space(s[n - 1]) {
        leaves_out_blanks(s, kept, n - 1)
    } else {
        kept.len() > 0 && kept.last() == s[n - 1] && leaves_out_blanks(s, kept.drop_last(), n - 1)
    }
}

/// Texts are compared without their blanks and in lowercase: no blank is left, and no other
/// character is lost.
pub proof fn blanks_do_not_tell_texts_apart(s: Seq<char>, n: int)
    requires
        0 <= n <= s.len(),
    ensures
        leaves_out_blanks(s, squeezed_upto(s, n), n),
        forall|k: int|
            0 <= k < squeezed_upto(s, n).len() ==> !is_space(#[trigger] squeezed_upto(s, n)[k]),
        folded(s) == lowered(squeezed_upto(s, s.len() as int)),
    decreases n,
{
    if n > 0 {
        blanks_do_not_tell_texts_apart(s, n - 1);
        if !is_space(s[n - 1]) {
            assert(squeezed_upto(s, n).drop_last() =~= squeezed_upto(s, n - 1));
        }
    }
}

proof fn lemma_shared(a: Bbox, b: Bbox)
    ensures
        a.shared_area(b) == common_area(a, b),
{
    assert(a.shared_area(b) == common_area(a, b)) by (nonlinear_arith)
        requires
            a.shared_area(b) == vstd::math::max(a.overlap_x(b), 0) * vstd::math::max(
                a.overlap_y(b),
                0,
            ),
    {
    }
}

proof fn lemma_extent(b: Bbox)
    requires
        b.left < b.right,
        b.top < b.bottom,
    ensures
        extent(b) > 0,
        b.size() == extent(b),
{
    assert(extent(b) > 0) by (nonlinear_arith)
        requires
            extent(b) == (b.right - b.left) * (b.bottom - b.top),
            b.left < b.right,
            b.top < b.bottom,
    ;
}

/// A recognized text is one already read where native text spells the same at the same place:
/// they share four fifths of either.
pub proof fn repeated_text_stands_at_the_same_place(fact: OcrTextItem, item: TextItem)
    requires
        fact.bbox.left < fact.bbox.right,
        fact.bbox.top < fact.bbox.bottom,
        item.bbox.left < item.bbox.right,
        item.bbox.top < item.bbox.bottom,
    ensures
        repeats(fact, item) <==> item.source == TextSource::Native && folded(item.raw_text@)
            == folded(trim_of(fact.text@)) && (5 * common_area(item.bbox, fact.bbox) >= 4 * extent(
            item.bbox,
        ) || 5 * common_area(item.bbox, fact.bbox) >= 4 * extent(fact.bbox)),
{
    lemma_shared(item.bbox, fact.bbox);
    lemma_extent(item.bbox);
    lemma_extent(fact.bbox);
}

/// A recognized fact is sound where it shows something, has a probability and lies on the page,
/// with its outline.
pub proof fn sound_facts_lie_on_the_page(fact: OcrTextItem, page: Bbox)
    ensures
        is_sound(fact, page) <==> trim_of(fact.text@).len() > 0 && 0 <= fact.confidence
            <= 1_000_000 && lies_inside(fact.bbox, page) && (fact.outline is Some ==> lies_inside(
            fact.outline->0,
            page,
        )),
{
}

/// The facts that recognition adds are the sound ones that repeat no native text, each with its
/// text, its box and its confidence, resting on its lower edge.
pub proof fn sound_new_facts_are_adopted(
    facts: Seq<OcrTextItem>,
    items: Seq<TextItem>,
    page_number: nat,
    page: Bbox,
    n: int,
)
    requires
        0 <= n <= facts.len() <= u32::MAX,
    ensures
        forall|i: int|
            0 <= i < n && is_sound(#[trigger] facts[i], page) && !is_repeat(facts[i], items)
                ==> adopted_upto(facts, items, page_number, page, n).contains(
                adopted(facts[i], page_number, i as u32),
            ),
        forall|x: FactModel|
            #[trigger] adopted_upto(facts, items, page_number, page, n).contains(x) ==> exists|
                i: int,
            |
                0 <= i < n && is_sound(#[trigger] facts[i], page) && !is_repeat(facts[i], items)
                    && x.raw_text == facts[i].text@ && x.bbox == facts[i].bbox && x.source
                    == TextSource::Ocr && x.extraction_order == i && x.confidence == Some(
                    facts[i].confidence as u32,
                ) && x.baseline is Some && x.baseline->0.start.x == facts[i].bbox.left
                    && x.baseline->0.start.y == facts[i].bbox.bottom && x.baseline->0.end.x
                    == facts[i].bbox.right && x.baseline->0.end.y == facts[i].bbox.bottom
                    && !x.watermark,
    decreases n,
{
    if n > 0 {
        sound_new_facts_are_adopted(facts, items, page_number, page, n - 1);
        let before = adopted_upto(facts, items, page_number, page, n - 1);
        let after = adopted_upto(facts, items, page_number, page, n);
        assert forall|i: int|
            0 <= i < n && is_sound(#[trigger] facts[i], page) && !is_repeat(
                facts[i],
                items,
            ) implies after.contains(adopted(facts[i], page_number, i as u32)) by {
            let x = adopted(facts[i], page_number, i as u32);
            if i < n - 1 {
                assert(before.contains(x));
                let k = before.index_of(x);
                assert(after[k] == x);
            } else {
                assert(after[before.len() as int] == x);
            }
        }
        assert forall|x: FactModel| #[trigger] after.contains(x) implies exists|i: int|
            0 <= i < n && is_sound(#[trigger] facts[i], page) && !is_repeat(facts[i], items)
                && x.raw_text == facts[i].text@ && x.bbox == facts[i].bbox && x.source
                == TextSource::Ocr && x.extraction_order == i && x.confidence == Some(
                facts[i].confidence as u32,
            ) && x.baseline is Some && x.baseline->0.start.x == facts[i].bbox.left
                && x.baseline->0.start.y == facts[i].bbox.bottom && x.baseline->0.end.x
                == facts[i].bbox.right && x.baseline->0.end.y == facts[i].bbox.bottom
                && !x.watermark by {
            let k = after.index_of(x);
            if k < before.len() {
                assert(before[k] == x);
                assert(before.contains(x));
                let i = choose|i: int|
                    0 <= i < n - 1 && is_sound(#[trigger] facts[i], page) && !is_repeat(
                        facts[i],
                        items,
                    ) && x.raw_text == facts[i].text@ && x.bbox == facts[i].bbox && x.source
                        == TextSource::Ocr && x.extraction_order == i && x.confidence == Some(
                        facts[i].confidence as u32,
                    ) && x.baseline is Some && x.baseline->0.start.x == facts[i].bbox.left
                        && x.baseline->0.start.y == facts[i].bbox.bottom && x.baseline->0.end.x
                        == facts[i].bbox.right && x.baseline->0.end.y == facts[i].bbox.bottom
                        && !x.watermark;
                assert(is_sound(facts[i], page));
            } else {
                assert(is_sound(facts[n - 1], page));
            }
        }
    }
}

/// What recognition shows of a watermark is left out, and nothing else: a fact with the text of
/// one at its place.
pub proof fn watermarks_are_not_recognized(
    facts: Seq<OcrTextItem>,
    overlays: Seq<Overlay>,
    n: int,
    fact: OcrTextItem,
)
    requires
        0 <= n <= facts.len(),
    ensures
        bare_upto(facts, overlays, n).contains(fact) <==> (exists|i: int|
            0 <= i < n && #[trigger] facts[i] == fact) && forall|k: int|
            0 <= k < overlays.len() ==> !((#[trigger] overlays[k]).text@.len() > 0 && folded(
                overlays[k].text@,
            ) == folded(fact.text@) && coincide(overlays[k].bbox, fact.bbox)),
    decreases n,
{
    if n > 0 {
        watermarks_are_not_recognized(facts, overlays, n - 1, fact);
        let before = bare_upto(facts, overlays, n - 1);
        let after = bare_upto(facts, overlays, n);
        assert(is_overlay(fact, overlays) <==> exists|k: int|
            0 <= k < overlays.len() && ((#[trigger] overlays[k]).text@.len() > 0 && folded(
                overlays[k].text@,
            ) == folded(fact.text@) && coincide(overlays[k].bbox, fact.bbox))) by {
            if is_overlay(fact, overlays) {
                let k = choose|k: int|
                    0 <= k < overlays.len() && #[trigger] shows_overlay(fact, overlays[k]);
                assert(overlays[k].text@.len() > 0);
            }
            if exists|k: int|
                0 <= k < overlays.len() && ((#[trigger] overlays[k]).text@.len() > 0 && folded(
                    overlays[k].text@,
                ) == folded(fact.text@) && coincide(overlays[k].bbox, fact.bbox)) {
                let k = choose|k: int|
                    0 <= k < overlays.len() && ((#[trigger] overlays[k]).text@.len() > 0 && folded(
                        overlays[k].text@,
                    ) == folded(fact.text@) && coincide(overlays[k].bbox, fact.bbox));
                assert(shows_overlay(fact, overlays[k]));
            }
        }
        if after.contains(fact) {
            let k = after.index_of(fact);
            if k < before.len() {
                assert(before[k] == fact);
                assert(before.contains(fact));
            } else {
                assert(facts[n - 1] == fact);
            }
        }
        if before.contains(fact) {
            let k = before.index_of(fact);
            assert(after[k] == fact);
        }
        if facts[n - 1] == fact && !is_overlay(fact, overlays) {
            assert(after[before.len() as int] == fact);
        }
        if exists|i: int| 0 <= i < n && #[trigger] facts[i] == fact {
            let i = choose|i: int| 0 <= i < n && #[trigger] facts[i] == fact;
            if i < n - 1 {
                assert(facts[i] == fact);
            }
        }
    }
}

/// Watermarks are parted from text: each fact is in exactly the part of its kind.
pub proof fn watermarks_are_parted_from_text(
    items: Seq<TextItem>,
    watermark: bool,
    n: int,
    item: TextItem,
)
    requires
        0 <= n <= items.len(),
    ensures
        parted_upto(items, watermark, n).contains(item) <==> item.watermark == watermark && exists|
            i: int,
        | 0 <= i < n && #[trigger] items[i] == item,
        parted_upto(items, watermark, n).len() + parted_upto(items, !watermark, n).len() == n,
    decreases n,
{
    if n > 0 {
        watermarks_are_parted_from_text(items, watermark, n - 1, item);
        let before = parted_upto(items, watermark, n - 1);
        let after = parted_upto(items, watermark, n);
        if after.contains(item) {
            let k = after.index_of(item);
            if k < before.len() {
                assert(before[k] == item);
                assert(before.contains(item));
            } else {
                assert(items[n - 1] == item);
            }
        }
        if before.contains(item) {
            let k = before.index_of(item);
            assert(after[k] == item);
        }
        if items[n - 1] == item && item.watermark == watermark {
            assert(after[before.len() as int] == item);
        }
    }
}

/// The formulas of a page are those of the detections that bound one and lie on the page, with
/// their outlines.
pub proof fn formulas_lie_on_the_page(
    detections: Seq<LayoutDetection>,
    page: Bbox,
    n: int,
    region: FormulaRegion,
)
    requires
        0 <= n <= detections.len(),
    ensures
        formulas_upto(detections, page, n).contains(region) <==> exists|i: int|
            0 <= i < n && region_of(#[trigger] detections[i]) == Some(region) && lies_inside(
                detections[i].bbox,
                page,
            ) && (detections[i].outline is Some ==> lies_inside(
                detections[i].outline->0.bbox,
                page,
            )),
    decreases n,
{
    if n > 0 {
        formulas_lie_on_the_page(detections, page, n - 1, region);
        let before = formulas_upto(detections, page, n - 1);
        let after = formulas_upto(detections, page, n);
        if after.contains(region) {
            let k = after.index_of(region);
            if k < before.len() {
                assert(before[k] == region);
                assert(before.contains(region));
            } else {
                assert(region_of(detections[n - 1]) == Some(region));
            }
        }
        if before.contains(region) {
            let k = before.index_of(region);
            assert(after[k] == region);
        }
        let d = detections[n - 1];
        if region_of(d) == Some(region) && lies_inside(d.bbox, page) && (d.outline is Some
            ==> lies_inside(d.outline->0.bbox, page)) {
            assert(after[before.len() as int] == region);
        }
    }
}

/// A detection misses its text where it is to hold some, lies on the page, and of no fact that is
/// no watermark a sufficient share, in millionths, lies in it.
pub proof fn regions_without_text_are_missing(
    d: LayoutDetection,
    items: Seq<TextItem>,
    page: Bbox,
    coverage: int,
)
    requires
        forall|i: int|
            0 <= i < items.len() ==> (#[trigger] items[i]).bbox.left < items[i].bbox.right
                && items[i].bbox.top < items[i].bbox.bottom,
    ensures
        is_missing(d, items, page, coverage) <==> !(d.label is InlineFormula) && !(
        d.label is Reference) && lies_inside(d.bbox, page) && forall|i: int|
            0 <= i < items.len() && !(#[trigger] items[i]).watermark ==> 1_000_000 * common_area(
                items[i].bbox,
                d.bbox,
            ) < coverage * extent(items[i].bbox),
{
    assert forall|i: int| 0 <= i < items.len() implies (serves(
        #[trigger] items[i],
        d.bbox,
        coverage,
    ) <==> !items[i].watermark && 1_000_000 * common_area(items[i].bbox, d.bbox) >= coverage
        * extent(items[i].bbox)) by {
        lemma_shared(items[i].bbox, d.bbox);
        lemma_extent(items[i].bbox);
    }
}

/// The native area of a page grows by the area of each fact that is no watermark.
pub proof fn native_area_counts_text(items: Seq<TextItem>, n: int)
    requires
        0 <= n < items.len(),
        items[n].bbox.left < items[n].bbox.right,
        items[n].bbox.top < items[n].bbox.bottom,
    ensures
        native_upto(items, 0) == 0,
        items[n].watermark ==> native_upto(items, n + 1) == native_upto(items, n),
        !items[n].watermark ==> native_upto(items, n + 1) == native_upto(items, n) + extent(
            items[n].bbox,
        ),
{
    lemma_extent(items[n].bbox);
}

/// Body text at least half under a reference becomes bibliography text; every other block keeps
/// its label and its text. No block moves.
pub proof fn referenced_text_becomes_bibliography(
    block: Block,
    references: Seq<Block>,
    texts: Seq<(crate::blocks::BlockId, String)>,
)
    ensures
        ({
            let done = relabelled(block, references, texts);
            let under = exists|r: int|
                0 <= r < references.len() && 2 * common_area(
                    block.bbox,
                    (#[trigger] references[r]).bbox,
                ) >= extent(block.bbox);
            &&& block.label is Text && under ==> done.label is ReferenceContent
            &&& !(block.label is Text) || !under ==> done == block
            &&& done.id == block.id && done.bbox == block.bbox && done.lines == block.lines
                && done.final_order == block.final_order
        }),
{
    let under = exists|r: int|
        0 <= r < references.len() && 2 * common_area(block.bbox, (#[trigger] references[r]).bbox)
            >= extent(block.bbox);
    assert(block.bbox.size() == extent(block.bbox));
    if under {
        let r = choose|r: int|
            0 <= r < references.len() && 2 * common_area(
                block.bbox,
                (#[trigger] references[r]).bbox,
            ) >= extent(block.bbox);
        lemma_shared(block.bbox, references[r].bbox);
        assert(half_under(block, references[r]));
    }
    if crate::page::complete::is_referenced(block, references) {
        let r = choose|r: int| 0 <= r < references.len() && #[trigger] half_under(
            block,
            references[r],
        );
        lemma_shared(block.bbox, references[r].bbox);
        assert(references[r].bbox == references[r].bbox);
    }
}

/// A page holds its body, then its references, then its watermarks, each in the order given; the
/// last two are numbered on behind the body.
pub proof fn pages_end_with_references_and_watermarks(
    body: Seq<Block>,
    references: Seq<Block>,
    watermarks: Seq<Block>,
    texts: Seq<(crate::blocks::BlockId, String)>,
    i: int,
)
    requires
        0 <= i,
        body.len() + references.len() + watermarks.len() < u32::MAX,
    ensures
        ({
            let all = finished(body, references, watermarks, texts);
            let (b, r, w) = (
                body.len() as int,
                references.len() as int,
                watermarks.len() as int,
            );
            &&& all.len() == b + r + w
            &&& i < b ==> all[i].id == body[i].id && all[i].final_order == body[i].final_order
            &&& i < r ==> all[b + i].id == references[i].id && all[b + i].final_order == b + i
            &&& i < w ==> all[b + r + i].id == watermarks[i].id && all[b + r + i].final_order == b
                + r + i
        }),
{
}

/// A block misses its text where it is prose or a title and has no line, and each such block, and
/// no other, is warned about.
pub proof fn empty_blocks_are_warned_about(blocks: Seq<Block>, n: int, w: WarningModel)
    requires
        0 <= n <= blocks.len(),
    ensures
        empties_upto(blocks, n).contains(w) <==> exists|i: int|
            0 <= i < n && is_empty_region(#[trigger] blocks[i]) && w == empty_warning(
                blocks[i].id@,
            ),
    decreases n,
{
    if n > 0 {
        empty_blocks_are_warned_about(blocks, n - 1, w);
        let before = empties_upto(blocks, n - 1);
        let after = empties_upto(blocks, n);
        if after.contains(w) {
            let k = after.index_of(w);
            if k < before.len() {
                assert(before[k] == w);
                assert(before.contains(w));
            } else {
                assert(is_empty_region(blocks[n - 1]));
            }
        }
        if before.contains(w) {
            let k = before.index_of(w);
            assert(after[k] == w);
        }
        if is_empty_region(blocks[n - 1]) && w == empty_warning(blocks[n - 1].id@) {
            assert(after[before.len() as int] == w);
        }
    }
}

/// Which blocks are to hold text: prose and titles, by their labels.
pub proof fn prose_and_titles_are_to_hold_text(block: Block)
    ensures
        is_empty_region(block) <==> block.lines@.len() == 0 && {
            let l = block.label;
            l is Abstract || l is AsideText || l is Content || l is Footnote || l is ReferenceContent
                || l is Text || l is VerticalText || l is VisionFootnote || l is DocTitle
                || l is FigureTitle || l is ParagraphTitle
        },
{
}

/// Two blocks of the body overlap where their boxes share an area, whichever is named first, and
/// the share of their common area in both, in millionths, is off by at most half of one.
pub proof fn overlaps_measure_common_areas(a: Block, b: Block)
    requires
        a.bbox.left < a.bbox.right,
        a.bbox.top < a.bbox.bottom,
        b.bbox.left < b.bbox.right,
        b.bbox.top < b.bbox.bottom,
    ensures
        overlap(a, b) <==> !(a.label is Watermark) && !(a.label is Reference) && !(
        b.label is Watermark) && !(b.label is Reference) && common_area(a.bbox, b.bbox) > 0,
        overlap(a, b) == overlap(b, a),
        ({
            let common = common_area(a.bbox, b.bbox);
            let whole = extent(a.bbox) + extent(b.bbox) - common;
            whole > 0 ==> -whole <= 2 * (common_share(a.bbox, b.bbox) * whole) - 2_000_000 * common
                <= whole
        }),
{
    lemma_shared(a.bbox, b.bbox);
    lemma_extent(a.bbox);
    lemma_extent(b.bbox);
    let (x, y) = (a.bbox.overlap_x(b.bbox), a.bbox.overlap_y(b.bbox));
    assert(vstd::math::max(x, 0) * vstd::math::max(y, 0) > 0 <==> x > 0 && y > 0) by (nonlinear_arith);
    let common = common_area(a.bbox, b.bbox);
    assert(common >= 0) by (nonlinear_arith)
        requires
            common == vstd::math::max(x, 0) * vstd::math::max(y, 0),
    ;
    let whole = extent(a.bbox) + extent(b.bbox) - common;
    if whole > 0 {
        let top = 2_000_000 * common + whole;
        let q = top / (2 * whole);
        vstd::arithmetic::div_mod::lemma_fundamental_div_mod(top, 2 * whole);
        vstd::arithmetic::div_mod::lemma_mod_bound(top, 2 * whole);
        vstd::arithmetic::div_mod::lemma_div_pos_is_pos(top, 2 * whole);
        assert((2 * whole) * q == 2 * (q * whole)) by (nonlinear_arith);
    }
}

/// Warnings come in the order of their stages, then of their codes, then of their messages.
pub proof fn warnings_come_by_stage(a: WarningModel, b: WarningModel)
    ensures
        a.stage != b.stage ==> (warning_lt(a, b) <==> text_before(a.stage, b.stage)),
        a.stage == b.stage && a.code != b.code ==> (warning_lt(a, b) <==> text_before(
            a.code,
            b.code,
        )),
        a.stage == b.stage && a.code == b.code ==> (warning_lt(a, b) <==> text_before(
            a.message,
            b.message,
        )),
{
}

/// A page agrees with its document where it has a number of it, or is the one page that the
/// document was made for, an extent, and stands upright or is turned by quarters.
pub proof fn pages_agree_with_their_documents(
    page: crate::extract::metadata::ExtractedPage,
    context: crate::context::builder::DocumentContext,
)
    ensures
        agrees(page, context) ==> page.page_number >= 1 && page.width > 0 && page.height > 0 && (
        page.rotation == 0 || page.rotation == 90 || page.rotation == 180 || page.rotation == 270),
        page.page_number >= 1 && page.page_number <= context.page_count && page.width > 0
            && page.height > 0 && (page.rotation == 0 || page.rotation == 90 || page.rotation == 180
            || page.rotation == 270) ==> agrees(page, context),
        page.page_number > context.page_count && !stands_alone(context, page.page_number)
            ==> !agrees(page, context),
{
}

/// A page that shows nothing but watermarks is recognized as one region: its content where it is
/// known, else the page.
pub proof fn pages_without_text_are_one_region(
    page: crate::extract::metadata::ExtractedPage,
    detections: Seq<LayoutDetection>,
    coverage: int,
)
    requires
        forall|i: int|
            0 <= i < page.text_items@.len() ==> (#[trigger] page.text_items@[i]).watermark,
    ensures
        missing_of(page, detections, coverage).len() == 1,
        page.content_bounds matches Some(b) ==> missing_of(page, detections, coverage)[0] == b,
        page.content_bounds is None ==> missing_of(page, detections, coverage)[0] == (Bbox {
            left: 0,
            top: 0,
            right: page.width,
            bottom: page.height,
        }),
{
    let found = seq![
        match page.content_bounds {
            Some(bounds) => bounds,
            None => crate::page::prepare::page_box(page),
        },
    ];
    let s = sorted(found, BoxOrder);
    sorting_orders_and_keeps(found, BoxOrder);
    sorting_holds_the_same(found, BoxOrder, s[0]);
    assert(s.contains(s[0]));
    let k = found.index_of(s[0]);
    assert(s[0] == found[0]);
    assert(deduped_upto(s, 0).len() == 0);
    assert(deduped_upto(s, 1) =~= seq![s[0]]);
}

} // verus!
