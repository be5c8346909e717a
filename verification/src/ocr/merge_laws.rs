//! What recognized text adds to a page, and what it replaces.

use vstd::prelude::*;

use super::coverage::{any_covers, column, columns, covered, covers};
use super::index::hits;
use super::merge::{
    added, free_upto, healthy_upto, is_blocked, is_replaced, recognized, reliable_boxes, Setting,
};
use super::overlap::{half_shared, kept_of, lonely_lines_are_kept, mostly_covered};
use super::plan_laws::common_area;
use super::OcrTextItem;
use crate::chars::trim_of;
use crate::geometry::Bbox;
use crate::types::{FactModel, TextItem, TextSource, WarningModel};

verus! {

/// Whether two boxes share at least half of the smaller one.
pub open spec fn overlap_by_half(a: Bbox, b: Bbox) -> bool {
    let x = (a.right - a.left) * (a.bottom - a.top);
    let y = (b.right - b.left) * (b.bottom - b.top);
    x > 0 && y > 0 && (2 * common_area(a, b) >= x || 2 * common_area(a, b) >= y)
}

proof fn lemma_half(a: Bbox, b: Bbox)
    ensures
        half_shared(a, b) == overlap_by_half(a, b),
{
    lemma_shared(a, b);
}

proof fn lemma_shared(a: Bbox, b: Bbox)
    ensures
        a.shared_area(b) == common_area(a, b),
{
    let w = vstd::math::max(a.overlap_x(b), 0);
    let h = vstd::math::max(a.overlap_y(b), 0);
    if w == 0 || h == 0 {
        assert(w * h == 0) by (nonlinear_arith)
            requires
                w == 0 || h == 0,
        ;
    }
}

/// Whether a recognized fact can be used: its text shows something, its confidence is a
/// probability, its box has an extent on the page and holds its outline.
pub open spec fn is_sound_fact(fact: OcrTextItem, page: Bbox) -> bool {
    &&& trim_of(fact.text@).len() > 0
    &&& 0 <= fact.confidence <= 1_000_000
    &&& fact.bbox.left < fact.bbox.right && fact.bbox.top < fact.bbox.bottom
    &&& page.left <= fact.bbox.left && page.top <= fact.bbox.top && fact.bbox.right <= page.right
        && fact.bbox.bottom <= page.bottom
    &&& fact.outline is Some ==> fact.bbox.left <= fact.outline->0.left && fact.bbox.top
        <= fact.outline->0.top && fact.outline->0.right <= fact.bbox.right
        && fact.outline->0.bottom <= fact.bbox.bottom
}

/// Whether a text is a rule taken for text: strokes alone, more than ten times as wide as high.
pub open spec fn is_mere_rule(fact: OcrTextItem) -> bool {
    &&& fact.bbox.right - fact.bbox.left > 10 * (fact.bbox.bottom - fact.bbox.top)
    &&& forall|k: int|
        0 <= k < trim_of(fact.text@).len() ==> (#[trigger] trim_of(fact.text@)[k] == '|' || trim_of(
            fact.text@,
        )[k] == '_' || trim_of(fact.text@)[k] == '─' || trim_of(fact.text@)[k] == '—')
}

/// A recognized fact that cannot be used adds a warning alone. One that is not surer than a tenth
/// or not as sure as was asked for, one outside the regions that were to be read, and a drawn rule
/// on a page that has text, add nothing. Any other that shares less than half with every usable
/// native fact is added, with its text without blanks at the ends, its box and its confidence.
pub proof fn sure_facts_in_asked_regions_are_added(s: Setting, fact: OcrTextItem, index: int)
    requires
        0 <= index <= 0xFFFF_FFFF,
    ensures
        ({
            let asked = exists|i: int|
                0 <= i < s.regions.len() && overlap_by_half(#[trigger] s.regions[i], fact.bbox);
            let free = forall|i: int|
                0 <= i < s.healthy.len() ==> !overlap_by_half(
                    fact.bbox,
                    (#[trigger] s.healthy[i]).bbox,
                );
            let (facts, warnings) = added(s, fact, index);
            &&& !is_sound_fact(fact, s.page_bbox) ==> facts.len() == 0 && warnings.len() == 1
            &&& is_sound_fact(fact, s.page_bbox) && (fact.confidence <= 100_000 || fact.confidence
                < s.threshold || !asked || (s.has_text && is_mere_rule(fact))) ==> facts.len() == 0
                && warnings.len() == 0
            &&& is_sound_fact(fact, s.page_bbox) && fact.confidence > 100_000 && fact.confidence
                >= s.threshold && asked && !(s.has_text && is_mere_rule(fact)) && free ==> {
                &&& warnings.len() == 0
                &&& facts.len() == 1
                &&& facts[0].raw_text == trim_of(fact.text@)
                &&& facts[0].bbox == fact.bbox
                &&& facts[0].confidence == Some(fact.confidence as u32)
                &&& facts[0].source == TextSource::Ocr
                &&& facts[0].extraction_order == index
                &&& !facts[0].watermark
            }
        }),
{
    assert forall|i: int| 0 <= i < s.regions.len() implies half_shared(
        #[trigger] s.regions[i],
        fact.bbox,
    ) == overlap_by_half(s.regions[i], fact.bbox) by {
        lemma_half(s.regions[i], fact.bbox);
    }
    if super::merge::is_wanted(fact, s.threshold, s.regions) {
        let i = choose|i: int|
            0 <= i < s.regions.len() && half_shared(#[trigger] s.regions[i], fact.bbox);
        assert(overlap_by_half(s.regions[i], fact.bbox));
    }
    if exists|i: int|
        0 <= i < s.regions.len() && overlap_by_half(#[trigger] s.regions[i], fact.bbox) {
        let i = choose|i: int|
            0 <= i < s.regions.len() && overlap_by_half(#[trigger] s.regions[i], fact.bbox);
        assert(half_shared(s.regions[i], fact.bbox));
    }
    assert(is_sound_fact(fact, s.page_bbox) == super::merge::is_valid_fact(
        fact,
        index,
        s.page_bbox,
    ));
    assert(is_mere_rule(fact) == super::merge::is_drawn_rule(fact));
    if forall|i: int|
        0 <= i < s.healthy.len() ==> !overlap_by_half(
            fact.bbox,
            (#[trigger] s.healthy[i]).bbox,
        ) {
        assert forall|i: int| 0 <= i < s.healthy.len() implies !half_shared(
            fact.bbox,
            (#[trigger] s.healthy[i]).bbox,
        ) by {
            lemma_half(fact.bbox, s.healthy[i].bbox);
        }
        lonely_lines_are_kept(s.rules, recognized(fact, s.page, index as u32), s.healthy);
    }
}

/// Native text that is usable and shows something is never repeated: only such facts stand in
/// the way of recognized ones.
pub proof fn usable_native_text_stands_in_the_way(
    items: Seq<TextItem>,
    unusable: Seq<bool>,
    n: int,
    x: TextItem,
)
    requires
        0 <= n <= items.len(),
    ensures
        healthy_upto(items, unusable, n).contains(x) <==> exists|i: int|
            0 <= i < n && #[trigger] items[i] == x && x.source == TextSource::Native && !unusable[i]
                && trim_of(x.raw_text@).len() > 0,
    decreases n,
{
    if n > 0 {
        usable_native_text_stands_in_the_way(items, unusable, n - 1, x);
        let before = healthy_upto(items, unusable, n - 1);
        let t = before.push(items[n - 1]);
        if before.contains(x) {
            let i = before.index_of(x);
            assert(t[i] == x);
            let j = choose|j: int|
                0 <= j < n - 1 && #[trigger] items[j] == x && x.source == TextSource::Native
                    && !unusable[j] && trim_of(x.raw_text@).len() > 0;
            assert(items[j] == x);
        }
        if items[n - 1] == x {
            assert(t[before.len() as int] == x);
        }
        if t.contains(x) {
            let i = t.index_of(x);
            if i < before.len() {
                assert(before[i] == x);
            }
        }
        if exists|i: int|
            0 <= i < n && #[trigger] items[i] == x && x.source == TextSource::Native && !unusable[i]
                && trim_of(x.raw_text@).len() > 0 {
            let i = choose|i: int|
                0 <= i < n && #[trigger] items[i] == x && x.source == TextSource::Native
                    && !unusable[i] && trim_of(x.raw_text@).len() > 0;
            if i < n - 1 {
                assert(items[i] == x);
            }
        }
    }
}

proof fn lemma_column_of_one(c: Bbox, x: int, y0: int, y1: int)
    requires
        y0 <= y1,
    ensures
        c.left <= x < c.right && c.top <= c.bottom ==> column(seq![c], x, y0, y1) == {
            let low = if c.top > y0 {
                c.top as int
            } else {
                y0
            };
            let high = if c.bottom < y1 {
                c.bottom as int
            } else {
                y1
            };
            if low < high {
                high - low
            } else {
                0
            }
        },
        !(c.left <= x < c.right) ==> column(seq![c], x, y0, y1) == 0,
    decreases y1 - y0,
{
    if y0 < y1 {
        lemma_column_of_one(c, x, y0, y1 - 1);
        let boxes = seq![c];
        assert(any_covers(boxes, x, y1 - 1) == covers(c, x, y1 - 1)) by {
            assert(boxes[0] == c);
            if covers(c, x, y1 - 1) {
                assert(covers(boxes[0], x, y1 - 1));
            }
        }
    }
}

proof fn lemma_columns_of_one(c: Bbox, x0: int, x1: int, y0: int, y1: int)
    requires
        x0 <= x1,
        y0 <= y1,
        c.left <= c.right,
        c.top <= c.bottom,
    ensures
        columns(seq![c], x0, x1, y0, y1) == {
            let left = if c.left > x0 {
                c.left as int
            } else {
                x0
            };
            let right = if c.right < x1 {
                c.right as int
            } else {
                x1
            };
            let low = if c.top > y0 {
                c.top as int
            } else {
                y0
            };
            let high = if c.bottom < y1 {
                c.bottom as int
            } else {
                y1
            };
            if left < right && low < high {
                (right - left) * (high - low)
            } else {
                0
            }
        },
    decreases x1 - x0,
{
    let low = if c.top > y0 {
        c.top as int
    } else {
        y0
    };
    let high = if c.bottom < y1 {
        c.bottom as int
    } else {
        y1
    };
    if x0 < x1 {
        lemma_columns_of_one(c, x0, x1 - 1, y0, y1);
        lemma_column_of_one(c, x1 - 1, y0, y1);
        let left = if c.left > x0 {
            c.left as int
        } else {
            x0
        };
        let d = high - low;
        if c.left <= x1 - 1 < c.right && low < high {
            let w = x1 - left;
            assert(w * d == (w - 1) * d + d) by (nonlinear_arith);
            if w - 1 == 0 {
                assert((w - 1) * d == 0) by (nonlinear_arith)
                    requires
                        w - 1 == 0,
                ;
            }
        }
    }
}

/// One box covers of another what both share.
pub proof fn one_box_covers_what_it_shares(b: Bbox, c: Bbox)
    requires
        b.left <= b.right && b.top <= b.bottom,
        c.left <= c.right && c.top <= c.bottom,
    ensures
        covered(b, seq![c]) == common_area(b, c),
{
    lemma_columns_of_one(c, b.left as int, b.right as int, b.top as int, b.bottom as int);
}

proof fn lemma_column_grows(a: Seq<Bbox>, b: Seq<Bbox>, x: int, y0: int, y1: int)
    requires
        forall|i: int| 0 <= i < a.len() ==> b.contains(#[trigger] a[i]),
    ensures
        column(a, x, y0, y1) <= column(b, x, y0, y1),
    decreases y1 - y0,
{
    if y0 < y1 {
        lemma_column_grows(a, b, x, y0, y1 - 1);
        if any_covers(a, x, y1 - 1) {
            let i = choose|i: int| 0 <= i < a.len() && covers(#[trigger] a[i], x, y1 - 1);
            let k = b.index_of(a[i]);
            assert(covers(b[k], x, y1 - 1));
        }
    }
}

proof fn lemma_columns_grow(a: Seq<Bbox>, b: Seq<Bbox>, x0: int, x1: int, y0: int, y1: int)
    requires
        forall|i: int| 0 <= i < a.len() ==> b.contains(#[trigger] a[i]),
    ensures
        columns(a, x0, x1, y0, y1) <= columns(b, x0, x1, y0, y1),
    decreases x1 - x0,
{
    if x0 < x1 {
        lemma_columns_grow(a, b, x0, x1 - 1, y0, y1);
        lemma_column_grows(a, b, x1 - 1, y0, y1);
    }
}

/// More boxes cover no less.
pub proof fn more_boxes_cover_no_less(b: Bbox, fewer: Seq<Bbox>, more: Seq<Bbox>)
    requires
        forall|i: int| 0 <= i < fewer.len() ==> more.contains(#[trigger] fewer[i]),
    ensures
        covered(b, fewer) <= covered(b, more),
{
    lemma_columns_grow(
        fewer,
        more,
        b.left as int,
        b.right as int,
        b.top as int,
        b.bottom as int,
    );
}

proof fn lemma_reliable(facts: Seq<FactModel>, b: Bbox, n: int)
    requires
        0 <= n <= facts.len(),
    ensures
        forall|k: int|
            0 <= k < reliable_boxes(facts, b, n).len() ==> exists|i: int|
                0 <= i < n && (#[trigger] facts[i]).bbox == #[trigger] reliable_boxes(
                    facts,
                    b,
                    n,
                )[k] && facts[i].confidence is Some && facts[i].confidence->0 >= 800_000,
        forall|i: int|
            0 <= i < n && (#[trigger] facts[i]).confidence is Some && facts[i].confidence->0
                >= 800_000 && common_area(facts[i].bbox, b) > 0 ==> reliable_boxes(
                facts,
                b,
                n,
            ).contains(facts[i].bbox),
    decreases n,
{
    if n > 0 {
        lemma_reliable(facts, b, n - 1);
        let before = reliable_boxes(facts, b, n - 1);
        let after = reliable_boxes(facts, b, n);
        lemma_shared(facts[n - 1].bbox, b);
        assert forall|k: int| 0 <= k < after.len() implies exists|i: int|
            0 <= i < n && (#[trigger] facts[i]).bbox == #[trigger] after[k]
                && facts[i].confidence is Some && facts[i].confidence->0 >= 800_000 by {
            if k < before.len() {
                let i = choose|i: int|
                    0 <= i < n - 1 && (#[trigger] facts[i]).bbox == before[k]
                        && facts[i].confidence is Some && facts[i].confidence->0 >= 800_000;
                assert(facts[i].bbox == after[k]);
            } else {
                assert(facts[n - 1].bbox == after[k]);
            }
        }
        assert forall|i: int|
            0 <= i < n && (#[trigger] facts[i]).confidence is Some && facts[i].confidence->0
                >= 800_000 && common_area(facts[i].bbox, b) > 0 implies after.contains(
            facts[i].bbox,
        ) by {
            if i < n - 1 {
                let k = before.index_of(facts[i].bbox);
                assert(after[k] == facts[i].bbox);
            } else {
                assert(after[before.len() as int] == facts[n - 1].bbox);
            }
        }
    }
}

/// Unusable native text gives way to recognized text that is at least eight tenths sure and
/// covers at least eight tenths of it. It stays where all such text is less sure, and where one
/// such fact alone meets it and covers less. Usable text always stays.
pub proof fn unusable_text_gives_way_to_sure_text(
    facts: Seq<FactModel>,
    native: TextItem,
    unusable: bool,
    i: int,
)
    requires
        native.bbox.left < native.bbox.right && native.bbox.top < native.bbox.bottom,
        0 <= i < facts.len(),
        facts[i].bbox.left <= facts[i].bbox.right && facts[i].bbox.top <= facts[i].bbox.bottom,
    ensures
        !unusable ==> !is_replaced(facts, native, unusable),
        unusable && facts[i].confidence is Some && facts[i].confidence->0 >= 800_000 && 10
            * common_area(native.bbox, facts[i].bbox) >= 8 * ((native.bbox.right
            - native.bbox.left) * (native.bbox.bottom - native.bbox.top)) ==> is_replaced(
            facts,
            native,
            unusable,
        ),
        (forall|k: int|
            0 <= k < facts.len() ==> !((#[trigger] facts[k]).confidence is Some
                && facts[k].confidence->0 >= 800_000)) ==> !is_replaced(facts, native, unusable),
        (forall|k: int|
            0 <= k < facts.len() && k != i ==> !((#[trigger] facts[k]).confidence is Some
                && facts[k].confidence->0 >= 800_000)) && 10 * common_area(
            native.bbox,
            facts[i].bbox,
        ) < 8 * ((native.bbox.right - native.bbox.left) * (native.bbox.bottom - native.bbox.top))
            ==> !is_replaced(facts, native, unusable),
{
    let b = native.bbox;
    let n = facts.len() as int;
    let boxes = reliable_boxes(facts, b, n);
    let c = facts[i].bbox;
    crate::geometry::valid_box_has_area(b);
    lemma_reliable(facts, b, n);
    one_box_covers_what_it_shares(b, c);
    assert(common_area(b, c) == common_area(c, b));
    assert(b.size() == (b.right - b.left) * (b.bottom - b.top));
    let one = seq![c];
    if facts[i].confidence is Some && facts[i].confidence->0 >= 800_000 && common_area(b, c) > 0 {
        assert(boxes.contains(c));
        assert forall|k: int| 0 <= k < one.len() implies boxes.contains(#[trigger] one[k]) by {}
        more_boxes_cover_no_less(b, one, boxes);
    }
    if forall|k: int|
        0 <= k < facts.len() ==> !((#[trigger] facts[k]).confidence is Some
            && facts[k].confidence->0 >= 800_000) {
        if boxes.len() > 0 {
            let k = choose|k: int|
                0 <= k < n && (#[trigger] facts[k]).bbox == boxes[0] && facts[k].confidence is Some
                    && facts[k].confidence->0 >= 800_000;
            assert(false);
        }
        lemma_nothing_covers(b, boxes);
    }
    if forall|k: int|
        0 <= k < facts.len() && k != i ==> !((#[trigger] facts[k]).confidence is Some
            && facts[k].confidence->0 >= 800_000) {
        assert forall|k: int| 0 <= k < boxes.len() implies one.contains(#[trigger] boxes[k]) by {
            let m = choose|m: int|
                0 <= m < n && (#[trigger] facts[m]).bbox == boxes[k] && facts[m].confidence is Some
                    && facts[m].confidence->0 >= 800_000;
            assert(m == i);
            assert(one[0] == boxes[k]);
        }
        more_boxes_cover_no_less(b, boxes, one);
    }
}

proof fn lemma_nothing_covers(b: Bbox, boxes: Seq<Bbox>)
    requires
        boxes.len() == 0,
    ensures
        covered(b, boxes) == 0,
{
    lemma_no_columns(boxes, b.left as int, b.right as int, b.top as int, b.bottom as int);
}

proof fn lemma_no_columns(boxes: Seq<Bbox>, x0: int, x1: int, y0: int, y1: int)
    requires
        boxes.len() == 0,
    ensures
        columns(boxes, x0, x1, y0, y1) == 0,
    decreases x1 - x0,
{
    if x0 < x1 {
        lemma_no_columns(boxes, x0, x1 - 1, y0, y1);
        lemma_no_column(boxes, x1 - 1, y0, y1);
    }
}

proof fn lemma_no_column(boxes: Seq<Bbox>, x: int, y0: int, y1: int)
    requires
        boxes.len() == 0,
    ensures
        column(boxes, x, y0, y1) == 0,
    decreases y1 - y0,
{
    if y0 < y1 {
        lemma_no_column(boxes, x, y0, y1 - 1);
    }
}

/// Recognized facts join the native ones unless unusable text that stays shares half with them.
pub proof fn kept_text_blocks_recognized_text(
    facts: Seq<FactModel>,
    items: Seq<TextItem>,
    unusable: Seq<bool>,
    n: int,
    x: FactModel,
)
    requires
        0 <= n <= facts.len(),
    ensures
        free_upto(facts, items, unusable, n).contains(x) <==> (exists|k: int|
            0 <= k < n && #[trigger] facts[k] == x) && forall|i: int|
            0 <= i < items.len() && unusable[i] && !is_replaced(
                facts,
                #[trigger] items[i],
                unusable[i],
            ) ==> !overlap_by_half(items[i].bbox, x.bbox),
    decreases n,
{
    if n > 0 {
        kept_text_blocks_recognized_text(facts, items, unusable, n - 1, x);
        let before = free_upto(facts, items, unusable, n - 1);
        let t = before.push(facts[n - 1]);
        if before.contains(x) {
            let i = before.index_of(x);
            assert(t[i] == x);
            let k = choose|k: int| 0 <= k < n - 1 && #[trigger] facts[k] == x;
            assert(facts[k] == x);
        }
        if facts[n - 1] == x {
            assert(t[before.len() as int] == x);
        }
        if t.contains(x) {
            let i = t.index_of(x);
            if i < before.len() {
                assert(before[i] == x);
            }
        }
        if exists|k: int| 0 <= k < n && #[trigger] facts[k] == x {
            let k = choose|k: int| 0 <= k < n && #[trigger] facts[k] == x;
            if k < n - 1 {
                assert(facts[k] == x);
            }
        }
    }
    assert(is_blocked(facts, items, unusable, x.bbox) <==> !forall|i: int|
        0 <= i < items.len() && unusable[i] && !is_replaced(facts, #[trigger] items[i], unusable[i])
            ==> !overlap_by_half(items[i].bbox, x.bbox)) by {
        assert forall|i: int| 0 <= i < items.len() implies half_shared(
            (#[trigger] items[i]).bbox,
            x.bbox,
        ) == overlap_by_half(items[i].bbox, x.bbox) by {
            lemma_half(items[i].bbox, x.bbox);
        }
        if is_blocked(facts, items, unusable, x.bbox) {
            let i = choose|i: int|
                0 <= i < items.len() && unusable[i] && !is_replaced(facts, items[i], unusable[i])
                    && half_shared((#[trigger] items[i]).bbox, x.bbox);
            assert(overlap_by_half(items[i].bbox, x.bbox));
        }
    }
}

/// A recognized line of which one usable native fact that shares half with it covers at least
/// eight tenths is dropped without a word.
pub proof fn owned_lines_are_dropped(
    rules: crate::text_rules::TextRules,
    item: FactModel,
    index: Seq<TextItem>,
    i: int,
)
    requires
        0 <= i < index.len(),
        item.bbox.left < item.bbox.right && item.bbox.top < item.bbox.bottom,
        index[i].bbox.left <= index[i].bbox.right && index[i].bbox.top <= index[i].bbox.bottom,
        overlap_by_half(item.bbox, index[i].bbox),
        10 * common_area(item.bbox, index[i].bbox) >= 8 * ((item.bbox.right - item.bbox.left) * (
        item.bbox.bottom - item.bbox.top)),
    ensures
        kept_of(rules, item, index) == (Seq::<FactModel>::empty(), Seq::<WarningModel>::empty()),
{
    let b = item.bbox;
    let c = index[i].bbox;
    crate::geometry::valid_box_has_area(b);
    lemma_half(b, c);
    lemma_shared(c, b);
    assert(common_area(b, c) == common_area(c, b));
    assert(b.size() == (b.right - b.left) * (b.bottom - b.top));
    let found = hits(index, b);
    lemma_hit(index, b, index.len() as int, i);
    let k = found.index_of(i);
    assert(found[k] == i);
    lemma_rival(index, found, b, found.len() as int, k);
    let rivals = super::overlap::rivals(index, b);
    let boxes = super::overlap::boxes_of(rivals);
    let m = rivals.index_of(index[i]);
    assert(boxes[m] == c);
    let one = seq![c];
    assert forall|q: int| 0 <= q < one.len() implies boxes.contains(#[trigger] one[q]) by {
        assert(boxes[m] == one[q]);
    }
    more_boxes_cover_no_less(b, one, boxes);
    one_box_covers_what_it_shares(b, c);
    assert(mostly_covered(b, boxes));
}

proof fn lemma_hit(index: Seq<TextItem>, b: Bbox, n: int, i: int)
    requires
        0 <= i < n <= index.len(),
        index[i].bbox.shared_area(b) > 0,
    ensures
        super::index::hits_upto(index, b, n).contains(i),
    decreases n,
{
    let before = super::index::hits_upto(index, b, n - 1);
    let after = super::index::hits_upto(index, b, n);
    if i < n - 1 {
        lemma_hit(index, b, n - 1, i);
        let k = before.index_of(i);
        assert(after[k] == i);
    } else {
        assert(after[before.len() as int] == i);
    }
}

proof fn lemma_rival(index: Seq<TextItem>, found: Seq<int>, b: Bbox, n: int, k: int)
    requires
        0 <= k < n <= found.len(),
        half_shared(b, index[found[k]].bbox),
    ensures
        super::overlap::rivals_upto(index, found, b, n).contains(index[found[k]]),
    decreases n,
{
    let before = super::overlap::rivals_upto(index, found, b, n - 1);
    let after = super::overlap::rivals_upto(index, found, b, n);
    if k < n - 1 {
        lemma_rival(index, found, b, n - 1, k);
        let m = before.index_of(index[found[k]]);
        assert(after[m] == index[found[k]]);
    } else {
        assert(after[before.len() as int] == index[found[k]]);
    }
}

} // verus!
