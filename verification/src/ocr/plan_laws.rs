//! Where a plan looks for text, in counts and areas.

use vstd::prelude::*;

use super::index::{hits, hits_upto, topmost_first};
use super::plan::{
    area_upto, boxes_of, characters_upto, gaps_upto, is_served, page_text_upto, regions_of, share,
    BoxOrder,
};
use super::OcrPolicy;
use crate::geometry::Bbox;
use crate::layout::{LayoutDetection, LayoutLabel};
use crate::line::bidi::ItemOrder;
use crate::sorting::{
    deduped, deduped_upto, is_ordered, sorted, sorting_holds_the_same, sorting_orders_and_keeps,
    Order,
};
use crate::types::TextItem;

verus! {

/// Number of characters, from fact `i` on, of facts that are no watermark and are usable.
pub open spec fn usable_characters(items: Seq<TextItem>, unusable: Seq<bool>, i: int) -> int
    decreases items.len() - i,
{
    if i >= items.len() {
        0
    } else if items[i].watermark || unusable[i] {
        usable_characters(items, unusable, i + 1)
    } else {
        items[i].raw_text@.len() + usable_characters(items, unusable, i + 1)
    }
}

/// Area of the boxes, from fact `i` on, of facts that are no watermark and are usable.
pub open spec fn usable_area(items: Seq<TextItem>, unusable: Seq<bool>, i: int) -> int
    decreases items.len() - i,
{
    if i >= items.len() {
        0
    } else {
        let b = items[i].bbox;
        let area = (b.right - b.left) * (b.bottom - b.top);
        if items[i].watermark || unusable[i] || area <= 0 {
            usable_area(items, unusable, i + 1)
        } else {
            area + usable_area(items, unusable, i + 1)
        }
    }
}

proof fn lemma_sums_of_prefix(a: Seq<TextItem>, b: Seq<TextItem>, n: int)
    requires
        0 <= n <= a.len(),
        n <= b.len(),
        forall|k: int| 0 <= k < n ==> a[k] == b[k],
    ensures
        characters_upto(a, n) == characters_upto(b, n),
        area_upto(a, n) == area_upto(b, n),
    decreases n,
{
    if n > 0 {
        lemma_sums_of_prefix(a, b, n - 1);
    }
}

proof fn lemma_sums(items: Seq<TextItem>, unusable: Seq<bool>, n: int)
    requires
        0 <= n <= items.len(),
    ensures
        ({
            let healthy = page_text_upto(items, unusable, false, n);
            let m = healthy.len() as int;
            &&& characters_upto(healthy, m) + usable_characters(items, unusable, n)
                == usable_characters(items, unusable, 0)
            &&& area_upto(healthy, m) + usable_area(items, unusable, n) == usable_area(
                items,
                unusable,
                0,
            )
        }),
    decreases n,
{
    if n > 0 {
        lemma_sums(items, unusable, n - 1);
        let before = page_text_upto(items, unusable, false, n - 1);
        let after = page_text_upto(items, unusable, false, n);
        lemma_sums_of_prefix(before, after, before.len() as int);
        let b = items[n - 1].bbox;
        assert(b.size() == (b.right - b.left) * (b.bottom - b.top));
    }
}

/// A page is recognized as a whole where its usable text has fewer than twenty characters, and
/// where it has fewer than two thousand on less than fifteen hundredths of the page.
pub proof fn sparse_pages_are_recognized_whole(
    items: Seq<TextItem>,
    unusable: Seq<bool>,
    detections: Seq<LayoutDetection>,
    page: Bbox,
    coverage: int,
)
    requires
        usable_characters(items, unusable, 0) < 20 || (usable_characters(items, unusable, 0) < 2000
            && 100 * usable_area(items, unusable, 0) < 15 * ((page.right - page.left) * (page.bottom
            - page.top))),
    ensures
        regions_of(items, unusable, detections, page, OcrPolicy::MissingRegions, coverage) == seq![
            page,
        ],
{
    lemma_sums(items, unusable, items.len() as int);
}

/// Where recognition is always wanted, the page is recognized as a whole.
pub proof fn wanted_pages_are_recognized_whole(
    items: Seq<TextItem>,
    unusable: Seq<bool>,
    detections: Seq<LayoutDetection>,
    page: Bbox,
    coverage: int,
)
    ensures
        regions_of(items, unusable, detections, page, OcrPolicy::Always, coverage) == seq![page],
{
}

/// The area that two boxes share.
pub open spec fn common_area(a: Bbox, b: Bbox) -> int {
    let left = if a.left > b.left {
        a.left
    } else {
        b.left
    };
    let right = if a.right < b.right {
        a.right
    } else {
        b.right
    };
    let top = if a.top > b.top {
        a.top
    } else {
        b.top
    };
    let bottom = if a.bottom < b.bottom {
        a.bottom
    } else {
        b.bottom
    };
    if left < right && top < bottom {
        (right - left) * (bottom - top)
    } else {
        0
    }
}

/// Whether a fact of a page is usable text with at least a number of millionths of itself, and
/// more than nothing, inside a box.
pub open spec fn serves(item: TextItem, unusable: bool, b: Bbox, millionths: int) -> bool {
    &&& !item.watermark && !unusable
    &&& common_area(item.bbox, b) > 0
    &&& common_area(item.bbox, b) * 1_000_000 >= millionths * ((item.bbox.right - item.bbox.left)
        * (item.bbox.bottom - item.bbox.top))
}

/// Whether a detection is to be read: it is neither an inline formula nor a list of references,
/// its box has an extent and lies on the page, and it is a picture or no usable text serves it.
pub open spec fn wants_reading(
    items: Seq<TextItem>,
    unusable: Seq<bool>,
    d: LayoutDetection,
    page: Bbox,
    millionths: int,
) -> bool {
    let b = d.bbox;
    &&& d.label != LayoutLabel::InlineFormula && d.label != LayoutLabel::Reference
    &&& b.left < b.right && b.top < b.bottom
    &&& page.left <= b.left && page.top <= b.top && b.right <= page.right && b.bottom
        <= page.bottom
    &&& d.label == LayoutLabel::Image || d.label == LayoutLabel::Chart || d.label
        == LayoutLabel::HeaderImage || d.label == LayoutLabel::FooterImage || forall|i: int|
        0 <= i < items.len() ==> !serves(#[trigger] items[i], unusable[i], b, millionths)
}

proof fn lemma_common_area(a: Bbox, b: Bbox)
    ensures
        a.shared_area(b) == common_area(a, b),
{
    let w = vstd::math::max(a.overlap_x(b), 0);
    let h = vstd::math::max(a.overlap_y(b), 0);
    if w == 0 || h == 0 {
        assert(w * h == 0) by (nonlinear_arith)
            requires
                w == 0 || h == 0,
        ;
    }
}

/// The text of a page is that of its facts, usable or not.
proof fn lemma_page_text(
    items: Seq<TextItem>,
    unusable: Seq<bool>,
    wanted: bool,
    n: int,
    x: TextItem,
)
    requires
        0 <= n <= items.len(),
    ensures
        page_text_upto(items, unusable, wanted, n).contains(x) <==> exists|i: int|
            0 <= i < n && #[trigger] items[i] == x && !x.watermark && unusable[i] == wanted,
    decreases n,
{
    if n > 0 {
        lemma_page_text(items, unusable, wanted, n - 1, x);
        let before = page_text_upto(items, unusable, wanted, n - 1);
        let after = page_text_upto(items, unusable, wanted, n);
        let last = items[n - 1];
        if !last.watermark && unusable[n - 1] == wanted {
            lemma_push(before, last, x);
        }
        if before.contains(x) {
            let i = choose|i: int|
                0 <= i < n - 1 && #[trigger] items[i] == x && !x.watermark && unusable[i] == wanted;
            assert(items[i] == x);
        }
        if exists|i: int|
            0 <= i < n && #[trigger] items[i] == x && !x.watermark && unusable[i] == wanted {
            let i = choose|i: int|
                0 <= i < n && #[trigger] items[i] == x && !x.watermark && unusable[i] == wanted;
            if i < n - 1 {
                assert(items[i] == x);
            }
        }
    }
}

proof fn lemma_push<T>(s: Seq<T>, x: T, r: T)
    ensures
        s.push(x).contains(r) <==> s.contains(r) || x == r,
{
    let t = s.push(x);
    if s.contains(r) {
        let i = s.index_of(r);
        assert(t[i] == r);
    }
    if x == r {
        assert(t[s.len() as int] == r);
    }
    if t.contains(r) {
        let i = t.index_of(r);
        if i < s.len() {
            assert(s[i] == r);
        }
    }
}

/// The positions of facts that share area with a box are those where the area is positive.
proof fn lemma_hits(index: Seq<TextItem>, b: Bbox, n: int)
    requires
        0 <= n <= index.len(),
    ensures
        forall|k: int|
            0 <= k < hits_upto(index, b, n).len() ==> 0 <= #[trigger] hits_upto(index, b, n)[k] < n
                && common_area(index[hits_upto(index, b, n)[k]].bbox, b) > 0,
        forall|i: int|
            #![trigger index[i]]
            0 <= i < n && common_area(index[i].bbox, b) > 0 ==> hits_upto(index, b, n).contains(i),
    decreases n,
{
    if n > 0 {
        lemma_hits(index, b, n - 1);
        lemma_common_area(index[n - 1].bbox, b);
        let before = hits_upto(index, b, n - 1);
        let after = hits_upto(index, b, n);
        assert forall|i: int|
            #![trigger index[i]]
            0 <= i < n && common_area(index[i].bbox, b) > 0 implies after.contains(i) by {
            if i < n - 1 {
                let k = before.index_of(i);
                assert(after[k] == i);
            } else {
                assert(after[before.len() as int] == n - 1);
            }
        }
    }
}

/// Text serves a box where one of its facts does.
proof fn lemma_served(
    items: Seq<TextItem>,
    unusable: Seq<bool>,
    b: Bbox,
    coverage: int,
)
    requires
        b.left < b.right && b.top < b.bottom,
    ensures
        is_served(
            topmost_first(page_text_upto(items, unusable, false, items.len() as int)),
            b,
            coverage,
        ) <==> exists|i: int|
            0 <= i < items.len() && serves(#[trigger] items[i], unusable[i], b, coverage),
{
    let n = items.len() as int;
    let healthy = page_text_upto(items, unusable, false, n);
    let index = topmost_first(healthy);
    let found = hits(index, b);
    lemma_hits(index, b, index.len() as int);
    if is_served(index, b, coverage) {
        let k = choose|k: int|
            0 <= k < found.len() && index[#[trigger] found[k]].bbox.shared_area(b) * (
            crate::types::WHOLE as int) >= coverage * index[found[k]].bbox.size();
        let x = index[found[k]];
        lemma_common_area(x.bbox, b);
        assert(index.contains(x));
        sorting_holds_the_same(healthy, ItemOrder::Topmost, x);
        lemma_page_text(items, unusable, false, n, x);
        let i = choose|i: int|
            0 <= i < n && #[trigger] items[i] == x && !x.watermark && unusable[i] == false;
        assert(serves(items[i], unusable[i], b, coverage));
    }
    if exists|i: int| 0 <= i < n && serves(#[trigger] items[i], unusable[i], b, coverage) {
        let i = choose|i: int|
            0 <= i < n && serves(#[trigger] items[i], unusable[i], b, coverage);
        let x = items[i];
        lemma_page_text(items, unusable, false, n, x);
        assert(healthy.contains(x));
        sorting_holds_the_same(healthy, ItemOrder::Topmost, x);
        let p = index.index_of(x);
        lemma_common_area(x.bbox, b);
        assert(common_area(index[p].bbox, b) > 0);
        let k = found.index_of(p);
        assert(found[k] == p);
    }
}

/// The boxes of detections that are to be read.
proof fn lemma_gaps(
    items: Seq<TextItem>,
    unusable: Seq<bool>,
    detections: Seq<LayoutDetection>,
    page: Bbox,
    coverage: int,
    n: int,
    b: Bbox,
)
    requires
        0 <= n <= detections.len(),
    ensures
        gaps_upto(
            topmost_first(page_text_upto(items, unusable, false, items.len() as int)),
            detections,
            page,
            coverage,
            n,
        ).contains(b) <==> exists|d: int|
            0 <= d < n && (#[trigger] detections[d]).bbox == b && wants_reading(
                items,
                unusable,
                detections[d],
                page,
                coverage,
            ),
    decreases n,
{
    if n > 0 {
        lemma_gaps(items, unusable, detections, page, coverage, n - 1, b);
        let index = topmost_first(page_text_upto(items, unusable, false, items.len() as int));
        let before = gaps_upto(index, detections, page, coverage, n - 1);
        let last = detections[n - 1];
        if last.bbox.left < last.bbox.right && last.bbox.top < last.bbox.bottom {
            lemma_served(items, unusable, last.bbox, coverage);
        }
        let wanted = super::plan::needs_text(index, last, page, coverage);
        assert(wanted == wants_reading(items, unusable, last, page, coverage));
        if wanted {
            lemma_push(before, last.bbox, b);
        }
        if before.contains(b) {
            let d = choose|d: int|
                0 <= d < n - 1 && (#[trigger] detections[d]).bbox == b && wants_reading(
                    items,
                    unusable,
                    detections[d],
                    page,
                    coverage,
                );
            assert(detections[d].bbox == b);
        }
    }
}

/// Dropping repetitions keeps every value.
proof fn lemma_deduped_holds<T>(s: Seq<T>, n: int, x: T)
    requires
        0 <= n <= s.len(),
    ensures
        deduped_upto(s, n).contains(x) <==> exists|i: int| 0 <= i < n && #[trigger] s[i] == x,
        n > 0 ==> deduped_upto(s, n).len() > 0 && deduped_upto(s, n).last() == s[n - 1],
    decreases n,
{
    if n > 0 {
        lemma_deduped_holds(s, n - 1, x);
        let before = deduped_upto(s, n - 1);
        if before.len() > 0 && before.last() == s[n - 1] {
            assert(before[before.len() - 1] == s[n - 1]);
        } else {
            lemma_push(before, s[n - 1], x);
        }
        if exists|i: int| 0 <= i < n && #[trigger] s[i] == x {
            let i = choose|i: int| 0 <= i < n && #[trigger] s[i] == x;
            if i < n - 1 {
                assert(s[i] == x);
            }
        }
        if before.contains(x) {
            let i = choose|i: int| 0 <= i < n - 1 && #[trigger] s[i] == x;
            assert(s[i] == x);
        }
    }
}

/// Whether a box stands before another: by top, left, bottom and right edge.
pub open spec fn box_precedes(a: Bbox, b: Bbox) -> bool {
    ||| a.top < b.top
    ||| a.top == b.top && a.left < b.left
    ||| a.top == b.top && a.left == b.left && a.bottom < b.bottom
    ||| a.top == b.top && a.left == b.left && a.bottom == b.bottom && a.right < b.right
}

proof fn lemma_deduped_boxes(s: Seq<Bbox>, n: int)
    requires
        0 <= n <= s.len(),
        is_ordered(s, BoxOrder),
    ensures
        forall|i: int, j: int|
            #![trigger deduped_upto(s, n)[i], deduped_upto(s, n)[j]]
            0 <= i < j < deduped_upto(s, n).len() ==> box_precedes(
                deduped_upto(s, n)[i],
                deduped_upto(s, n)[j],
            ),
        n > 0 ==> deduped_upto(s, n).len() > 0 && deduped_upto(s, n).last() == s[n - 1],
    decreases n,
{
    if n > 0 {
        lemma_deduped_boxes(s, n - 1);
        let before = deduped_upto(s, n - 1);
        let after = deduped_upto(s, n);
        let x = s[n - 1];
        if !(before.len() > 0 && before.last() == x) {
            assert forall|i: int, j: int|
                #![trigger after[i], after[j]]
                0 <= i < j < after.len() implies box_precedes(after[i], after[j]) by {
                assert(after[i] == before[i]);
                if j < before.len() {
                    assert(after[j] == before[j]);
                    assert(box_precedes(before[i], before[j]));
                } else {
                    let last = before[before.len() - 1];
                    assert(last == s[n - 2]);
                    assert(!BoxOrder.lt(s[n - 1], s[n - 2]));
                    assert(box_precedes(last, x));
                    if i < before.len() - 1 {
                        assert(box_precedes(before[i], last));
                    }
                }
            }
        }
    }
}

/// A page with enough usable text is recognized where text is unusable and where a detection is
/// to be read, from top to bottom, and each place once.
pub proof fn dense_pages_are_recognized_in_their_gaps(
    items: Seq<TextItem>,
    unusable: Seq<bool>,
    detections: Seq<LayoutDetection>,
    page: Bbox,
    coverage: int,
    b: Bbox,
)
    requires
        usable_characters(items, unusable, 0) >= 20,
        usable_characters(items, unusable, 0) >= 2000 || 100 * usable_area(items, unusable, 0) >= 15
            * ((page.right - page.left) * (page.bottom - page.top)),
    ensures
        ({
            let regions = regions_of(
                items,
                unusable,
                detections,
                page,
                OcrPolicy::MissingRegions,
                coverage,
            );
            &&& regions.contains(b) <==> (exists|i: int|
                0 <= i < items.len() && (#[trigger] items[i]).bbox == b && !items[i].watermark
                    && unusable[i]) || (exists|d: int|
                0 <= d < detections.len() && (#[trigger] detections[d]).bbox == b && wants_reading(
                    items,
                    unusable,
                    detections[d],
                    page,
                    coverage,
                ))
            &&& forall|i: int, j: int|
                #![trigger regions[i], regions[j]]
                0 <= i < j < regions.len() ==> box_precedes(regions[i], regions[j])
        }),
{
    let n = items.len() as int;
    lemma_sums(items, unusable, n);
    let healthy = page_text_upto(items, unusable, false, n);
    let spoilt = page_text_upto(items, unusable, true, n);
    let broken = boxes_of(spoilt);
    let gaps = gaps_upto(
        topmost_first(healthy),
        detections,
        page,
        coverage,
        detections.len() as int,
    );
    let all = broken + gaps;
    let s = sorted(all, BoxOrder);
    let regions = regions_of(
        items,
        unusable,
        detections,
        page,
        OcrPolicy::MissingRegions,
        coverage,
    );
    assert(page.size() == (page.right - page.left) * (page.bottom - page.top));
    assert(regions == deduped(s));
    sorting_orders_and_keeps(all, BoxOrder);
    lemma_deduped_boxes(s, s.len() as int);
    lemma_deduped_holds(s, s.len() as int, b);
    sorting_holds_the_same(all, BoxOrder, b);
    assert(regions.contains(b) <==> s.contains(b)) by {
        if s.contains(b) {
            let i = s.index_of(b);
            assert(s[i] == b);
        }
    }
    lemma_gaps(items, unusable, detections, page, coverage, detections.len() as int, b);
    assert(all.contains(b) <==> broken.contains(b) || gaps.contains(b)) by {
        if broken.contains(b) {
            let i = broken.index_of(b);
            assert(all[i] == b);
        }
        if gaps.contains(b) {
            let i = gaps.index_of(b);
            assert(all[broken.len() + i] == b);
        }
        if all.contains(b) {
            let i = all.index_of(b);
            if i < broken.len() {
                assert(broken[i] == b);
            } else {
                assert(gaps[i - broken.len()] == b);
            }
        }
    }
    assert(broken.contains(b) <==> exists|i: int|
        0 <= i < n && (#[trigger] items[i]).bbox == b && !items[i].watermark && unusable[i]) by {
        if broken.contains(b) {
            let k = broken.index_of(b);
            let x = spoilt[k];
            assert(spoilt.contains(x));
            lemma_page_text(items, unusable, true, n, x);
            let i = choose|i: int|
                0 <= i < n && #[trigger] items[i] == x && !x.watermark && unusable[i] == true;
            assert(items[i].bbox == b);
        }
        if exists|i: int|
            0 <= i < n && (#[trigger] items[i]).bbox == b && !items[i].watermark && unusable[i] {
            let i = choose|i: int|
                0 <= i < n && (#[trigger] items[i]).bbox == b && !items[i].watermark && unusable[i];
            lemma_page_text(items, unusable, true, n, items[i]);
            let k = spoilt.index_of(items[i]);
            assert(broken[k] == b);
        }
    }
}

/// The share of usable text counts whole millionths of the page, and never more than all of it.
pub proof fn native_share_counts_millionths(area: int, page: Bbox)
    requires
        0 <= area,
        page.left < page.right && page.top < page.bottom,
    ensures
        ({
            let whole = (page.right - page.left) * (page.bottom - page.top);
            let found = share(area, page);
            &&& area >= whole ==> found == 1_000_000
            &&& area <= whole ==> found * whole <= area * 1_000_000 < (found + 1) * whole
        }),
{
    let whole = (page.right - page.left) * (page.bottom - page.top);
    crate::geometry::valid_box_has_area(page);
    assert(page.size() == whole);
    let found = share(area, page);
    if area >= whole {
        assert(found == (whole * 1_000_000) / whole);
        assert((whole * 1_000_000) / whole == 1_000_000) by (nonlinear_arith)
            requires
                whole > 0,
        ;
        if area == whole {
            assert(found * whole <= area * 1_000_000 < (found + 1) * whole) by (nonlinear_arith)
                requires
                    found == 1_000_000,
                    area == whole,
                    whole > 0,
            ;
        }
    } else {
        assert(found * whole <= area * 1_000_000 < (found + 1) * whole) by (nonlinear_arith)
            requires
                whole > 0,
                found == (area * 1_000_000) / whole,
        ;
    }
}

} // verus!
