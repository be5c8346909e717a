//! Which runs share a line, and what is measured of it.

use vstd::prelude::*;

use super::assemble::{
    assembled, band_groups, band_reach, bands_upto, body_band, bridge_from, bridged_pair,
    bridged_runs, flow_upto, follows, orientations, rejoined, run_groups, same_body,
    same_orientation, seen_width, AlignedItem, AlignedOrder,
};
use super::axes::{level, oblique};
use super::bidi::{read_order, snapped};
use super::fragment::{reading_y, FragmentModel, FragmentOrder};
use super::metrics::{
    anchor_of, bold_upto, box_upto, italic_upto, measured_upto, metrics_of, size_sum_upto,
    sized_upto, weight_upto, LineAnchor,
};
use super::scripts::with_scripts;
use crate::config::FusionConfig;
use crate::geometry::Bbox;
use crate::sorting::{sorted, sorting_holds_the_same, sorting_orders_and_keeps, Order};
use crate::types::{TextItem, WritingDirection};

verus! {

/// A length kept between one and twenty-four points.
pub open spec fn clamped(n: int) -> int {
    if n < 10_000 {
        10_000
    } else if n > 240_000 {
        240_000
    } else {
        n
    }
}

/// The distance between two numbers.
pub open spec fn apart(a: int, b: int) -> int {
    if a < b {
        b - a
    } else {
        a - b
    }
}

/// The smaller of two numbers.
pub open spec fn smaller(a: int, b: int) -> int {
    if a < b {
        a
    } else {
        b
    }
}

/// Runs are read from left to right by their left edges, from right to left by their right
/// edges, down the page by their top edges and up the page by their bottom edges. Slanted runs
/// are read along their direction, or against it.
pub proof fn runs_are_read_in_their_direction(
    items: Seq<TextItem>,
    direction: WritingDirection,
    i: int,
    j: int,
)
    requires
        0 <= i < j < read_order(items, direction).len(),
    ensures
        ({
            let r = read_order(items, direction);
            let (a, b) = (r[i].bbox, r[j].bbox);
            let turned = items[0].rotation;
            let (x, y) = (
                turned.cosine * (a.left + a.right) + turned.sine * (a.top + a.bottom),
                turned.cosine * (b.left + b.right) + turned.sine * (b.top + b.bottom),
            );
            let slanted = oblique(turned.angle as int);
            match direction {
                WritingDirection::LeftToRight => if slanted {
                    x <= y
                } else {
                    a.left <= b.left
                },
                WritingDirection::RightToLeft => if slanted {
                    x >= y
                } else {
                    a.right >= b.right
                },
                WritingDirection::Vertical => if snapped(turned.angle as int) == 270 {
                    a.bottom > b.bottom || (a.bottom == b.bottom && a.left <= b.left)
                } else {
                    a.top < b.top || (a.top == b.top && a.left <= b.left)
                },
            }
        }),
{
    let order = super::bidi::inline_order(direction, items[0].rotation);
    let r = read_order(items, direction);
    sorting_orders_and_keeps(items, order);
    assert(!order.lt(r[j], r[i]));
}

proof fn lemma_box(items: Seq<TextItem>, n: int)
    requires
        1 <= n <= items.len(),
    ensures
        ({
            let b = box_upto(items, n);
            &&& forall|i: int|
                0 <= i < n ==> b.left <= (#[trigger] items[i]).bbox.left && b.top
                    <= items[i].bbox.top && items[i].bbox.right <= b.right && items[i].bbox.bottom
                    <= b.bottom
            &&& exists|i: int| 0 <= i < n && (#[trigger] items[i]).bbox.left == b.left
            &&& exists|i: int| 0 <= i < n && (#[trigger] items[i]).bbox.top == b.top
            &&& exists|i: int| 0 <= i < n && (#[trigger] items[i]).bbox.right == b.right
            &&& exists|i: int| 0 <= i < n && (#[trigger] items[i]).bbox.bottom == b.bottom
        }),
    decreases n,
{
    let b = box_upto(items, n);
    if n > 1 {
        lemma_box(items, n - 1);
        let a = box_upto(items, n - 1);
        let x = items[n - 1].bbox;
        let p = choose|i: int| 0 <= i < n - 1 && (#[trigger] items[i]).bbox.left == a.left;
        let q = choose|i: int| 0 <= i < n - 1 && (#[trigger] items[i]).bbox.top == a.top;
        let r = choose|i: int| 0 <= i < n - 1 && (#[trigger] items[i]).bbox.right == a.right;
        let s = choose|i: int| 0 <= i < n - 1 && (#[trigger] items[i]).bbox.bottom == a.bottom;
        assert(items[p].bbox.left == b.left || items[n - 1].bbox.left == b.left);
        assert(items[q].bbox.top == b.top || items[n - 1].bbox.top == b.top);
        assert(items[r].bbox.right == b.right || items[n - 1].bbox.right == b.right);
        assert(items[s].bbox.bottom == b.bottom || items[n - 1].bbox.bottom == b.bottom);
    } else {
        assert(items[0].bbox == b);
    }
}

/// The box of a line is the smallest around its runs, and its indent is where that starts.
pub proof fn lines_enclose_their_runs(items: Seq<TextItem>, page_width: int)
    requires
        items.len() > 0,
    ensures
        ({
            let b = metrics_of(items, page_width).bbox;
            &&& forall|i: int|
                0 <= i < items.len() ==> b.left <= (#[trigger] items[i]).bbox.left && b.top
                    <= items[i].bbox.top && items[i].bbox.right <= b.right && items[i].bbox.bottom
                    <= b.bottom
            &&& exists|i: int| 0 <= i < items.len() && (#[trigger] items[i]).bbox.left == b.left
            &&& exists|i: int| 0 <= i < items.len() && (#[trigger] items[i]).bbox.top == b.top
            &&& exists|i: int| 0 <= i < items.len() && (#[trigger] items[i]).bbox.right == b.right
            &&& exists|i: int| 0 <= i < items.len() && (#[trigger] items[i]).bbox.bottom == b.bottom
            &&& metrics_of(items, page_width).indent == b.left
        }),
{
    lemma_box(items, items.len() as int);
}

/// A line stands in the middle where its own middle is within a fifth of the page width of that
/// of the page, and on the side of its middle else.
pub proof fn lines_stand_where_their_middle_is(b: Bbox, page_width: int)
    requires
        page_width >= 0,
    ensures
        ({
            let middle = b.left + b.right;
            let off = apart(middle, page_width);
            &&& 5 * off <= 2 * page_width ==> anchor_of(b, page_width) == LineAnchor::Center
            &&& 5 * off > 2 * page_width && middle < page_width ==> anchor_of(b, page_width)
                == LineAnchor::Left
            &&& 5 * off > 2 * page_width && middle > page_width ==> anchor_of(b, page_width)
                == LineAnchor::Right
        }),
{
}

/// How many characters a run counts for: at least one.
pub open spec fn counted(item: TextItem) -> int {
    if item.raw_text@.len() == 0 {
        1
    } else {
        item.raw_text@.len() as int
    }
}

/// How many characters, from run `i` on, runs count for; of all, of bold or of italic ones.
pub open spec fn characters_from(
    items: Seq<TextItem>,
    bold: bool,
    italic: bool,
    i: int,
) -> int
    decreases items.len() - i,
{
    if i >= items.len() {
        0
    } else if (bold && !(items[i].style is Some && items[i].style->0.bold)) || (italic && !(
    items[i].style is Some && items[i].style->0.italic)) {
        characters_from(items, bold, italic, i + 1)
    } else {
        counted(items[i]) + characters_from(items, bold, italic, i + 1)
    }
}

proof fn lemma_characters(items: Seq<TextItem>, n: int)
    requires
        0 <= n <= items.len(),
    ensures
        weight_upto(items, n) + characters_from(items, false, false, n) == characters_from(
            items,
            false,
            false,
            0,
        ),
        bold_upto(items, n) + characters_from(items, true, false, n) == characters_from(
            items,
            true,
            false,
            0,
        ),
        italic_upto(items, n) + characters_from(items, false, true, n) == characters_from(
            items,
            false,
            true,
            0,
        ),
        0 <= bold_upto(items, n) <= weight_upto(items, n),
        0 <= italic_upto(items, n) <= weight_upto(items, n),
        weight_upto(items, n) >= n,
    decreases n,
{
    if n > 0 {
        lemma_characters(items, n - 1);
    }
}

/// The shares of bold and italic text count whole millionths of the characters of a line.
pub proof fn style_shares_count_characters(items: Seq<TextItem>, page_width: int)
    requires
        items.len() > 0,
    ensures
        ({
            let m = metrics_of(items, page_width);
            let all = characters_from(items, false, false, 0);
            &&& m.bold_ratio * all <= characters_from(items, true, false, 0) * 1_000_000 < (
            m.bold_ratio + 1) * all
            &&& m.italic_ratio * all <= characters_from(items, false, true, 0) * 1_000_000 < (
            m.italic_ratio + 1) * all
        }),
{
    let n = items.len() as int;
    lemma_characters(items, n);
    lemma_share(bold_upto(items, n), weight_upto(items, n));
    lemma_share(italic_upto(items, n), weight_upto(items, n));
}

proof fn lemma_share(part: int, whole: int)
    requires
        0 <= part <= whole,
        whole > 0,
    ensures
        ({
            let q = part * 1_000_000 / whole;
            0 <= q <= 1_000_000 && q * whole <= part * 1_000_000 < (q + 1) * whole
        }),
{
    let q = part * 1_000_000 / whole;
    assert(0 <= q <= 1_000_000 && q * whole <= part * 1_000_000 < (q + 1) * whole)
        by (nonlinear_arith)
        requires
            0 <= part <= whole,
            whole > 0,
            q == part * 1_000_000 / whole,
    ;
}

proof fn lemma_even_sizes(items: Seq<TextItem>, size: i32, n: int)
    requires
        0 <= n <= items.len(),
        forall|k: int|
            0 <= k < n ==> (#[trigger] items[k]).style is Some && items[k].style->0.font_size
                == Some(size),
    ensures
        size_sum_upto(items, n) == size * sized_upto(items, n),
        sized_upto(items, n) >= n,
    decreases n,
{
    if n > 0 {
        lemma_even_sizes(items, size, n - 1);
        let (w, x) = (sized_upto(items, n - 1), super::metrics::weight(items[n - 1]));
        assert(items[n - 1].size() == Some(size));
        assert(size * (w + x) == size * w + size * x) by (nonlinear_arith);
    }
}

/// A line set in one size has that size. A line of which no run states a size is as large as it
/// is high, which counts as an estimate.
pub proof fn lines_have_the_size_of_their_runs(items: Seq<TextItem>, page_width: int, size: i32)
    requires
        items.len() > 0,
    ensures
        (forall|k: int|
            0 <= k < items.len() ==> (#[trigger] items[k]).style is Some
                && items[k].style->0.font_size == Some(size)) ==> metrics_of(
            items,
            page_width,
        ).font_size == size && !metrics_of(items, page_width).font_size_estimated,
        (forall|k: int|
            0 <= k < items.len() ==> !((#[trigger] items[k]).style is Some
                && items[k].style->0.font_size is Some)) ==> metrics_of(
            items,
            page_width,
        ).font_size_estimated,
{
    let n = items.len() as int;
    if forall|k: int|
        0 <= k < items.len() ==> (#[trigger] items[k]).style is Some && items[k].style->0.font_size
            == Some(size) {
        lemma_even_sizes(items, size, n);
        let w = sized_upto(items, n);
        assert((size * w) / w == size) by (nonlinear_arith)
            requires
                w > 0,
        ;
    }
    if forall|k: int|
        0 <= k < items.len() ==> !((#[trigger] items[k]).style is Some
            && items[k].style->0.font_size is Some) {
        lemma_no_sizes(items, n);
    }
}

proof fn lemma_no_sizes(items: Seq<TextItem>, n: int)
    requires
        0 <= n <= items.len(),
        forall|k: int|
            0 <= k < items.len() ==> !((#[trigger] items[k]).style is Some
                && items[k].style->0.font_size is Some),
    ensures
        sized_upto(items, n) == 0,
    decreases n,
{
    if n > 0 {
        lemma_no_sizes(items, n - 1);
        assert(items[n - 1].size() is None);
    }
}

/// The baseline of a line leads from the start of its first measured run to the end of its last.
pub proof fn baselines_span_measured_runs(items: Seq<TextItem>, page_width: int, i: int, j: int)
    requires
        0 <= i <= j < items.len(),
        items[i].baseline is Some,
        items[j].baseline is Some,
        forall|k: int|
            0 <= k < items.len() && (k < i || k > j) ==> (#[trigger] items[k]).baseline is None,
    ensures
        metrics_of(items, page_width).baseline.start == items[i].baseline->0.start,
        metrics_of(items, page_width).baseline.end == items[j].baseline->0.end,
{
    lemma_measured(items, items.len() as int, i, j);
}

proof fn lemma_measured(items: Seq<TextItem>, n: int, i: int, j: int)
    requires
        0 <= i <= j < items.len(),
        0 <= n <= items.len(),
        items[i].baseline is Some,
        items[j].baseline is Some,
        forall|k: int|
            0 <= k < items.len() && (k < i || k > j) ==> (#[trigger] items[k]).baseline is None,
    ensures
        n <= i ==> measured_upto(items, n) is None,
        n > i ==> measured_upto(items, n) is Some && measured_upto(items, n)->0.start
            == items[i].baseline->0.start,
        n > j ==> measured_upto(items, n)->0.end == items[j].baseline->0.end,
    decreases n,
{
    if n > 0 {
        lemma_measured(items, n - 1, i, j);
    }
}

/// Whether two aligned runs of upright text rest on one line in one size: their sizes differ by no
/// more than is allowed, and their baselines by no more than a fifth of the smaller size.
pub open spec fn rests_with(a: AlignedItem, b: AlignedItem, tolerance: int) -> bool {
    let sa = if a.item.style is Some && a.item.style->0.font_size is Some
        && a.item.style->0.font_size->0 > 0 {
        a.item.style->0.font_size->0 as int
    } else {
        a.bbox.bottom - a.bbox.top
    };
    let sb = if b.item.style is Some && b.item.style->0.font_size is Some
        && b.item.style->0.font_size->0 > 0 {
        b.item.style->0.font_size->0 as int
    } else {
        b.bbox.bottom - b.bbox.top
    };
    let ya = match a.item.baseline {
        Some(line) => line.start.y as int,
        None => a.bbox.bottom as int,
    };
    let yb = match b.item.baseline {
        Some(line) => line.start.y as int,
        None => b.bbox.bottom as int,
    };
    apart(sa, sb) <= tolerance && 5 * apart(ya, yb) <= clamped(smaller(sa, sb))
}

proof fn lemma_rests(a: AlignedItem, b: AlignedItem, tolerance: int)
    ensures
        same_body(a, b, tolerance) == rests_with(a, b, tolerance),
{
}

proof fn lemma_body_band(bands: Seq<Seq<AlignedItem>>, i: int, item: AlignedItem, tolerance: int)
    requires
        0 <= i <= bands.len(),
    ensures
        match body_band(bands, i, item, tolerance) {
            None => forall|k: int|
                i <= k < bands.len() ==> !rests_with(item, (#[trigger] bands[k])[0], tolerance),
            Some(k) => i <= k < bands.len() && rests_with(item, bands[k][0], tolerance),
        },
    decreases bands.len() - i,
{
    if i < bands.len() {
        lemma_rests(item, bands[i][0], tolerance);
        lemma_body_band(bands, i + 1, item, tolerance);
    }
}

/// Upright runs share a band where they rest on the line of its first run, in its size; no two
/// bands begin with runs that rest together.
pub proof fn bands_rest_on_one_line(items: Seq<AlignedItem>, n: int, tolerance: int)
    requires
        0 <= n <= items.len(),
        tolerance >= 0,
        forall|k: int| 0 <= k < items.len() ==> !(#[trigger] items[k]).vertical,
    ensures
        ({
            let bands = bands_upto(items, n, false, tolerance);
            &&& forall|b: int, k: int|
                #![trigger bands[b][k]]
                0 <= b < bands.len() && 1 <= k < bands[b].len() ==> rests_with(
                    bands[b][k],
                    bands[b][0],
                    tolerance,
                )
            &&& forall|a: int, b: int|
                #![trigger bands[a], bands[b]]
                0 <= a < b < bands.len() ==> !rests_with(bands[b][0], bands[a][0], tolerance)
            &&& forall|b: int| 0 <= b < bands.len() ==> (#[trigger] bands[b]).len() > 0
        }),
    decreases n,
{
    if n > 0 {
        bands_rest_on_one_line(items, n - 1, tolerance);
        let before = bands_upto(items, n - 1, false, tolerance);
        let after = bands_upto(items, n, false, tolerance);
        let item = items[n - 1];
        lemma_body_band(before, 0, item, tolerance);
        match body_band(before, 0, item, tolerance) {
            Some(i) => {
                assert forall|b: int, k: int|
                    #![trigger after[b][k]]
                    0 <= b < after.len() && 1 <= k < after[b].len() implies rests_with(
                    after[b][k],
                    after[b][0],
                    tolerance,
                ) by {
                    if b == i {
                        assert(after[b] == before[i].push(item));
                        if k < before[i].len() {
                            assert(after[b][k] == before[b][k]);
                        }
                    } else {
                        assert(after[b] == before[b]);
                        assert(after[b][k] == before[b][k]);
                    }
                }
                assert forall|a: int, b: int|
                    #![trigger after[a], after[b]]
                    0 <= a < b < after.len() implies !rests_with(
                    after[b][0],
                    after[a][0],
                    tolerance,
                ) by {
                    assert(after[a][0] == before[a][0] && after[b][0] == before[b][0]);
                    assert(!rests_with(before[b][0], before[a][0], tolerance));
                }
            },
            None => {
                assert forall|b: int, k: int|
                    #![trigger after[b][k]]
                    0 <= b < after.len() && 1 <= k < after[b].len() implies rests_with(
                    after[b][k],
                    after[b][0],
                    tolerance,
                ) by {
                    assert(after[b] == before[b]);
                    assert(after[b][k] == before[b][k]);
                }
                assert forall|a: int, b: int|
                    #![trigger after[a], after[b]]
                    0 <= a < b < after.len() implies !rests_with(
                    after[b][0],
                    after[a][0],
                    tolerance,
                ) by {
                    if b < before.len() {
                        assert(!rests_with(before[b][0], before[a][0], tolerance));
                    }
                }
            },
        }
    }
}

/// Whether a run goes on where another ends: their angles differ by at most two degrees, they
/// share at least half of the lower height, and, unless they stand on end, their sizes differ by
/// no more than is allowed and the gap between them is at most fifteen points, and no overlap
/// larger than the size of the former.
pub open spec fn goes_on(left: AlignedItem, right: AlignedItem, tolerance: int) -> bool {
    let low = if left.bbox.top > right.bbox.top {
        left.bbox.top
    } else {
        right.bbox.top
    };
    let high = smaller(left.bbox.bottom as int, right.bbox.bottom as int);
    let shared = if high > low {
        high - low
    } else {
        0
    };
    let room = smaller(left.bbox.bottom - left.bbox.top, right.bbox.bottom - right.bbox.top);
    let sl = run_size(left);
    let sr = run_size(right);
    let gap = right.bbox.left - left.bbox.right;
    &&& apart(
        left.item.rotation.angle as int,
        right.item.rotation.angle as int,
    ) <= 20_000
    &&& 2 * shared >= room && 2 * shared >= 10_000
    &&& left.vertical || (apart(sl, sr) <= tolerance && -sl <= gap && gap <= 150_000)
}

/// The size by which a run is held against its neighbours: the stated one, for slanted text the
/// stated height first, else the height of its box.
pub open spec fn run_size(a: AlignedItem) -> int {
    let stated = if a.item.style is None {
        None
    } else if oblique(a.item.rotation.angle as int) && a.item.style->0.font_height is Some {
        a.item.style->0.font_height
    } else {
        a.item.style->0.font_size
    };
    match stated {
        Some(size) => size as int,
        None => a.bbox.bottom - a.bbox.top,
    }
}

/// Whether an aligned run follows another in one line: it goes on there, and text on end leaves
/// no more than three times the longest run between.
pub open spec fn comes_next(
    previous: AlignedItem,
    item: AlignedItem,
    vertical: bool,
    longest: int,
    tolerance: int,
) -> bool {
    (vertical ==> item.bbox.left - previous.bbox.right <= 3 * longest) && goes_on(
        previous,
        item,
        tolerance,
    )
}

proof fn lemma_comes_next(
    previous: AlignedItem,
    item: AlignedItem,
    vertical: bool,
    longest: int,
    tolerance: int,
)
    ensures
        follows(previous, item, vertical, longest, tolerance) == comes_next(
            previous,
            item,
            vertical,
            longest,
            tolerance,
        ),
{
    assert(super::assemble::flow_size(previous) == run_size(previous));
    assert(super::assemble::flow_size(item) == run_size(item));
}

/// The runs of groups, one group behind the other.
pub open spec fn flattened(groups: Seq<Seq<AlignedItem>>) -> Seq<AlignedItem>
    decreases groups.len(),
{
    if groups.len() == 0 {
        Seq::empty()
    } else {
        flattened(groups.drop_last()) + groups.last()
    }
}

proof fn lemma_flow(
    band: Seq<AlignedItem>,
    n: int,
    vertical: bool,
    longest: int,
    tolerance: int,
)
    requires
        0 <= n <= band.len(),
    ensures
        ({
            let groups = flow_upto(band, n, vertical, longest, tolerance);
            &&& flattened(groups) == band.take(n)
            &&& forall|g: int| 0 <= g < groups.len() ==> (#[trigger] groups[g]).len() > 0
            &&& forall|g: int, k: int|
                #![trigger groups[g][k]]
                0 <= g < groups.len() && 1 <= k < groups[g].len() ==> comes_next(
                    groups[g][k - 1],
                    groups[g][k],
                    vertical,
                    longest,
                    tolerance,
                )
            &&& forall|g: int|
                1 <= g < groups.len() ==> !comes_next(
                    groups[g - 1].last(),
                    (#[trigger] groups[g])[0],
                    vertical,
                    longest,
                    tolerance,
                )
        }),
    decreases n,
{
    let groups = flow_upto(band, n, vertical, longest, tolerance);
    if n > 0 {
        lemma_flow(band, n - 1, vertical, longest, tolerance);
        let before = flow_upto(band, n - 1, vertical, longest, tolerance);
        let item = band[n - 1];
        assert(band.take(n) =~= band.take(n - 1).push(item));
        if before.len() > 0 {
            lemma_comes_next(before.last().last(), item, vertical, longest, tolerance);
        }
        if before.len() > 0 && follows(before.last().last(), item, vertical, longest, tolerance) {
            let last = before.len() - 1;
            assert(groups.drop_last() =~= before.drop_last());
            assert(groups.last() == before.last().push(item));
            assert(flattened(groups) =~= flattened(before).push(item));
            assert forall|g: int, k: int|
                #![trigger groups[g][k]]
                0 <= g < groups.len() && 1 <= k < groups[g].len() implies comes_next(
                groups[g][k - 1],
                groups[g][k],
                vertical,
                longest,
                tolerance,
            ) by {
                if g == last {
                    if k < before[g].len() {
                        assert(groups[g][k] == before[g][k] && groups[g][k - 1] == before[g][k
                            - 1]);
                    } else {
                        assert(groups[g][k - 1] == before[g].last());
                    }
                } else {
                    assert(groups[g] == before[g]);
                    assert(groups[g][k] == before[g][k]);
                }
            }
            assert forall|g: int| 1 <= g < groups.len() implies !comes_next(
                groups[g - 1].last(),
                (#[trigger] groups[g])[0],
                vertical,
                longest,
                tolerance,
            ) by {
                assert(groups[g][0] == before[g][0]);
                assert(groups[g - 1] == before[g - 1]);
            }
        } else {
            assert(groups.drop_last() =~= before);
            assert(flattened(groups) =~= flattened(before).push(item));
            assert forall|g: int, k: int|
                #![trigger groups[g][k]]
                0 <= g < groups.len() && 1 <= k < groups[g].len() implies comes_next(
                groups[g][k - 1],
                groups[g][k],
                vertical,
                longest,
                tolerance,
            ) by {
                assert(groups[g] == before[g]);
                assert(groups[g][k] == before[g][k]);
            }
            assert forall|g: int| 1 <= g < groups.len() implies !comes_next(
                groups[g - 1].last(),
                (#[trigger] groups[g])[0],
                vertical,
                longest,
                tolerance,
            ) by {
                if g < before.len() {
                    assert(groups[g] == before[g]);
                }
                assert(groups[g - 1] == before[g - 1]);
            }
        }
    } else {
        assert(flattened(groups) =~= band.take(0));
    }
}

proof fn lemma_reach(band: Seq<AlignedItem>, n: int)
    requires
        0 <= n <= band.len(),
    ensures
        band_reach(band, n) >= 0,
        forall|k: int|
            0 <= k < n ==> (#[trigger] band[k]).bbox.right - band[k].bbox.left <= band_reach(
                band,
                n,
            ),
        band_reach(band, n) == 0 || exists|k: int|
            0 <= k < n && (#[trigger] band[k]).bbox.right - band[k].bbox.left == band_reach(
                band,
                n,
            ),
    decreases n,
{
    if n > 0 {
        lemma_reach(band, n - 1);
        let before = band_reach(band, n - 1);
        if before != 0 {
            let k = choose|k: int|
                0 <= k < n - 1 && (#[trigger] band[k]).bbox.right - band[k].bbox.left == before;
            assert(band[k].bbox.right - band[k].bbox.left == before);
        }
        assert(band[n - 1].bbox.wide() == band[n - 1].bbox.right - band[n - 1].bbox.left);
    }
}

/// The runs of a band, along the line, make one fragment as long as each comes next behind the
/// one before it; where one does not, a new fragment begins.
pub proof fn fragments_end_where_no_run_comes_next(band: Seq<AlignedItem>, tolerance: int) -> (
    longest: int)
    requires
        band.len() > 0,
    ensures
        longest >= 0,
        forall|k: int|
            0 <= k < band.len() ==> (#[trigger] band[k]).bbox.right - band[k].bbox.left <= longest,
        longest == 0 || exists|k: int|
            0 <= k < band.len() && (#[trigger] band[k]).bbox.right - band[k].bbox.left == longest,
        ({
            let groups = band_groups(band, tolerance);
            let all = flattened(groups);
            &&& all.to_multiset() == band.to_multiset()
            &&& forall|i: int, j: int|
                #![trigger all[i], all[j]]
                0 <= i < j < all.len() ==> all[i].bbox.left <= all[j].bbox.left
            &&& forall|g: int| 0 <= g < groups.len() ==> (#[trigger] groups[g]).len() > 0
            &&& forall|g: int, k: int|
                #![trigger groups[g][k]]
                0 <= g < groups.len() && 1 <= k < groups[g].len() ==> comes_next(
                    groups[g][k - 1],
                    groups[g][k],
                    band[0].vertical,
                    longest,
                    tolerance,
                )
            &&& forall|g: int|
                1 <= g < groups.len() ==> !comes_next(
                    groups[g - 1].last(),
                    (#[trigger] groups[g])[0],
                    band[0].vertical,
                    longest,
                    tolerance,
                )
        }),
{
    let ordered = sorted(band, AlignedOrder::Along);
    let reach = band_reach(band, band.len() as int);
    sorting_orders_and_keeps(band, AlignedOrder::Along);
    lemma_reach(band, band.len() as int);
    lemma_flow(ordered, ordered.len() as int, band[0].vertical, reach, tolerance);
    assert(ordered.take(ordered.len() as int) =~= ordered);
    assert forall|i: int, j: int|
        #![trigger ordered[i], ordered[j]]
        0 <= i < j < ordered.len() implies ordered[i].bbox.left <= ordered[j].bbox.left by {
        assert(!AlignedOrder::Along.lt(ordered[j], ordered[i]));
    }
    reach
}

/// Whether two runs are turned alike: their angles differ by at most two degrees, and both are
/// slanted or neither is.
#[verifier::opaque]
pub open spec fn turned_alike(a: TextItem, b: TextItem) -> bool {
    apart(a.rotation.angle as int, b.rotation.angle as int) <= 20_000 && oblique(
        a.rotation.angle as int,
    ) == oblique(b.rotation.angle as int)
}

proof fn lemma_turned_alike(a: TextItem, b: TextItem)
    ensures
        turned_alike(a, b) == same_orientation(b, a),
{
    reveal(turned_alike);
}

/// Runs share an orientation group where they are turned like its first run; where the next run
/// is not, a new group begins.
pub proof fn groups_share_an_orientation(items: Seq<TextItem>, n: int)
    requires
        0 <= n <= items.len(),
    ensures
        ({
            let groups = orientations(items, n);
            &&& forall|g: int| 0 <= g < groups.len() ==> (#[trigger] groups[g]).len() > 0
            &&& forall|g: int, k: int|
                #![trigger groups[g][k]]
                0 <= g < groups.len() && 1 <= k < groups[g].len() ==> turned_alike(
                    groups[g][k],
                    groups[g][0],
                )
            &&& forall|g: int|
                1 <= g < groups.len() ==> !turned_alike(
                    (#[trigger] groups[g])[0],
                    groups[g - 1][0],
                )
        }),
    decreases n,
{
    if n > 0 {
        groups_share_an_orientation(items, n - 1);
        let before = orientations(items, n - 1);
        let after = orientations(items, n);
        let item = items[n - 1];
        if before.len() > 0 {
            lemma_turned_alike(item, before.last()[0]);
        }
        if before.len() > 0 && turned_alike(item, before.last()[0]) {
            let last = before.len() - 1;
            assert(after == before.update(last, before[last].push(item)));
            assert forall|g: int, k: int|
                #![trigger after[g][k]]
                0 <= g < after.len() && 1 <= k < after[g].len() implies turned_alike(
                after[g][k],
                after[g][0],
            ) by {
                if g == last && k == before[g].len() {
                    assert(after[g] == before[g].push(item));
                } else {
                    assert(after[g][k] == before[g][k] && after[g][0] == before[g][0]);
                }
            }
            assert forall|g: int| 1 <= g < after.len() implies !turned_alike(
                (#[trigger] after[g])[0],
                after[g - 1][0],
            ) by {
                assert(after[g][0] == before[g][0] && after[g - 1][0] == before[g - 1][0]);
            }
        } else {
            assert(after == before.push(seq![item]));
            assert forall|g: int, k: int|
                #![trigger after[g][k]]
                0 <= g < after.len() && 1 <= k < after[g].len() implies turned_alike(
                after[g][k],
                after[g][0],
            ) by {
                assert(after[g] == before[g]);
                assert(after[g][k] == before[g][k]);
            }
            assert forall|g: int| 1 <= g < after.len() implies !turned_alike(
                (#[trigger] after[g])[0],
                after[g - 1][0],
            ) by {
                if g < before.len() {
                    assert(after[g] == before[g] && after[g - 1] == before[g - 1]);
                } else {
                    assert(after[g - 1] == before[g - 1]);
                }
            }
        }
    }
}

/// Whether two fragments are parts of one body line: they are read alike, their angles differ by
/// at most two degrees, their sizes by no more than is allowed and their baselines by no more
/// than a fifth of the smaller size, and the gap between them is at most fifteen points, and no
/// overlap larger than that size.
pub open spec fn belong_together(a: FragmentModel, b: FragmentModel, tolerance: int) -> bool {
    let size = smaller(a.metrics.font_size as int, b.metrics.font_size as int);
    let gap = if a.bbox.left - b.bbox.right > b.bbox.left - a.bbox.right {
        a.bbox.left - b.bbox.right
    } else {
        b.bbox.left - a.bbox.right
    };
    &&& a.direction == b.direction
    &&& apart(a.rotation.angle as int, b.rotation.angle as int) <= 20_000
    &&& apart(a.metrics.font_size as int, b.metrics.font_size as int) <= tolerance
    &&& 5 * apart(a.baseline.start.y as int, b.baseline.start.y as int) <= clamped(size)
    &&& -size <= gap && gap <= 150_000
}

proof fn lemma_bridge_from(fs: Seq<FragmentModel>, left: int, right: int, tolerance: int)
    requires
        0 <= right,
    ensures
        match bridge_from(fs, left, right, tolerance) {
            None => forall|k: int|
                right <= k < fs.len() ==> !belong_together(fs[left], #[trigger] fs[k], tolerance),
            Some(k) => right <= k < fs.len() && belong_together(fs[left], fs[k], tolerance),
        },
    decreases fs.len() - right,
{
    if right < fs.len() {
        lemma_bridge_from(fs, left, right + 1, tolerance);
    }
}

proof fn lemma_bridged_pair(fs: Seq<FragmentModel>, left: int, tolerance: int)
    requires
        0 <= left,
    ensures
        match bridged_pair(fs, left, tolerance) {
            None => forall|i: int, j: int|
                #![trigger fs[i], fs[j]]
                left <= i < j < fs.len() && level(fs[i].rotation.angle as int) && fs[i].direction
                    != WritingDirection::Vertical ==> !belong_together(fs[i], fs[j], tolerance),
            Some((i, j)) => left <= i < j < fs.len() && belong_together(fs[i], fs[j], tolerance),
        },
    decreases fs.len() - left,
{
    if left < fs.len() {
        lemma_bridge_from(fs, left, left + 1, tolerance);
        lemma_bridged_pair(fs, left + 1, tolerance);
    }
}

proof fn lemma_rejoined(fs: Seq<FragmentModel>, tolerance: int, page_width: int)
    ensures
        ({
            let r = rejoined(fs, tolerance, page_width);
            forall|i: int, j: int|
                #![trigger r[i], r[j]]
                0 <= i < j < r.len() && level(r[i].rotation.angle as int) && r[i].direction
                    != WritingDirection::Vertical ==> !belong_together(r[i], r[j], tolerance)
        }),
    decreases fs.len(),
{
    lemma_bridged_pair(fs, 0, tolerance);
    if let Some((left, right)) = bridged_pair(fs, 0, tolerance) {
        lemma_rejoined(
            fs.remove(right).update(
                left,
                super::assemble::bridged(fs[left], fs[right], page_width),
            ),
            tolerance,
            page_width,
        );
    }
}

/// The lines of a page stand in the order of their angles, then down the page, then to the right;
/// and no two of them that are level belong together.
pub proof fn assembled_lines_are_whole(items: Seq<TextItem>, config: FusionConfig, i: int, j: int)
    requires
        assembled(items, config) is Ok,
        0 <= i < j < assembled(items, config)->Ok_0.len(),
    ensures
        ({
            let lines = assembled(items, config)->Ok_0;
            let (a, b) = (lines[i], lines[j]);
            let tolerance = if config.estimated_font_size_tolerance > 5_000 {
                config.estimated_font_size_tolerance as int
            } else {
                5_000
            };
            &&& a.rotation.angle < b.rotation.angle || (a.rotation.angle == b.rotation.angle && (
            reading_y(a) < reading_y(b) || (reading_y(a) == reading_y(b) && a.bbox.left
                <= b.bbox.left)))
            &&& a != b && level(a.rotation.angle as int) && level(b.rotation.angle as int)
                && a.direction != WritingDirection::Vertical ==> !belong_together(a, b, tolerance)
        }),
{
    reveal(assembled);
    let page_width = seen_width(items);
    let tolerance = config.size_tolerance();
    let groups = run_groups(sorted(items, super::bidi::ItemOrder::Angle), tolerance)->Ok_0;
    let attached = with_scripts(
        super::assemble::as_fragments(groups, page_width),
        page_width,
    );
    let r = rejoined(attached, tolerance, page_width);
    let lines = sorted(r, FragmentOrder::Page);
    lemma_rejoined(attached, tolerance, page_width);
    sorting_orders_and_keeps(r, FragmentOrder::Page);
    assert(!FragmentOrder::Page.lt(lines[j], lines[i]));
    let (a, b) = (lines[i], lines[j]);
    assert(lines.contains(a) && lines.contains(b));
    sorting_holds_the_same(r, FragmentOrder::Page, a);
    sorting_holds_the_same(r, FragmentOrder::Page, b);
    let (p, q) = (r.index_of(a), r.index_of(b));
    assert(r[p] == a && r[q] == b);
    if a != b && belong_together(a, b, tolerance) {
        assert(belong_together(b, a, tolerance));
        if p < q {
            assert(!level(r[p].rotation.angle as int) || r[p].direction
                == WritingDirection::Vertical || !belong_together(r[p], r[q], tolerance));
        } else {
            assert(!level(r[q].rotation.angle as int) || r[q].direction
                == WritingDirection::Vertical || !belong_together(r[q], r[p], tolerance));
        }
    }
}

/// Upright text with a measured baseline is read by that, other text by its top edge.
pub proof fn raised_text_does_not_jump_ahead(f: FragmentModel, k: int)
    ensures
        0 <= k < f.items.len() && f.items[k].baseline is Some && f.direction
            != WritingDirection::Vertical && !oblique(f.rotation.angle as int) ==> reading_y(f)
            == f.baseline.start.y,
        f.direction == WritingDirection::Vertical || oblique(f.rotation.angle as int) ==> reading_y(
            f,
        ) == f.bbox.top,
        (forall|i: int| 0 <= i < f.items.len() ==> (#[trigger] f.items[i]).baseline is None)
            ==> reading_y(f) == f.bbox.top,
{
}

/// Two parts of one body line are read from the left, or from the right where the text is.
pub proof fn joined_parts_are_read_in_order(a: FragmentModel, b: FragmentModel)
    ensures
        a.direction != WritingDirection::RightToLeft && a.bbox.left < b.bbox.left ==> bridged_runs(
            a,
            b,
        ) == a.items + b.items,
        a.direction != WritingDirection::RightToLeft && a.bbox.left > b.bbox.left ==> bridged_runs(
            a,
            b,
        ) == b.items + a.items,
        a.direction == WritingDirection::RightToLeft && a.bbox.right > b.bbox.right
            ==> bridged_runs(a, b) == a.items + b.items,
        a.direction == WritingDirection::RightToLeft && a.bbox.right < b.bbox.right
            ==> bridged_runs(a, b) == b.items + a.items,
{
}

} // verus!
