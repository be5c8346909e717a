//! Which blanks cut a region.

use vstd::prelude::*;

use super::fallback::{
    above_upto, around, banner_of, cut_of, ends, heights_upto, indices_of, is_crossed, may_cut,
    median2, partition_of, region_of, starts, widest_upto, HeightOrder, Spot, SpotOrder, TreeModel,
};
use super::region::{CutAxis, RegionPath};
use crate::geometry::Bbox;
use crate::sorting::{
    is_ordered, ordered_arrangement_is_unique, sorted, sorting_holds_the_same,
    sorting_orders_and_keeps, Order,
};

verus! {

/// Whether numbers are the positive heights of spots, from the smallest to the largest.
pub open spec fn lists_heights(h: Seq<i64>, spots: Seq<Spot>) -> bool {
    &&& forall|i: int, j: int| #![trigger h[i], h[j]] 0 <= i < j < h.len() ==> h[i] <= h[j]
    &&& h.to_multiset() == spots.filter(
        |s: Spot| s.bbox.bottom > s.bbox.top,
    ).map_values(|s: Spot| (s.bbox.bottom - s.bbox.top) as i64).to_multiset()
}

/// Twice the middle of ascending heights, or twice the mean of the two in the middle; two points
/// where there are none.
pub open spec fn middle2(h: Seq<i64>) -> int {
    let n = h.len() as int;
    if n == 0 {
        20_000
    } else if n % 2 == 1 {
        2 * h[(n - 1) / 2]
    } else {
        h[n / 2 - 1] + h[n / 2]
    }
}

proof fn lemma_heights_prefix(s: Seq<Spot>, t: Seq<Spot>, n: int)
    requires
        0 <= n <= s.len(),
        n <= t.len(),
        forall|k: int| 0 <= k < n ==> s[k] == t[k],
    ensures
        heights_upto(s, n) == heights_upto(t, n),
    decreases n,
{
    if n > 0 {
        lemma_heights_prefix(s, t, n - 1);
    }
}

/// The heights of spots, one by one.
proof fn lemma_heights_listed(s: Seq<Spot>)
    ensures
        heights_upto(s, s.len() as int) == s.filter(
            |s: Spot| s.bbox.bottom > s.bbox.top,
        ).map_values(|s: Spot| (s.bbox.bottom - s.bbox.top) as i64),
    decreases s.len(),
{
    reveal(Seq::filter);
    let tall = |s: Spot| s.bbox.bottom > s.bbox.top;
    let high = |s: Spot| (s.bbox.bottom - s.bbox.top) as i64;
    if s.len() > 0 {
        let rest = s.drop_last();
        lemma_heights_listed(rest);
        lemma_heights_prefix(rest, s, rest.len() as int);
        let kept = rest.filter(tall);
        assert(s.filter(tall) == if tall(s.last()) {
            kept.push(s.last())
        } else {
            kept
        });
        assert(kept.push(s.last()).map_values(high) =~= kept.map_values(high).push(
            high(s.last()),
        ));
        assert(heights_upto(s, s.len() as int) =~= s.filter(tall).map_values(high));
    } else {
        assert(s.filter(tall).map_values(high) =~= Seq::empty());
    }
}

/// Taking a spot away takes its height away.
proof fn lemma_heights_without(s: Seq<Spot>, k: int)
    requires
        0 <= k < s.len(),
    ensures
        heights_upto(s, s.len() as int).to_multiset() == if s[k].bbox.high() > 0 {
            heights_upto(s.remove(k), s.len() - 1).to_multiset().insert(s[k].bbox.high() as i64)
        } else {
            heights_upto(s.remove(k), s.len() - 1).to_multiset()
        },
    decreases s.len(),
{
    broadcast use vstd::seq_lib::group_to_multiset_ensures;

    let n = s.len() as int;
    let rest = s.drop_last();
    lemma_heights_prefix(rest, s, n - 1);
    if k == n - 1 {
        assert(s.remove(k) =~= rest);
    } else {
        lemma_heights_without(rest, k);
        let less = s.remove(k);
        assert(less.drop_last() =~= rest.remove(k));
        lemma_heights_prefix(rest.remove(k), less, n - 2);
        assert(less[n - 2] == s[n - 1]);
        let a = heights_upto(s, n).to_multiset();
        let b = heights_upto(less, n - 1).to_multiset();
        if s[k].bbox.high() > 0 {
            assert(a =~= b.insert(s[k].bbox.high() as i64));
        } else {
            assert(a =~= b);
        }
    }
}

/// The heights of spots do not depend on the order in which they are listed.
proof fn lemma_heights_permuted(a: Seq<Spot>, b: Seq<Spot>)
    requires
        a.to_multiset() == b.to_multiset(),
    ensures
        heights_upto(a, a.len() as int).to_multiset() == heights_upto(
            b,
            b.len() as int,
        ).to_multiset(),
    decreases a.len(),
{
    broadcast use vstd::seq_lib::group_to_multiset_ensures;

    assert(a.len() == a.to_multiset().len());
    assert(b.len() == b.to_multiset().len());
    if a.len() > 0 {
        let x = a.last();
        assert(a.contains(x));
        assert(b.to_multiset().count(x) > 0);
        assert(b.contains(x));
        let k = b.index_of(x);
        let last = a.len() - 1;
        assert(a.remove(last).to_multiset() =~= b.remove(k).to_multiset());
        lemma_heights_permuted(a.remove(last), b.remove(k));
        lemma_heights_without(a, last);
        lemma_heights_without(b, k);
    }
}

/// The median is the middle of the heights.
proof fn lemma_median(spots: Seq<Spot>, s: Seq<Spot>, h: Seq<i64>)
    requires
        lists_heights(h, spots),
        s.to_multiset() == spots.to_multiset(),
    ensures
        median2(s) == middle2(h),
        middle2(h) > 0,
{
    broadcast use vstd::seq_lib::group_to_multiset_ensures;

    lemma_heights_permuted(s, spots);
    lemma_heights_listed(spots);
    let all = heights_upto(s, s.len() as int);
    let t = sorted(all, HeightOrder);
    sorting_orders_and_keeps(all, HeightOrder);
    assert(t.to_multiset() == h.to_multiset());
    assert(is_ordered(h, HeightOrder));
    ordered_arrangement_is_unique(t, h, HeightOrder);
    assert(t == h);
    lemma_heights_positive(s, s.len() as int);
    assert forall|i: int| 0 <= i < h.len() implies #[trigger] h[i] > 0 by {
        assert(t.contains(h[i]));
        sorting_holds_the_same(all, HeightOrder, h[i]);
        let k = all.index_of(h[i]);
        assert(all[k] == h[i]);
    }
    let n = h.len() as int;
    if n > 0 {
        assert(n % 2 == 1 ==> (n - 1) / 2 == n / 2);
        assert(n % 2 == 0 ==> 0 <= n / 2 - 1);
    }
}

proof fn lemma_heights_positive(s: Seq<Spot>, n: int)
    requires
        0 <= n <= s.len(),
    ensures
        forall|k: int| 0 <= k < heights_upto(s, n).len() ==> #[trigger] heights_upto(s, n)[k] > 0,
    decreases n,
{
    if n > 0 {
        lemma_heights_positive(s, n - 1);
        let before = heights_upto(s, n - 1);
        let after = heights_upto(s, n);
        let high = s[n - 1].bbox.high();
        assert(high > 0 ==> high as i64 == high);
        assert forall|k: int| 0 <= k < after.len() implies #[trigger] after[k] > 0 by {
            if k < before.len() {
                assert(before[k] > 0);
            }
        }
    }
}

/// Where the first `n` spots end, and the others start.
proof fn lemma_edges(s: Seq<Spot>, n: int)
    requires
        1 <= n < s.len(),
    ensures
        forall|i: int| 0 <= i < n ==> (#[trigger] s[i]).bbox.bottom <= ends(s, CutAxis::Horizontal, n),
        forall|i: int| 0 <= i < n ==> (#[trigger] s[i]).bbox.right <= ends(s, CutAxis::Vertical, n),
        exists|i: int|
            0 <= i < n && (#[trigger] s[i]).bbox.bottom == ends(s, CutAxis::Horizontal, n),
        exists|i: int| 0 <= i < n && (#[trigger] s[i]).bbox.right == ends(s, CutAxis::Vertical, n),
        forall|i: int|
            n <= i < s.len() ==> (#[trigger] s[i]).bbox.top >= starts(s, CutAxis::Horizontal, n),
        forall|i: int|
            n <= i < s.len() ==> (#[trigger] s[i]).bbox.left >= starts(s, CutAxis::Vertical, n),
        exists|i: int|
            n <= i < s.len() && (#[trigger] s[i]).bbox.top == starts(s, CutAxis::Horizontal, n),
        exists|i: int|
            n <= i < s.len() && (#[trigger] s[i]).bbox.left == starts(s, CutAxis::Vertical, n),
{
    lemma_ends(s, n);
    lemma_starts(s, n);
}

proof fn lemma_ends(s: Seq<Spot>, n: int)
    requires
        1 <= n <= s.len(),
    ensures
        forall|i: int| 0 <= i < n ==> (#[trigger] s[i]).bbox.bottom <= ends(s, CutAxis::Horizontal, n),
        forall|i: int| 0 <= i < n ==> (#[trigger] s[i]).bbox.right <= ends(s, CutAxis::Vertical, n),
        exists|i: int|
            0 <= i < n && (#[trigger] s[i]).bbox.bottom == ends(s, CutAxis::Horizontal, n),
        exists|i: int| 0 <= i < n && (#[trigger] s[i]).bbox.right == ends(s, CutAxis::Vertical, n),
    decreases n,
{
    if n > 1 {
        lemma_ends(s, n - 1);
        let p = choose|i: int|
            0 <= i < n - 1 && (#[trigger] s[i]).bbox.bottom == ends(s, CutAxis::Horizontal, n - 1);
        let q = choose|i: int|
            0 <= i < n - 1 && (#[trigger] s[i]).bbox.right == ends(s, CutAxis::Vertical, n - 1);
        assert(s[p].bbox.bottom == ends(s, CutAxis::Horizontal, n) || s[n - 1].bbox.bottom == ends(
            s,
            CutAxis::Horizontal,
            n,
        ));
        assert(s[q].bbox.right == ends(s, CutAxis::Vertical, n) || s[n - 1].bbox.right == ends(
            s,
            CutAxis::Vertical,
            n,
        ));
    } else {
        assert(s[0].bbox.bottom == ends(s, CutAxis::Horizontal, 1));
        assert(s[0].bbox.right == ends(s, CutAxis::Vertical, 1));
    }
}

proof fn lemma_starts(s: Seq<Spot>, n: int)
    requires
        0 <= n < s.len(),
    ensures
        forall|i: int|
            n <= i < s.len() ==> (#[trigger] s[i]).bbox.top >= starts(s, CutAxis::Horizontal, n),
        forall|i: int|
            n <= i < s.len() ==> (#[trigger] s[i]).bbox.left >= starts(s, CutAxis::Vertical, n),
        exists|i: int|
            n <= i < s.len() && (#[trigger] s[i]).bbox.top == starts(s, CutAxis::Horizontal, n),
        exists|i: int|
            n <= i < s.len() && (#[trigger] s[i]).bbox.left == starts(s, CutAxis::Vertical, n),
    decreases s.len() - n,
{
    if n < s.len() - 1 {
        lemma_starts(s, n + 1);
        let p = choose|i: int|
            n + 1 <= i < s.len() && (#[trigger] s[i]).bbox.top == starts(
                s,
                CutAxis::Horizontal,
                n + 1,
            );
        let q = choose|i: int|
            n + 1 <= i < s.len() && (#[trigger] s[i]).bbox.left == starts(
                s,
                CutAxis::Vertical,
                n + 1,
            );
        assert(s[p].bbox.top == starts(s, CutAxis::Horizontal, n) || s[n].bbox.top == starts(
            s,
            CutAxis::Horizontal,
            n,
        ));
        assert(s[q].bbox.left == starts(s, CutAxis::Vertical, n) || s[n].bbox.left == starts(
            s,
            CutAxis::Vertical,
            n,
        ));
    } else {
        assert(s[n].bbox.top == starts(s, CutAxis::Horizontal, n));
        assert(s[n].bbox.left == starts(s, CutAxis::Vertical, n));
    }
}

/// Where some cut is allowed there is a widest, and no allowed cut is wider.
proof fn lemma_widest_is_widest(
    s: Seq<Spot>,
    obstacles: Seq<Bbox>,
    region: Bbox,
    axis: CutAxis,
    n: int,
    at: int,
)
    requires
        1 <= at < n,
        may_cut(s, obstacles, region, axis, at),
    ensures
        widest_upto(s, obstacles, region, axis, n) matches Some(best) && starts(s, axis, best)
            - ends(s, axis, best) >= starts(s, axis, at) - ends(s, axis, at),
    decreases n,
{
    if at < n - 1 {
        lemma_widest_is_widest(s, obstacles, region, axis, n - 1, at);
    }
}

/// A widest cut is allowed.
proof fn lemma_widest_may_cut(
    s: Seq<Spot>,
    obstacles: Seq<Bbox>,
    region: Bbox,
    axis: CutAxis,
    n: int,
)
    ensures
        widest_upto(s, obstacles, region, axis, n) matches Some(best) ==> 1 <= best < n && may_cut(
            s,
            obstacles,
            region,
            axis,
            best,
        ),
    decreases n,
{
    if n > 1 {
        lemma_widest_may_cut(s, obstacles, region, axis, n - 1);
    }
}

/// Sorting twice keeps every spot.
proof fn lemma_resorted(spots: Seq<Spot>, order: SpotOrder)
    ensures
        ({
            let s = sorted(spots, SpotOrder::Corner);
            let t = sorted(s, order);
            &&& s.len() == spots.len() && t.len() == spots.len()
            &&& s.to_multiset() == spots.to_multiset() && t.to_multiset() == spots.to_multiset()
            &&& is_ordered(t, order)
            &&& forall|i: int| 0 <= i < t.len() ==> spots.contains(#[trigger] t[i])
            &&& forall|i: int| 0 <= i < spots.len() ==> t.contains(#[trigger] spots[i])
        }),
{
    let s = sorted(spots, SpotOrder::Corner);
    let t = sorted(s, order);
    sorting_orders_and_keeps(spots, SpotOrder::Corner);
    sorting_orders_and_keeps(s, order);
    assert forall|i: int| 0 <= i < t.len() implies spots.contains(#[trigger] t[i]) by {
        assert(t.contains(t[i]));
        sorting_holds_the_same(s, order, t[i]);
        sorting_holds_the_same(spots, SpotOrder::Corner, t[i]);
    }
    assert forall|i: int| 0 <= i < spots.len() implies t.contains(#[trigger] spots[i]) by {
        assert(spots.contains(spots[i]));
        sorting_holds_the_same(s, order, spots[i]);
        sorting_holds_the_same(spots, SpotOrder::Corner, spots[i]);
    }
}

/// Whether a band between two heights is blank: every spot ends above it or starts below it, and
/// some do each.
pub open spec fn is_blank_band(spots: Seq<Spot>, above: int, below: int) -> bool {
    &&& forall|i: int|
        0 <= i < spots.len() ==> (#[trigger] spots[i]).bbox.bottom <= above || spots[i].bbox.top
            >= below
    &&& exists|i: int| 0 <= i < spots.len() && (#[trigger] spots[i]).bbox.bottom <= above
    &&& exists|i: int| 0 <= i < spots.len() && (#[trigger] spots[i]).bbox.top >= below
}

/// A blank band that is high enough is a cut, and the widest cut is no narrower.
proof fn lemma_band(
    spots: Seq<Spot>,
    obstacles: Seq<Bbox>,
    bbox: Bbox,
    h: Seq<i64>,
    above: int,
    below: int,
)
    requires
        forall|i: int|
            0 <= i < spots.len() ==> (#[trigger] spots[i]).bbox.top <= spots[i].bbox.bottom,
        lists_heights(h, spots),
        is_blank_band(spots, above, below),
        2 * (below - above) >= 3 * middle2(h),
    ensures
        ({
            let t = sorted(sorted(spots, SpotOrder::Corner), SpotOrder::Down);
            widest_upto(t, obstacles, bbox, CutAxis::Horizontal, t.len() as int) matches Some(best)
                && starts(t, CutAxis::Horizontal, best) - ends(t, CutAxis::Horizontal, best)
                >= below - above
        }),
        spots.len() >= 2,
{
    let t = sorted(sorted(spots, SpotOrder::Corner), SpotOrder::Down);
    let len = t.len() as int;
    lemma_resorted(spots, SpotOrder::Down);
    lemma_median(spots, t, h);
    assert forall|i: int| 0 <= i < len implies ((#[trigger] t[i]).bbox.bottom <= above
        || t[i].bbox.top >= below) && t[i].bbox.top <= t[i].bbox.bottom by {
        let k = spots.index_of(t[i]);
        assert(spots[k] == t[i]);
    }
    let p = choose|i: int| 0 <= i < spots.len() && (#[trigger] spots[i]).bbox.bottom <= above;
    let q = choose|i: int| 0 <= i < spots.len() && (#[trigger] spots[i]).bbox.top >= below;
    let u = t.index_of(spots[p]);
    let v = t.index_of(spots[q]);
    assert(t[u].bbox.bottom <= above && t[v].bbox.top >= below);
    assert(p != q);
    let n = lemma_first_below(t, below, v);
    assert forall|i: int| n <= i < len implies (#[trigger] t[i]).bbox.top >= below by {
        if t[i].bbox.top < below {
            assert(t[i].bbox.bottom <= above);
            assert(i != n);
            assert(!SpotOrder::Down.lt(t[i], t[n]));
        }
    }
    assert(u < n);
    lemma_edges(t, n);
    let e = choose|i: int|
        0 <= i < n && (#[trigger] t[i]).bbox.bottom == ends(t, CutAxis::Horizontal, n);
    let f = choose|i: int|
        n <= i < len && (#[trigger] t[i]).bbox.top == starts(t, CutAxis::Horizontal, n);
    assert(t[e].bbox.top < below);
    assert(may_cut(t, obstacles, bbox, CutAxis::Horizontal, n));
    lemma_widest_is_widest(t, obstacles, bbox, CutAxis::Horizontal, len, n);
}

/// The first spot that starts at a height or below it.
proof fn lemma_first_below(t: Seq<Spot>, below: int, v: int) -> (n: int)
    requires
        0 <= v < t.len(),
        t[v].bbox.top >= below,
    ensures
        0 <= n <= v,
        t[n].bbox.top >= below,
        forall|i: int| 0 <= i < n ==> (#[trigger] t[i]).bbox.top < below,
    decreases v,
{
    if exists|i: int| 0 <= i < v && (#[trigger] t[i]).bbox.top >= below {
        let w = choose|i: int| 0 <= i < v && (#[trigger] t[i]).bbox.top >= below;
        lemma_first_below(t, below, w)
    } else {
        v
    }
}

/// A region is cut where, between all that ends above and all that starts below, a blank band is
/// at least three times as high as the median of its lines. So no leaf holds such a band, unless
/// the tree is at its depth.
pub proof fn bands_are_cut(
    spots: Seq<Spot>,
    obstacles: Seq<Bbox>,
    bbox: Bbox,
    path: RegionPath,
    left: nat,
    h: Seq<i64>,
    above: int,
    below: int,
)
    requires
        left > 0,
        forall|i: int|
            0 <= i < spots.len() ==> (#[trigger] spots[i]).bbox.top <= spots[i].bbox.bottom,
        lists_heights(h, spots),
        is_blank_band(spots, above, below),
        2 * (below - above) >= 3 * middle2(h),
    ensures
        region_of(spots, obstacles, bbox, path, left) is Split,
{
    lemma_band(spots, obstacles, bbox, h, above, below);
    lemma_resorted(spots, SpotOrder::Down);
}

/// Whether a gap between two positions is blank: every spot ends before it or starts behind it,
/// some at its very edges, and several do each.
pub open spec fn is_blank_gap(spots: Seq<Spot>, before: int, behind: int, several: nat) -> bool {
    &&& forall|i: int|
        0 <= i < spots.len() ==> (#[trigger] spots[i]).bbox.right <= before || spots[i].bbox.left
            >= behind
    &&& exists|i: int| 0 <= i < spots.len() && (#[trigger] spots[i]).bbox.right == before
    &&& exists|i: int| 0 <= i < spots.len() && (#[trigger] spots[i]).bbox.left == behind
    &&& spots.filter(|s: Spot| s.bbox.right <= before).len() >= several
    &&& spots.filter(|s: Spot| s.bbox.left >= behind).len() >= several
}

/// How many spots pass a test does not depend on the order in which they are listed.
proof fn lemma_filter_permuted(a: Seq<Spot>, b: Seq<Spot>, test: spec_fn(Spot) -> bool)
    requires
        a.to_multiset() == b.to_multiset(),
    ensures
        a.filter(test).len() == b.filter(test).len(),
    decreases a.len(),
{
    broadcast use vstd::seq_lib::group_to_multiset_ensures;

    reveal(Seq::filter);
    assert(a.len() == a.to_multiset().len());
    assert(b.len() == b.to_multiset().len());
    if a.len() > 0 {
        let x = a.last();
        assert(a.contains(x));
        assert(b.to_multiset().count(x) > 0);
        let k = b.index_of(x);
        let last = a.len() - 1;
        assert(a.remove(last).to_multiset() =~= b.remove(k).to_multiset());
        lemma_filter_permuted(a.remove(last), b.remove(k), test);
        assert(a.remove(last) =~= a.drop_last());
        lemma_filter_without(b, k, test);
    }
}

proof fn lemma_filter_without(s: Seq<Spot>, k: int, test: spec_fn(Spot) -> bool)
    requires
        0 <= k < s.len(),
    ensures
        s.filter(test).len() == s.remove(k).filter(test).len() + if test(s[k]) {
            1int
        } else {
            0
        },
    decreases s.len(),
{
    reveal(Seq::filter);
    let n = s.len() as int;
    if k == n - 1 {
        assert(s.remove(k) =~= s.drop_last());
    } else {
        lemma_filter_without(s.drop_last(), k, test);
        let less = s.remove(k);
        assert(less.drop_last() =~= s.drop_last().remove(k));
        assert(less.last() == s.last());
    }
}

/// How many of the first `n` spots pass a test that they all pass and the others fail.
proof fn lemma_filter_split(s: Seq<Spot>, n: int, test: spec_fn(Spot) -> bool)
    requires
        0 <= n <= s.len(),
        forall|i: int| 0 <= i < n ==> test(#[trigger] s[i]),
        forall|i: int| n <= i < s.len() ==> !test(#[trigger] s[i]),
    ensures
        s.filter(test).len() == n,
    decreases s.len(),
{
    reveal(Seq::filter);
    if s.len() > 0 {
        let rest = s.drop_last();
        if n == s.len() {
            lemma_filter_split(rest, n - 1, test);
        } else {
            lemma_filter_split(rest, n, test);
        }
    }
}

proof fn lemma_first_behind(t: Seq<Spot>, behind: int, v: int) -> (n: int)
    requires
        0 <= v < t.len(),
        t[v].bbox.left >= behind,
    ensures
        0 <= n <= v,
        t[n].bbox.left >= behind,
        forall|i: int| 0 <= i < n ==> (#[trigger] t[i]).bbox.left < behind,
    decreases v,
{
    if exists|i: int| 0 <= i < v && (#[trigger] t[i]).bbox.left >= behind {
        let w = choose|i: int| 0 <= i < v && (#[trigger] t[i]).bbox.left >= behind;
        lemma_first_behind(t, behind, w)
    } else {
        v
    }
}

/// Whether an obstacle lies in a gap of a region.
pub open spec fn stands_between(o: Bbox, region: Bbox, before: int, behind: int) -> bool {
    o.left < behind && o.right > before && o.top < region.bottom && o.bottom > region.top
}

/// A region is cut where a blank gap runs through it from top to bottom and nothing stands in it:
/// between two lines and two others, where it is at least as wide as two median lines are high
/// and as three hundredths of the region; and between three and three others, where it is at
/// least as wide as one median line is high. Columns are parted before bands, unless a line that
/// reaches across most of the region heads it.
pub proof fn gutters_are_cut(
    spots: Seq<Spot>,
    obstacles: Seq<Bbox>,
    bbox: Bbox,
    path: RegionPath,
    left: nat,
    h: Seq<i64>,
    before: int,
    behind: int,
)
    requires
        left > 0,
        forall|i: int|
            0 <= i < spots.len() ==> (#[trigger] spots[i]).bbox.left <= spots[i].bbox.right,
        lists_heights(h, spots),
        before < behind,
        (is_blank_gap(spots, before, behind, 2) && behind - before >= middle2(h) && 100 * (behind
            - before) >= 3 * (bbox.right - bbox.left)) || (is_blank_gap(spots, before, behind, 3)
            && 2 * (behind - before) >= middle2(h)),
        forall|k: int|
            0 <= k < obstacles.len() ==> !stands_between(
                #[trigger] obstacles[k],
                bbox,
                before,
                behind,
            ),
    ensures
        region_of(spots, obstacles, bbox, path, left) is Split,
        (forall|i: int|
            0 <= i < spots.len() ==> 100 * ((#[trigger] spots[i]).bbox.right - spots[i].bbox.left)
                < 65 * (bbox.right - bbox.left)) ==> region_of(spots, obstacles, bbox, path, left)
            ->axis == CutAxis::Vertical,
{
    let s = sorted(spots, SpotOrder::Corner);
    let t = sorted(s, SpotOrder::Across);
    let len = t.len() as int;
    lemma_resorted(spots, SpotOrder::Across);
    lemma_median(spots, t, h);
    assert forall|i: int| 0 <= i < len implies ((#[trigger] t[i]).bbox.right <= before
        || t[i].bbox.left >= behind) && t[i].bbox.left <= t[i].bbox.right by {
        let k = spots.index_of(t[i]);
        assert(spots[k] == t[i]);
    }
    let p = choose|i: int| 0 <= i < spots.len() && (#[trigger] spots[i]).bbox.right == before;
    let q = choose|i: int| 0 <= i < spots.len() && (#[trigger] spots[i]).bbox.left == behind;
    let u = t.index_of(spots[p]);
    let v = t.index_of(spots[q]);
    assert(t[u].bbox.right == before && t[v].bbox.left == behind);
    let n = lemma_first_behind(t, behind, v);
    assert forall|i: int| n <= i < len implies (#[trigger] t[i]).bbox.left >= behind by {
        if t[i].bbox.left < behind {
            assert(t[i].bbox.right <= before);
            assert(i != n);
            assert(!SpotOrder::Across.lt(t[i], t[n]));
        }
    }
    assert(u < n);
    lemma_edges(t, n);
    assert(ends(t, CutAxis::Vertical, n) == before) by {
        let e = choose|i: int|
            0 <= i < n && (#[trigger] t[i]).bbox.right == ends(t, CutAxis::Vertical, n);
        assert(t[e].bbox.left < behind);
    }
    assert(starts(t, CutAxis::Vertical, n) == behind) by {
        let f = choose|i: int|
            n <= i < len && (#[trigger] t[i]).bbox.left == starts(t, CutAxis::Vertical, n);
        assert(t[f].bbox.left >= behind);
    }
    let near = |s: Spot| s.bbox.right <= before;
    let far = |s: Spot| s.bbox.left >= behind;
    lemma_filter_permuted(spots, t, near);
    lemma_filter_permuted(spots, t, far);
    assert forall|i: int| 0 <= i < n implies near(#[trigger] t[i]) by {
        assert(t[i].bbox.left < behind);
    }
    lemma_filter_split(t, n, near);
    lemma_filter_not(t, n, far);
    assert(!is_crossed(
        obstacles,
        bbox,
        ends(t, CutAxis::Vertical, n),
        starts(t, CutAxis::Vertical, n),
    )) by {
        if is_crossed(obstacles, bbox, before, behind) {
            let k = choose|k: int|
                #![trigger obstacles[k]]
                0 <= k < obstacles.len() && obstacles[k].left < behind && obstacles[k].right
                    > before && obstacles[k].top < bbox.bottom && obstacles[k].bottom > bbox.top;
            assert(stands_between(obstacles[k], bbox, before, behind));
        }
    }
    assert(may_cut(t, obstacles, bbox, CutAxis::Vertical, n));
    lemma_widest_is_widest(t, obstacles, bbox, CutAxis::Vertical, len, n);
    if forall|i: int|
        0 <= i < spots.len() ==> 100 * ((#[trigger] spots[i]).bbox.right - spots[i].bbox.left) < 65
            * (bbox.right - bbox.left) {
        lemma_resorted(spots, SpotOrder::Top);
        let first = sorted(s, SpotOrder::Top)[0];
        let k = spots.index_of(first);
        assert(spots[k] == first);
        assert(banner_of(s, bbox) is None);
    }
}

proof fn lemma_filter_not(s: Seq<Spot>, n: int, test: spec_fn(Spot) -> bool)
    requires
        0 <= n <= s.len(),
        forall|i: int| 0 <= i < n ==> !test(#[trigger] s[i]),
    ensures
        s.filter(test).len() <= s.len() - n,
    decreases s.len(),
{
    reveal(Seq::filter);
    if s.len() > 0 {
        let rest = s.drop_last();
        if n == s.len() {
            lemma_filter_not(rest, n - 1, test);
        } else {
            lemma_filter_not(rest, n, test);
        }
    }
}

/// A line that reaches across most of a region and has one and a half median lines of blank
/// below it is cut off first.
pub proof fn banners_are_cut_first(
    spots: Seq<Spot>,
    obstacles: Seq<Bbox>,
    bbox: Bbox,
    path: RegionPath,
    left: nat,
    h: Seq<i64>,
    top: int,
)
    requires
        left > 0,
        spots.len() >= 2,
        lists_heights(h, spots),
        0 <= top < spots.len(),
        spots[top].bbox.top <= spots[top].bbox.bottom,
        100 * (spots[top].bbox.right - spots[top].bbox.left) >= 65 * (bbox.right - bbox.left),
        forall|i: int|
            0 <= i < spots.len() && i != top ==> 2 * ((#[trigger] spots[i]).bbox.top
                - spots[top].bbox.bottom) > 3 * middle2(h) && spots[i].bbox.top
                <= spots[i].bbox.bottom,
    ensures
        region_of(spots, obstacles, bbox, path, left) is Split,
        region_of(spots, obstacles, bbox, path, left)->axis == CutAxis::Horizontal,
        *region_of(spots, obstacles, bbox, path, left)->first == region_of(
            seq![spots[top]],
            obstacles,
            spots[top].bbox,
            path.part(CutAxis::Horizontal, 0),
            (left - 1) as nat,
        ),
{
    let s = sorted(spots, SpotOrder::Corner);
    let t = sorted(s, SpotOrder::Top);
    let x = spots[top];
    let n = s.len() as int;
    let bottom = x.bbox.bottom as int;
    lemma_resorted(spots, SpotOrder::Top);
    lemma_median(spots, s, h);
    assert(t.contains(spots[top]));
    let u = t.index_of(x);
    if u != 0 {
        let k = spots.index_of(t[0]);
        assert(spots[k] == t[0]);
        assert(!SpotOrder::Top.lt(t[u], t[0]));
        assert(k == top);
    }
    assert(t[0] == x);
    let y = t[1];
    assert(spots.contains(y));
    let other = if top == 0 {
        1int
    } else {
        0int
    };
    assert(spots[other].bbox.bottom > bottom);
    assert forall|i: int| 0 <= i < spots.len() && spots[i] == x implies i == top by {
        if i != top {
            assert(spots[i].bbox.top > bottom);
        }
    }
    lemma_single(spots, top);
    assert(y != x) by {
        if y == x {
            lemma_two(t);
        }
    }
    let j = spots.index_of(y);
    assert(spots[j] == y && j != top);
    let upper = above_upto(s, bottom, true, n);
    let lower = above_upto(s, bottom, false, n);
    lemma_above(s, bottom, n);
    lemma_above_counts(s, bottom, n);
    let test = |v: Spot| v.bbox.bottom <= bottom;
    lemma_filter_permuted(spots, s, test);
    lemma_filter_one(spots, top, test);
    assert(upper.len() == 1);
    assert(upper[0] == x) by {
        assert(upper.contains(upper[0]));
        assert(s.contains(upper[0]));
        sorting_holds_the_same(spots, SpotOrder::Corner, upper[0]);
        let k = spots.index_of(upper[0]);
        assert(spots[k] == upper[0]);
    }
    assert(upper =~= seq![x]);
    assert(lower.len() == n - 1);
    assert(around(upper, bbox) == x.bbox);
}

proof fn lemma_single(spots: Seq<Spot>, top: int)
    requires
        0 <= top < spots.len(),
        forall|i: int| 0 <= i < spots.len() && spots[i] == spots[top] ==> i == top,
    ensures
        spots.to_multiset().count(spots[top]) == 1,
{
    broadcast use vstd::seq_lib::group_to_multiset_ensures;

    let rest = spots.remove(top);
    let x = spots[top];
    if rest.contains(x) {
        let k = rest.index_of(x);
        let i = if k < top {
            k
        } else {
            k + 1
        };
        assert(spots[i] == x);
    }
    assert(rest.to_multiset().count(x) == 0);
    assert(rest.to_multiset() =~= spots.to_multiset().remove(x));
    assert(spots.contains(x));
    assert(spots.to_multiset().count(x) > 0);
}

proof fn lemma_two(t: Seq<Spot>)
    requires
        t.len() >= 2,
        t[0] == t[1],
    ensures
        t.to_multiset().count(t[0]) >= 2,
{
    broadcast use vstd::seq_lib::group_to_multiset_ensures;

    let rest = t.remove(0);
    assert(rest[0] == t[1]);
    assert(rest.contains(t[0]));
    assert(rest.to_multiset().count(t[0]) > 0);
    assert(rest.to_multiset() =~= t.to_multiset().remove(t[0]));
    assert(t.contains(t[0]));
}

proof fn lemma_filter_one(s: Seq<Spot>, k: int, test: spec_fn(Spot) -> bool)
    requires
        0 <= k < s.len(),
        test(s[k]),
        forall|i: int| 0 <= i < s.len() && i != k ==> !test(#[trigger] s[i]),
    ensures
        s.filter(test).len() == 1,
{
    lemma_filter_without(s, k, test);
    let less = s.remove(k);
    assert forall|i: int| 0 <= i < less.len() implies !test(#[trigger] less[i]) by {
        if i < k {
            assert(less[i] == s[i]);
        } else {
            assert(less[i] == s[i + 1]);
        }
    }
    lemma_filter_not(less, less.len() as int, test);
}

proof fn lemma_above(s: Seq<Spot>, bottom: int, n: int)
    requires
        0 <= n <= s.len(),
    ensures
        forall|i: int|
            0 <= i < above_upto(s, bottom, true, n).len() ==> s.contains(
                #[trigger] above_upto(s, bottom, true, n)[i],
            ) && above_upto(s, bottom, true, n)[i].bbox.bottom <= bottom,
        forall|i: int|
            0 <= i < above_upto(s, bottom, false, n).len() ==> s.contains(
                #[trigger] above_upto(s, bottom, false, n)[i],
            ) && above_upto(s, bottom, false, n)[i].bbox.bottom > bottom,
    decreases n,
{
    if n > 0 {
        lemma_above(s, bottom, n - 1);
        assert(s.contains(s[n - 1]));
    }
}

proof fn lemma_above_counts(s: Seq<Spot>, bottom: int, n: int)
    requires
        0 <= n <= s.len(),
    ensures
        above_upto(s, bottom, true, n).len() == s.take(n).filter(
            |v: Spot| v.bbox.bottom <= bottom,
        ).len(),
        above_upto(s, bottom, true, n).len() + above_upto(s, bottom, false, n).len() == n,
        n == s.len() ==> s.take(n) == s,
    decreases n,
{
    reveal(Seq::filter);
    if n > 0 {
        lemma_above_counts(s, bottom, n - 1);
        assert(s.take(n).drop_last() =~= s.take(n - 1));
        assert(s.take(n).last() == s[n - 1]);
    }
    if n == s.len() {
        assert(s.take(n) =~= s);
    }
}

/// A cut leaves a blank between its two parts. Beside a vertical cut nothing stands in the blank,
/// and it is at least as wide as one median line is high; with fewer than three lines on a side
/// it has two there, and is at least as wide as two lines are high and as three hundredths of the
/// region. Above and below a horizontal cut the blank is at least one and a half median lines
/// high, and three where no line across most of the region stands alone above it.
pub proof fn cuts_follow_blanks(
    spots: Seq<Spot>,
    obstacles: Seq<Bbox>,
    bbox: Bbox,
    path: RegionPath,
    left: nat,
    h: Seq<i64>,
) -> (parts: (Seq<Spot>, Seq<Spot>))
    requires
        lists_heights(h, spots),
        forall|i: int|
            0 <= i < spots.len() ==> (#[trigger] spots[i]).bbox.top < spots[i].bbox.bottom,
        region_of(spots, obstacles, bbox, path, left) is Split,
    ensures
        ({
            let tree = region_of(spots, obstacles, bbox, path, left);
            let axis = tree->axis;
            let (a, b) = parts;
            &&& left > 0
            &&& a.len() > 0 && b.len() > 0 && a.len() + b.len() == spots.len()
            &&& *tree->first == region_of(
                a,
                obstacles,
                around(a, bbox),
                path.part(axis, 0),
                (left - 1) as nat,
            )
            &&& *tree->second == region_of(
                b,
                obstacles,
                around(b, bbox),
                path.part(axis, 1),
                (left - 1) as nat,
            )
            &&& axis == CutAxis::Vertical ==> {
                &&& forall|i: int, j: int|
                    #![trigger a[i], b[j]]
                    0 <= i < a.len() && 0 <= j < b.len() ==> 2 * (b[j].bbox.left - a[i].bbox.right)
                        >= middle2(h)
                &&& a.len() >= 2 && b.len() >= 2
                &&& a.len() < 3 || b.len() < 3 ==> forall|i: int, j: int|
                    #![trigger a[i], b[j]]
                    0 <= i < a.len() && 0 <= j < b.len() ==> b[j].bbox.left - a[i].bbox.right
                        >= middle2(h) && 100 * (b[j].bbox.left - a[i].bbox.right) >= 3 * (bbox.right
                        - bbox.left)
                &&& exists|i: int, j: int|
                    #![trigger a[i], b[j]]
                    0 <= i < a.len() && 0 <= j < b.len() && forall|k: int|
                        0 <= k < obstacles.len() ==> !stands_between(
                            #[trigger] obstacles[k],
                            bbox,
                            a[i].bbox.right as int,
                            b[j].bbox.left as int,
                        )
            }
            &&& axis == CutAxis::Horizontal ==> {
                &&& forall|i: int, j: int|
                    #![trigger a[i], b[j]]
                    0 <= i < a.len() && 0 <= j < b.len() ==> 4 * (b[j].bbox.top - a[i].bbox.bottom)
                        >= 3 * middle2(h)
                &&& (exists|i: int|
                    0 <= i < a.len() && 100 * ((#[trigger] a[i]).bbox.right - a[i].bbox.left) >= 65
                        * (bbox.right - bbox.left)) || forall|i: int, j: int|
                    #![trigger a[i], b[j]]
                    0 <= i < a.len() && 0 <= j < b.len() ==> 2 * (b[j].bbox.top - a[i].bbox.bottom)
                        >= 3 * middle2(h)
            }
        }),
{
    let s = sorted(spots, SpotOrder::Corner);
    let (axis, a, b) = partition_of(s, obstacles, bbox)->0;
    if banner_of(s, bbox) is Some {
        lemma_banner_parts(spots, bbox, h);
    } else if axis == CutAxis::Vertical {
        lemma_gutter_parts(spots, obstacles, bbox, h);
    } else {
        lemma_band_parts(spots, obstacles, bbox, h);
    }
    (a, b)
}

proof fn lemma_banner_parts(spots: Seq<Spot>, bbox: Bbox, h: Seq<i64>)
    requires
        lists_heights(h, spots),
        forall|i: int|
            0 <= i < spots.len() ==> (#[trigger] spots[i]).bbox.top < spots[i].bbox.bottom,
        banner_of(sorted(spots, SpotOrder::Corner), bbox) is Some,
    ensures
        ({
            let (a, b) = banner_of(sorted(spots, SpotOrder::Corner), bbox)->0;
            &&& a.len() > 0 && b.len() > 0 && a.len() + b.len() == spots.len()
            &&& forall|i: int, j: int|
                #![trigger a[i], b[j]]
                0 <= i < a.len() && 0 <= j < b.len() ==> 4 * (b[j].bbox.top - a[i].bbox.bottom) >= 3
                    * middle2(h)
            &&& exists|i: int|
                0 <= i < a.len() && 100 * ((#[trigger] a[i]).bbox.right - a[i].bbox.left) >= 65 * (
                bbox.right - bbox.left)
        }),
{
    let s = sorted(spots, SpotOrder::Corner);
    let (a, b) = banner_of(s, bbox)->0;
    let t = sorted(s, SpotOrder::Top);
    let bottom = t[0].bbox.bottom as int;
    let n = s.len() as int;
    lemma_resorted(spots, SpotOrder::Top);
    lemma_median(spots, s, h);
    lemma_above(s, bottom, n);
    lemma_above_counts(s, bottom, n);
    assert forall|j: int| 0 <= j < b.len() implies 2 * ((#[trigger] b[j]).bbox.top - bottom) > 3
        * middle2(h) by {
        assert(s.contains(b[j]));
        sorting_holds_the_same(s, SpotOrder::Top, b[j]);
        let k = t.index_of(b[j]);
        assert(t[k] == b[j]);
        assert(k != 0);
        if k > 1 {
            assert(!SpotOrder::Top.lt(t[k], t[1]));
        }
    }
    assert(t.contains(t[0]));
    sorting_holds_the_same(s, SpotOrder::Top, t[0]);
    let k = s.index_of(t[0]);
    let i = lemma_above_holds(s, bottom, n, k);
    assert(a[i] == t[0]);
}

proof fn lemma_gutter_parts(spots: Seq<Spot>, obstacles: Seq<Bbox>, bbox: Bbox, h: Seq<i64>)
    requires
        lists_heights(h, spots),
        cut_of(sorted(spots, SpotOrder::Corner), obstacles, bbox, CutAxis::Vertical) is Some,
    ensures
        ({
            let (a, b) = cut_of(
                sorted(spots, SpotOrder::Corner),
                obstacles,
                bbox,
                CutAxis::Vertical,
            )->0;
            &&& a.len() + b.len() == spots.len()
            &&& forall|i: int, j: int|
                #![trigger a[i], b[j]]
                0 <= i < a.len() && 0 <= j < b.len() ==> 2 * (b[j].bbox.left - a[i].bbox.right)
                    >= middle2(h)
            &&& a.len() >= 2 && b.len() >= 2
            &&& a.len() < 3 || b.len() < 3 ==> forall|i: int, j: int|
                #![trigger a[i], b[j]]
                0 <= i < a.len() && 0 <= j < b.len() ==> b[j].bbox.left - a[i].bbox.right
                    >= middle2(h) && 100 * (b[j].bbox.left - a[i].bbox.right) >= 3 * (bbox.right
                    - bbox.left)
            &&& exists|i: int, j: int|
                #![trigger a[i], b[j]]
                0 <= i < a.len() && 0 <= j < b.len() && forall|k: int|
                    0 <= k < obstacles.len() ==> !stands_between(
                        #[trigger] obstacles[k],
                        bbox,
                        a[i].bbox.right as int,
                        b[j].bbox.left as int,
                    )
        }),
{
    let s = sorted(spots, SpotOrder::Corner);
    let axis = CutAxis::Vertical;
    let (a, b) = cut_of(s, obstacles, bbox, axis)->0;
    let t = sorted(s, SpotOrder::Across);
    lemma_resorted(spots, SpotOrder::Across);
    lemma_median(spots, t, h);
    lemma_widest_may_cut(t, obstacles, bbox, axis, t.len() as int);
    let n = widest_upto(t, obstacles, bbox, axis, t.len() as int)->0;
    lemma_edges(t, n);
    assert forall|i: int| 0 <= i < a.len() implies #[trigger] a[i] == t[i] by {}
    assert forall|j: int| 0 <= j < b.len() implies #[trigger] b[j] == t[n + j] by {}
    let (x, y) = (ends(t, axis, n), starts(t, axis, n));
    let e = choose|i: int| 0 <= i < n && (#[trigger] t[i]).bbox.right == x;
    let f = choose|i: int| n <= i < t.len() && (#[trigger] t[i]).bbox.left == y;
    assert(a[e] == t[e] && b[f - n] == t[f]);
    assert forall|k: int| 0 <= k < obstacles.len() implies !stands_between(
        #[trigger] obstacles[k],
        bbox,
        a[e].bbox.right as int,
        b[f - n].bbox.left as int,
    ) by {
        assert(!is_crossed(obstacles, bbox, x, y));
    }
}

proof fn lemma_band_parts(spots: Seq<Spot>, obstacles: Seq<Bbox>, bbox: Bbox, h: Seq<i64>)
    requires
        lists_heights(h, spots),
        cut_of(sorted(spots, SpotOrder::Corner), obstacles, bbox, CutAxis::Horizontal) is Some,
    ensures
        ({
            let (a, b) = cut_of(
                sorted(spots, SpotOrder::Corner),
                obstacles,
                bbox,
                CutAxis::Horizontal,
            )->0;
            &&& a.len() > 0 && b.len() > 0 && a.len() + b.len() == spots.len()
            &&& forall|i: int, j: int|
                #![trigger a[i], b[j]]
                0 <= i < a.len() && 0 <= j < b.len() ==> 2 * (b[j].bbox.top - a[i].bbox.bottom) >= 3
                    * middle2(h)
            &&& middle2(h) > 0
        }),
{
    let s = sorted(spots, SpotOrder::Corner);
    let axis = CutAxis::Horizontal;
    let (a, b) = cut_of(s, obstacles, bbox, axis)->0;
    let t = sorted(s, SpotOrder::Down);
    lemma_resorted(spots, SpotOrder::Down);
    lemma_median(spots, t, h);
    lemma_widest_may_cut(t, obstacles, bbox, axis, t.len() as int);
    let n = widest_upto(t, obstacles, bbox, axis, t.len() as int)->0;
    lemma_edges(t, n);
    assert forall|i: int| 0 <= i < a.len() implies #[trigger] a[i] == t[i] by {}
    assert forall|j: int| 0 <= j < b.len() implies #[trigger] b[j] == t[n + j] by {}
}

proof fn lemma_above_holds(s: Seq<Spot>, bottom: int, n: int, k: int) -> (i: int)
    requires
        0 <= k < n <= s.len(),
        s[k].bbox.bottom <= bottom,
    ensures
        0 <= i < above_upto(s, bottom, true, n).len(),
        above_upto(s, bottom, true, n)[i] == s[k],
    decreases n,
{
    if k == n - 1 {
        above_upto(s, bottom, true, n - 1).len() as int
    } else {
        lemma_above_holds(s, bottom, n - 1, k)
    }
}

/// Of several bands the highest is cut: where neither a line across most of a region nor a gap
/// between columns cuts it, no blank band of three median lines is higher than the one cut.
pub proof fn highest_bands_are_cut(
    spots: Seq<Spot>,
    obstacles: Seq<Bbox>,
    bbox: Bbox,
    h: Seq<i64>,
    above: int,
    below: int,
) -> (parts: (Seq<Spot>, Seq<Spot>))
    requires
        forall|i: int|
            0 <= i < spots.len() ==> (#[trigger] spots[i]).bbox.top <= spots[i].bbox.bottom,
        lists_heights(h, spots),
        is_blank_band(spots, above, below),
        2 * (below - above) >= 3 * middle2(h),
        forall|i: int|
            0 <= i < spots.len() ==> 100 * ((#[trigger] spots[i]).bbox.right - spots[i].bbox.left)
                < 65 * (bbox.right - bbox.left),
        !(partition_of(sorted(spots, SpotOrder::Corner), obstacles, bbox) matches Some((axis, a, b))
            && axis == CutAxis::Vertical),
    ensures
        partition_of(sorted(spots, SpotOrder::Corner), obstacles, bbox) == Some(
            (CutAxis::Horizontal, parts.0, parts.1),
        ),
        forall|i: int, j: int|
            #![trigger parts.0[i], parts.1[j]]
            0 <= i < parts.0.len() && 0 <= j < parts.1.len() ==> parts.1[j].bbox.top
                - parts.0[i].bbox.bottom >= below - above,
{
    let s = sorted(spots, SpotOrder::Corner);
    lemma_band(spots, obstacles, bbox, h, above, below);
    lemma_resorted(spots, SpotOrder::Top);
    let first = sorted(s, SpotOrder::Top)[0];
    let k = spots.index_of(first);
    assert(spots[k] == first);
    assert(banner_of(s, bbox) is None);
    let t = sorted(s, SpotOrder::Down);
    lemma_resorted(spots, SpotOrder::Down);
    lemma_widest_may_cut(t, obstacles, bbox, CutAxis::Horizontal, t.len() as int);
    let n = widest_upto(t, obstacles, bbox, CutAxis::Horizontal, t.len() as int)->0;
    lemma_edges(t, n);
    let (a, b) = (t.take(n), t.skip(n));
    assert forall|i: int, j: int|
        #![trigger a[i], b[j]]
        0 <= i < a.len() && 0 <= j < b.len() implies b[j].bbox.top - a[i].bbox.bottom >= below
        - above by {
        assert(a[i] == t[i] && b[j] == t[n + j]);
    }
    (a, b)
}

/// A leaf holds its fragments from top to bottom and from left to right.
pub proof fn leaves_read_from_the_top(
    spots: Seq<Spot>,
    obstacles: Seq<Bbox>,
    bbox: Bbox,
    path: RegionPath,
    left: nat,
)
    requires
        region_of(spots, obstacles, bbox, path, left) is Leaf,
    ensures
        exists|s: Seq<Spot>|
            #![trigger indices_of(s)]
            s.to_multiset() == spots.to_multiset() && region_of(
                spots,
                obstacles,
                bbox,
                path,
                left,
            ) == (TreeModel::Leaf { path, bbox, indices: indices_of(s) }) && forall|i: int, j: int|
                #![trigger s[i], s[j]]
                0 <= i < j < s.len() ==> s[i].bbox.top < s[j].bbox.top || (s[i].bbox.top
                    == s[j].bbox.top && s[i].bbox.left <= s[j].bbox.left),
{
    let s = sorted(spots, SpotOrder::Corner);
    sorting_orders_and_keeps(spots, SpotOrder::Corner);
    assert forall|i: int, j: int|
        #![trigger s[i], s[j]]
        0 <= i < j < s.len() implies s[i].bbox.top < s[j].bbox.top || (s[i].bbox.top
        == s[j].bbox.top && s[i].bbox.left <= s[j].bbox.left) by {
        assert(!SpotOrder::Corner.lt(s[j], s[i]));
    }
    assert(indices_of(s) == indices_of(s));
}

} // verus!
