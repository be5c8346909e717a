//! Regions for text that no detected region owns.
//!
//! The page is cut along wide blanks, first under a banner, then between
//! columns, then between bands.

use vstd::math::{max, min};
use vstd::multiset::Multiset;
use vstd::prelude::*;

use crate::chars::{str_before, text_before, text_order_is_strict_weak};
use crate::geometry::{Bbox, POINT};
use crate::line::fragment::{models, FragmentModel, LineFragment};
use crate::sorting::{sort, sorted, sorting_forgets_arrival, sorting_orders_and_keeps, Order, Sorter};
use crate::types::TextItemId;

use super::region::{CutAxis, RegionPath};

verus! {

/// Depth at which cutting stops.
pub const MAX_DEPTH: usize = 8;

/// Place and first identity of a fragment, with its index.
#[derive(Debug)]
pub struct Spot {
    pub bbox: Bbox,
    pub first: Option<TextItemId>,
    pub index: usize,
}

impl Spot {
    /// An equal spot.
    pub fn copy(&self) -> (copy: Spot)
        ensures
            copy == *self,
    {
        Spot {
            bbox: self.bbox,
            first: match &self.first {
                None => None,
                Some(id) => Some(id.copy()),
            },
            index: self.index,
        }
    }
}

/// The spot of a fragment.
pub open spec fn spot_of(f: FragmentModel, index: int) -> Spot {
    Spot {
        bbox: f.bbox,
        first: if f.items.len() > 0 {
            Some(f.items[0].id)
        } else {
            None
        },
        index: index as usize,
    }
}

/// The spots of fragments.
pub open spec fn spots_of(fragments: Seq<FragmentModel>) -> Seq<Spot> {
    Seq::new(fragments.len(), |i: int| spot_of(fragments[i], i))
}

/// Whether an identity stands before another; none stands before all.
pub open spec fn first_before(a: Option<TextItemId>, b: Option<TextItemId>) -> bool {
    match (a, b) {
        (None, Some(_)) => true,
        (Some(x), Some(y)) => text_before(x@, y@),
        _ => false,
    }
}

/// Orders of spots.
#[derive(Debug, Clone, Copy, PartialEq, Eq, Structural)]
pub enum SpotOrder {
    /// By top edge, left edge and first identity.
    Corner,
    /// By top edge.
    Top,
    /// By the middle between left and right.
    Across,
    /// By the middle between top and bottom.
    Down,
}

impl Order<Spot> for SpotOrder {
    open spec fn lt(&self, a: Spot, b: Spot) -> bool {
        match self {
            SpotOrder::Corner => a.bbox.top < b.bbox.top || (a.bbox.top == b.bbox.top && (
            a.bbox.left < b.bbox.left || (a.bbox.left == b.bbox.left && first_before(
                a.first,
                b.first,
            )))),
            SpotOrder::Top => a.bbox.top < b.bbox.top,
            SpotOrder::Across => a.bbox.mid_x2() < b.bbox.mid_x2(),
            SpotOrder::Down => a.bbox.mid_y2() < b.bbox.mid_y2(),
        }
    }

    proof fn is_strict_weak(&self, a: Spot, b: Spot, c: Spot) {
        text_order_is_strict_weak((a.first->0)@, (b.first->0)@, (c.first->0)@);
    }
}

impl Sorter<Spot> for SpotOrder {
    fn precedes(&self, a: &Spot, b: &Spot) -> (yes: bool) {
        match self {
            SpotOrder::Corner => {
                let earlier: bool = match (&a.first, &b.first) {
                    (None, Some(_)) => true,
                    (Some(x), Some(y)) => str_before(x.as_str(), y.as_str()),
                    _ => false,
                };
                a.bbox.top < b.bbox.top || (a.bbox.top == b.bbox.top && (a.bbox.left < b.bbox.left
                    || (a.bbox.left == b.bbox.left && earlier)))
            },
            SpotOrder::Top => a.bbox.top < b.bbox.top,
            SpotOrder::Across => a.bbox.center_x2() < b.bbox.center_x2(),
            SpotOrder::Down => a.bbox.center_y2() < b.bbox.center_y2(),
        }
    }
}

/// Heights in ascending order.
pub struct HeightOrder;

impl Order<i64> for HeightOrder {
    open spec fn lt(&self, a: i64, b: i64) -> bool {
        a < b
    }

    proof fn is_strict_weak(&self, a: i64, b: i64, c: i64) {
    }
}

impl Sorter<i64> for HeightOrder {
    fn precedes(&self, a: &i64, b: &i64) -> (yes: bool) {
        *a < *b
    }
}

/// The positive heights of the first `n` spots.
pub open spec fn heights_upto(s: Seq<Spot>, n: int) -> Seq<i64>
    decreases n,
{
    if n <= 0 {
        Seq::empty()
    } else {
        let before = heights_upto(s, n - 1);
        if s[n - 1].bbox.high() > 0 {
            before.push(s[n - 1].bbox.high() as i64)
        } else {
            before
        }
    }
}

/// Twice the median height; twice a point where there is none.
pub open spec fn median2(s: Seq<Spot>) -> int {
    let h = sorted(heights_upto(s, s.len() as int), HeightOrder);
    let middle = (h.len() / 2) as int;
    if h.len() == 0 {
        2 * POINT
    } else if h.len() % 2 == 0 {
        h[middle - 1] + h[middle]
    } else {
        2 * h[middle]
    }
}

/// The edge at which a spot ends along an axis.
pub open spec fn far_edge(b: Bbox, axis: CutAxis) -> int {
    match axis {
        CutAxis::Vertical => b.right as int,
        CutAxis::Horizontal => b.bottom as int,
    }
}

/// The edge at which a spot starts along an axis.
pub open spec fn near_edge(b: Bbox, axis: CutAxis) -> int {
    match axis {
        CutAxis::Vertical => b.left as int,
        CutAxis::Horizontal => b.top as int,
    }
}

/// Where the first `n` spots end.
pub open spec fn ends(s: Seq<Spot>, axis: CutAxis, n: int) -> int
    decreases n,
{
    if n <= 1 {
        far_edge(s[0].bbox, axis)
    } else {
        max(ends(s, axis, n - 1), far_edge(s[n - 1].bbox, axis))
    }
}

/// Where the spots from `n` on start.
pub open spec fn starts(s: Seq<Spot>, axis: CutAxis, n: int) -> int
    decreases s.len() - n,
{
    if n >= s.len() - 1 {
        near_edge(s[s.len() - 1].bbox, axis)
    } else {
        min(starts(s, axis, n + 1), near_edge(s[n].bbox, axis))
    }
}

/// Whether some obstacle lies between two positions of a region.
pub open spec fn is_crossed(obstacles: Seq<Bbox>, region: Bbox, left: int, right: int) -> bool {
    exists|i: int|
        #![trigger obstacles[i]]
        0 <= i < obstacles.len() && obstacles[i].left < right && obstacles[i].right > left
            && obstacles[i].top < region.bottom && obstacles[i].bottom > region.top
}

/// Whether a blank is wide enough for its region and its lines.
pub open spec fn is_gutter(s: Seq<Spot>, region: Bbox, gap: int, n: int) -> bool {
    2 <= n <= s.len() - 2 && gap >= median2(s) && 100 * gap >= 3 * region.wide()
}

/// Whether a blank is a narrow one between columns of several rows.
pub open spec fn is_repeated(s: Seq<Spot>, gap: int, n: int) -> bool {
    3 <= n <= s.len() - 3 && 2 * gap >= median2(s) && gap > 0
}

/// Whether a region may be cut behind the first `n` spots.
///
/// A gutter crosses nothing. It has two spots on both sides, is as wide as two
/// lines are high and three hundredths of the region wide; or it is repeated
/// beside three spots on both sides and as wide as one line is high. A band
/// gap is three lines high.
pub open spec fn may_cut(
    s: Seq<Spot>,
    obstacles: Seq<Bbox>,
    region: Bbox,
    axis: CutAxis,
    n: int,
) -> bool {
    let gap = starts(s, axis, n) - ends(s, axis, n);
    match axis {
        CutAxis::Vertical => {
            &&& is_gutter(s, region, gap, n) || is_repeated(s, gap, n)
            &&& !is_crossed(obstacles, region, ends(s, axis, n), starts(s, axis, n))
        },
        CutAxis::Horizontal => 2 * gap >= 3 * median2(s),
    }
}

/// The first widest cut behind fewer than `n` spots.
pub open spec fn widest_upto(
    s: Seq<Spot>,
    obstacles: Seq<Bbox>,
    region: Bbox,
    axis: CutAxis,
    n: int,
) -> Option<int>
    decreases n,
{
    if n <= 1 {
        None
    } else {
        let before = widest_upto(s, obstacles, region, axis, n - 1);
        let at = n - 1;
        if may_cut(s, obstacles, region, axis, at) && (before is None || starts(s, axis, at) - ends(
            s,
            axis,
            at,
        ) > starts(s, axis, before->0) - ends(s, axis, before->0)) {
            Some(at)
        } else {
            before
        }
    }
}

/// The two parts of a region that is cut along its widest blank.
pub open spec fn cut_of(
    spots: Seq<Spot>,
    obstacles: Seq<Bbox>,
    region: Bbox,
    axis: CutAxis,
) -> Option<(Seq<Spot>, Seq<Spot>)> {
    let s = sorted(
        spots,
        match axis {
            CutAxis::Vertical => SpotOrder::Across,
            CutAxis::Horizontal => SpotOrder::Down,
        },
    );
    match widest_upto(s, obstacles, region, axis, s.len() as int) {
        None => None,
        Some(at) => Some((s.take(at), s.skip(at))),
    }
}

/// The spots, of the first `n`, that end at a height or above, or those that do not.
pub open spec fn above_upto(s: Seq<Spot>, bottom: int, above: bool, n: int) -> Seq<Spot>
    decreases n,
{
    if n <= 0 {
        Seq::empty()
    } else {
        let before = above_upto(s, bottom, above, n - 1);
        if (s[n - 1].bbox.bottom <= bottom) == above {
            before.push(s[n - 1])
        } else {
            before
        }
    }
}

/// The two parts of a region under a wide top line with a clear gap behind it.
pub open spec fn banner_of(spots: Seq<Spot>, region: Bbox) -> Option<(Seq<Spot>, Seq<Spot>)> {
    let by_top = sorted(spots, SpotOrder::Top);
    let n = spots.len() as int;
    if n < 2 {
        None
    } else {
        let bottom = by_top[0].bbox.bottom as int;
        let upper = above_upto(spots, bottom, true, n);
        let lower = above_upto(spots, bottom, false, n);
        if 100 * by_top[0].bbox.wide() < 65 * region.wide() || 2 * (by_top[1].bbox.top - bottom)
            <= 3 * median2(spots) || upper.len() == 0 || lower.len() == 0 {
            None
        } else {
            Some((upper, lower))
        }
    }
}

/// How a region is cut, and into which parts.
pub open spec fn partition_of(spots: Seq<Spot>, obstacles: Seq<Bbox>, region: Bbox) -> Option<(
    CutAxis,
    Seq<Spot>,
    Seq<Spot>,
)> {
    match banner_of(spots, region) {
        Some((a, b)) => Some((CutAxis::Horizontal, a, b)),
        None => match cut_of(spots, obstacles, region, CutAxis::Vertical) {
            Some((a, b)) => Some((CutAxis::Vertical, a, b)),
            None => match cut_of(spots, obstacles, region, CutAxis::Horizontal) {
                Some((a, b)) => Some((CutAxis::Horizontal, a, b)),
                None => None,
            },
        },
    }
}

/// The box around the first `n` spots.
pub open spec fn around_upto(s: Seq<Spot>, n: int) -> Bbox
    decreases n,
{
    if n <= 1 {
        s[0].bbox
    } else {
        around_upto(s, n - 1).join(s[n - 1].bbox)
    }
}

/// The box around spots; another box where there are none, or where several have no extent
/// together. The joint box only grows, so that of the first two decides.
pub open spec fn around(s: Seq<Spot>, otherwise: Bbox) -> Bbox {
    if s.len() == 0 || (s.len() > 1 && !s[0].bbox.join(s[1].bbox).valid()) {
        otherwise
    } else {
        around_upto(s, s.len() as int)
    }
}

/// What a tree of regions says.
pub enum TreeModel {
    Leaf { path: RegionPath, bbox: Bbox, indices: Seq<usize> },
    Split {
        path: RegionPath,
        bbox: Bbox,
        axis: CutAxis,
        first: Box<TreeModel>,
        second: Box<TreeModel>,
    },
}

/// The indices of spots.
pub open spec fn indices_of(s: Seq<Spot>) -> Seq<usize> {
    Seq::new(s.len(), |i: int| s[i].index)
}

/// The tree of a region.
pub open spec fn region_of(
    spots: Seq<Spot>,
    obstacles: Seq<Bbox>,
    bbox: Bbox,
    path: RegionPath,
    left: nat,
) -> TreeModel
    decreases left,
{
    let s = sorted(spots, SpotOrder::Corner);
    match partition_of(s, obstacles, bbox) {
        Some((axis, a, b)) => if s.len() <= 1 || left == 0 {
            TreeModel::Leaf { path, bbox, indices: indices_of(s) }
        } else {
            TreeModel::Split {
                path,
                bbox,
                axis,
                first: Box::new(
                    region_of(a, obstacles, around(a, bbox), path.part(axis, 0), (left - 1) as nat),
                ),
                second: Box::new(
                    region_of(b, obstacles, around(b, bbox), path.part(axis, 1), (left - 1) as nat),
                ),
            }
        },
        None => TreeModel::Leaf { path, bbox, indices: indices_of(s) },
    }
}

/// Stable region tree with deterministic path and geometry.
#[derive(Debug)]
pub enum RegionTree {
    Leaf { path: RegionPath, bbox: Bbox, fragment_indices: Vec<usize> },
    Split {
        path: RegionPath,
        bbox: Bbox,
        axis: CutAxis,
        first: Box<RegionTree>,
        second: Box<RegionTree>,
    },
}

impl RegionTree {
    /// What the tree says.
    pub open spec fn model(self) -> TreeModel
        decreases self,
    {
        match self {
            RegionTree::Leaf { path, bbox, fragment_indices } => TreeModel::Leaf {
                path,
                bbox,
                indices: fragment_indices@,
            },
            RegionTree::Split { path, bbox, axis, first, second } => TreeModel::Split {
                path,
                bbox,
                axis,
                first: Box::new(first.model()),
                second: Box::new(second.model()),
            },
        }
    }
}

impl View for RegionTree {
    type V = TreeModel;

    open spec fn view(&self) -> TreeModel {
        self.model()
    }
}

/// The spots of fragments.
fn list_spots(fragments: &Vec<LineFragment>) -> (spots: Vec<Spot>)
    ensures
        spots@ == spots_of(models(fragments@)),
{
    let mut spots: Vec<Spot> = Vec::new();
    let mut i: usize = 0;
    while i < fragments.len()
        invariant
            i <= fragments@.len(),
            spots@ == spots_of(models(fragments@)).take(i as int),
        decreases fragments@.len() - i,
    {
        let f: &LineFragment = &fragments[i];
        let first: Option<TextItemId> = if f.items.len() > 0 {
            Some(f.items[0].id.copy())
        } else {
            None
        };
        spots.push(Spot { bbox: f.bbox, first, index: i });
        assert(models(fragments@)[i as int] == f@);
        i = i + 1;
        assert(spots@ =~= spots_of(models(fragments@)).take(i as int));
    }
    assert(spots_of(models(fragments@)).take(fragments@.len() as int) =~= spots_of(
        models(fragments@),
    ));
    spots
}

/// Equal copies of spots from one position to another.
fn copy_spots(spots: &Vec<Spot>, from: usize, to: usize) -> (copies: Vec<Spot>)
    requires
        from <= to <= spots@.len(),
    ensures
        copies@ == spots@.subrange(from as int, to as int),
{
    let mut copies: Vec<Spot> = Vec::new();
    let mut i: usize = from;
    while i < to
        invariant
            from <= i <= to <= spots@.len(),
            copies@ == spots@.subrange(from as int, i as int),
        decreases to - i,
    {
        copies.push(spots[i].copy());
        i = i + 1;
        assert(copies@ =~= spots@.subrange(from as int, i as int));
    }
    copies
}

/// Twice the median height; twice a point where there is none.
fn median_height2(spots: &Vec<Spot>) -> (m: i64)
    ensures
        m == median2(spots@),
        -0x4_0000_0000 <= m <= 0x4_0000_0000,
{
    let mut heights: Vec<i64> = Vec::new();
    let mut i: usize = 0;
    while i < spots.len()
        invariant
            i <= spots@.len(),
            heights@ == heights_upto(spots@, i as int),
            forall|k: int| 0 <= k < heights@.len() ==> 0 < #[trigger] heights@[k] <= 0x1_0000_0000,
        decreases spots@.len() - i,
    {
        let h: i64 = spots[i].bbox.height();
        if h > 0 {
            heights.push(h);
        }
        i = i + 1;
    }
    let ghost all = heights@;
    let ordered: Vec<i64> = sort(heights, &HeightOrder);
    proof {
        sorting_orders_and_keeps(all, HeightOrder);
        lemma_bounded(all, ordered@);
    }
    let count: usize = ordered.len();
    let middle: usize = count / 2;
    if count == 0 {
        2 * (POINT as i64)
    } else if count % 2 == 0 {
        assert(ordered@[middle - 1] <= 0x1_0000_0000);
        assert(ordered@[middle as int] <= 0x1_0000_0000);
        ordered[middle - 1] + ordered[middle]
    } else {
        assert(ordered@[middle as int] <= 0x1_0000_0000);
        2 * ordered[middle]
    }
}

proof fn lemma_bounded(a: Seq<i64>, b: Seq<i64>)
    requires
        a.to_multiset() == b.to_multiset(),
        forall|k: int| 0 <= k < a.len() ==> 0 < #[trigger] a[k] <= 0x1_0000_0000,
    ensures
        forall|k: int| 0 <= k < b.len() ==> 0 < #[trigger] b[k] <= 0x1_0000_0000,
{
    broadcast use vstd::seq_lib::group_to_multiset_ensures;

    assert forall|k: int| 0 <= k < b.len() implies 0 < #[trigger] b[k] <= 0x1_0000_0000 by {
        assert(b.contains(b[k]));
        assert(a.to_multiset().count(b[k]) > 0);
        assert(a.contains(b[k]));
        let m = a.index_of(b[k]);
        assert(a[m] == b[k]);
    }
}

/// The edge at which a box ends along an axis.
fn far(b: &Bbox, axis: CutAxis) -> (edge: i32)
    ensures
        edge == far_edge(*b, axis),
{
    match axis {
        CutAxis::Vertical => b.right,
        CutAxis::Horizontal => b.bottom,
    }
}

/// The edge at which a box starts along an axis.
fn near(b: &Bbox, axis: CutAxis) -> (edge: i32)
    ensures
        edge == near_edge(*b, axis),
{
    match axis {
        CutAxis::Vertical => b.left,
        CutAxis::Horizontal => b.top,
    }
}

/// Where the spots from each position on start.
fn starts_from(s: &Vec<Spot>, axis: CutAxis) -> (edges: Vec<i32>)
    requires
        s@.len() > 0,
    ensures
        edges@.len() == s@.len(),
        forall|k: int| 0 <= k < s@.len() ==> #[trigger] edges@[k] == starts(s@, axis, k),
{
    let count: usize = s.len();
    let mut flipped: Vec<i32> = Vec::new();
    let mut least: i32 = near(&s[count - 1].bbox, axis);
    flipped.push(least);
    let mut n: usize = count - 1;
    while n > 0
        invariant
            count == s@.len(),
            n < count,
            flipped@.len() == count - n,
            least == starts(s@, axis, n as int),
            forall|k: int|
                0 <= k < flipped@.len() ==> #[trigger] flipped@[k] == starts(
                    s@,
                    axis,
                    count - 1 - k,
                ),
        decreases n,
    {
        let edge: i32 = near(&s[n - 1].bbox, axis);
        if edge < least {
            least = edge;
        }
        flipped.push(least);
        n = n - 1;
    }
    let mut edges: Vec<i32> = Vec::new();
    while edges.len() < count
        invariant
            count == s@.len(),
            flipped@.len() == count,
            edges@.len() <= count,
            forall|k: int|
                0 <= k < flipped@.len() ==> #[trigger] flipped@[k] == starts(
                    s@,
                    axis,
                    count - 1 - k,
                ),
            forall|k: int| 0 <= k < edges@.len() ==> #[trigger] edges@[k] == starts(s@, axis, k),
        decreases count - edges@.len(),
    {
        let k: usize = edges.len();
        edges.push(flipped[count - 1 - k]);
    }
    edges
}

/// Whether some obstacle lies between two positions of a region.
fn crossed(obstacles: &Vec<Bbox>, region: &Bbox, left: i32, right: i32) -> (yes: bool)
    ensures
        yes == is_crossed(obstacles@, *region, left as int, right as int),
{
    let mut i: usize = 0;
    while i < obstacles.len()
        invariant
            i <= obstacles@.len(),
            forall|k: int|
                #![trigger obstacles@[k]]
                0 <= k < i ==> !(obstacles@[k].left < right && obstacles@[k].right > left
                    && obstacles@[k].top < region.bottom && obstacles@[k].bottom > region.top),
        decreases obstacles@.len() - i,
    {
        let o: Bbox = obstacles[i];
        if o.left < right && o.right > left && o.top < region.bottom && o.bottom > region.top {
            assert(obstacles@[i as int].left < right);
            return true;
        }
        i = i + 1;
    }
    false
}

/// The first widest cut.
fn widest(s: &Vec<Spot>, obstacles: &Vec<Bbox>, region: &Bbox, axis: CutAxis) -> (cut: Option<
    usize,
>)
    requires
        s@.len() > 0,
    ensures
        match (cut, widest_upto(s@, obstacles@, *region, axis, s@.len() as int)) {
            (None, None) => true,
            (Some(at), Some(expected)) => at == expected && 0 < at < s@.len(),
            _ => false,
        },
{
    let median: i64 = median_height2(s);
    let edges: Vec<i32> = starts_from(s, axis);
    let count: usize = s.len();
    let mut end: i32 = far(&s[0].bbox, axis);
    let mut best: Option<(usize, i64)> = None;
    let mut at: usize = 1;
    while at < count
        invariant
            count == s@.len(),
            1 <= at <= count,
            median == median2(s@),
            -0x4_0000_0000 <= median <= 0x4_0000_0000,
            edges@.len() == s@.len(),
            forall|k: int| 0 <= k < s@.len() ==> #[trigger] edges@[k] == starts(s@, axis, k),
            end == ends(s@, axis, at as int),
            match (best, widest_upto(s@, obstacles@, *region, axis, at as int)) {
                (None, None) => true,
                (Some((found, gap)), Some(expected)) => found == expected && 0 < found < at && gap
                    == starts(s@, axis, found as int) - ends(s@, axis, found as int),
                _ => false,
            },
        decreases count - at,
    {
        let start: i32 = edges[at];
        let gap: i64 = start as i64 - end as i64;
        let fits: bool = match axis {
            CutAxis::Vertical => {
                let wide: bool = at >= 2 && count - at >= 2 && gap >= median && 100 * gap >= 3
                    * region.width();
                let repeated: bool = at >= 3 && count - at >= 3 && 2 * gap >= median && gap > 0;
                (wide || repeated) && !crossed(obstacles, region, end, start)
            },
            CutAxis::Horizontal => 2 * gap >= 3 * median,
        };
        let better: bool = match best {
            None => true,
            Some((_, widest)) => gap > widest,
        };
        if fits && better {
            best = Some((at, gap));
        }
        let edge: i32 = far(&s[at].bbox, axis);
        if edge > end {
            end = edge;
        }
        at = at + 1;
    }
    match best {
        None => None,
        Some((found, _)) => Some(found),
    }
}

/// The two parts of a region that is cut along its widest blank.
fn cut(spots: &Vec<Spot>, obstacles: &Vec<Bbox>, region: &Bbox, axis: CutAxis) -> (parts: Option<(
    Vec<Spot>,
    Vec<Spot>,
)>)
    requires
        spots@.len() > 0,
    ensures
        match (parts, cut_of(spots@, obstacles@, *region, axis)) {
            (None, None) => true,
            (Some((a, b)), Some((x, y))) => a@ == x && b@ == y,
            _ => false,
        },
{
    let order: SpotOrder = match axis {
        CutAxis::Vertical => SpotOrder::Across,
        CutAxis::Horizontal => SpotOrder::Down,
    };
    let all: Vec<Spot> = copy_spots(spots, 0, spots.len());
    assert(all@ =~= spots@);
    let s: Vec<Spot> = sort(all, &order);
    proof {
        sorting_orders_and_keeps(spots@, order);
    }
    match widest(&s, obstacles, region, axis) {
        None => None,
        Some(at) => {
            let a: Vec<Spot> = copy_spots(&s, 0, at);
            let b: Vec<Spot> = copy_spots(&s, at, s.len());
            assert(a@ =~= s@.take(at as int));
            assert(b@ =~= s@.skip(at as int));
            Some((a, b))
        },
    }
}

/// The spots that end at a height or above, or those that do not.
fn list_above(spots: &Vec<Spot>, bottom: i32, above: bool) -> (found: Vec<Spot>)
    ensures
        found@ == above_upto(spots@, bottom as int, above, spots@.len() as int),
{
    let mut found: Vec<Spot> = Vec::new();
    let mut i: usize = 0;
    while i < spots.len()
        invariant
            i <= spots@.len(),
            found@ == above_upto(spots@, bottom as int, above, i as int),
        decreases spots@.len() - i,
    {
        if (spots[i].bbox.bottom <= bottom) == above {
            found.push(spots[i].copy());
        }
        i = i + 1;
    }
    found
}

/// The two parts of a region under a wide top line with a clear gap behind it.
fn banner_partition(spots: &Vec<Spot>, region: &Bbox) -> (parts: Option<(Vec<Spot>, Vec<Spot>)>)
    ensures
        match (parts, banner_of(spots@, *region)) {
            (None, None) => true,
            (Some((a, b)), Some((x, y))) => a@ == x && b@ == y,
            _ => false,
        },
{
    if spots.len() < 2 {
        return None;
    }
    let all: Vec<Spot> = copy_spots(spots, 0, spots.len());
    assert(all@ =~= spots@);
    let by_top: Vec<Spot> = sort(all, &SpotOrder::Top);
    proof {
        sorting_orders_and_keeps(spots@, SpotOrder::Top);
    }
    let bottom: i32 = by_top[0].bbox.bottom;
    let gap: i64 = by_top[1].bbox.top as i64 - bottom as i64;
    if 100 * by_top[0].bbox.width() < 65 * region.width() || 2 * gap <= 3 * median_height2(spots) {
        return None;
    }
    let upper: Vec<Spot> = list_above(spots, bottom, true);
    let lower: Vec<Spot> = list_above(spots, bottom, false);
    if upper.len() == 0 || lower.len() == 0 {
        return None;
    }
    Some((upper, lower))
}

/// The box around spots; another box where they have none.
fn union_spots(s: &Vec<Spot>, otherwise: Bbox) -> (b: Bbox)
    ensures
        b == around(s@, otherwise),
{
    if s.len() == 0 || (s.len() > 1 && !s[0].bbox.union(&s[1].bbox).is_valid()) {
        return otherwise;
    }
    let mut b: Bbox = s[0].bbox;
    let mut i: usize = 1;
    while i < s.len()
        invariant
            1 <= i <= s@.len(),
            b == around_upto(s@, i as int),
        decreases s@.len() - i,
    {
        b = b.union(&s[i].bbox);
        i = i + 1;
    }
    b
}

/// The indices of spots.
fn list_indices(s: &Vec<Spot>) -> (indices: Vec<usize>)
    ensures
        indices@ == indices_of(s@),
{
    let mut indices: Vec<usize> = Vec::new();
    let mut i: usize = 0;
    while i < s.len()
        invariant
            i <= s@.len(),
            indices@ == indices_of(s@).take(i as int),
        decreases s@.len() - i,
    {
        indices.push(s[i].index);
        i = i + 1;
        assert(indices@ =~= indices_of(s@).take(i as int));
    }
    assert(indices_of(s@).take(s@.len() as int) =~= indices_of(s@));
    indices
}

/// How a region is cut, and into which parts.
fn partition(spots: &Vec<Spot>, obstacles: &Vec<Bbox>, region: &Bbox) -> (parts: Option<(
    CutAxis,
    Vec<Spot>,
    Vec<Spot>,
)>)
    requires
        spots@.len() > 0,
    ensures
        match (parts, partition_of(spots@, obstacles@, *region)) {
            (None, None) => true,
            (Some((axis, a, b)), Some((expected, x, y))) => axis == expected && a@ == x && b@ == y,
            _ => false,
        },
{
    if let Some((a, b)) = banner_partition(spots, region) {
        return Some((CutAxis::Horizontal, a, b));
    }
    if let Some((a, b)) = cut(spots, obstacles, region, CutAxis::Vertical) {
        return Some((CutAxis::Vertical, a, b));
    }
    match cut(spots, obstacles, region, CutAxis::Horizontal) {
        Some((a, b)) => Some((CutAxis::Horizontal, a, b)),
        None => None,
    }
}

/// Builds one region and recurses only when a significant unobstructed gap exists.
fn build_region(
    spots: Vec<Spot>,
    obstacles: &Vec<Bbox>,
    bbox: Bbox,
    path: RegionPath,
    left: usize,
) -> (tree: RegionTree)
    ensures
        tree@ == region_of(spots@, obstacles@, bbox, path, left as nat),
    decreases left,
{
    let ghost given = spots@;
    let s: Vec<Spot> = sort(spots, &SpotOrder::Corner);
    proof {
        sorting_orders_and_keeps(given, SpotOrder::Corner);
        reveal_with_fuel(region_of, 1);
    }
    if s.len() > 1 && left > 0 {
        if let Some((axis, a, b)) = partition(&s, obstacles, &bbox) {
            let first_box: Bbox = union_spots(&a, bbox);
            let second_box: Bbox = union_spots(&b, bbox);
            let first: RegionTree = build_region(
                a,
                obstacles,
                first_box,
                path.child(axis, 0),
                left - 1,
            );
            let second: RegionTree = build_region(
                b,
                obstacles,
                second_box,
                path.child(axis, 1),
                left - 1,
            );
            let tree = RegionTree::Split {
                path,
                bbox,
                axis,
                first: Box::new(first),
                second: Box::new(second),
            };
            return tree;
        }
    }
    RegionTree::Leaf { path, bbox, fragment_indices: list_indices(&s) }
}

/// Recursively partitions fragments without crossing model obstacles.
pub fn xy_cut(fragments: &Vec<LineFragment>, obstacles: &Vec<Bbox>, page_bbox: Bbox) -> (tree:
    RegionTree)
    ensures
        tree@ == region_of(
            spots_of(models(fragments@)),
            obstacles@,
            page_bbox,
            RegionPath::Root,
            MAX_DEPTH as nat,
        ),
{
    build_region(list_spots(fragments), obstacles, page_bbox, RegionPath::root(), MAX_DEPTH)
}

/// A leaf of a tree: its path and the fragments it owns.
#[derive(Debug)]
pub struct RegionLeaf {
    pub path: RegionPath,
    pub bbox: Bbox,
    pub fragment_indices: Vec<usize>,
}

/// What a leaf says.
pub struct LeafModel {
    pub path: RegionPath,
    pub bbox: Bbox,
    pub indices: Seq<usize>,
}

impl View for RegionLeaf {
    type V = LeafModel;

    open spec fn view(&self) -> LeafModel {
        LeafModel { path: self.path, bbox: self.bbox, indices: self.fragment_indices@ }
    }
}

/// The leaves of a tree, in the order of its cuts.
pub open spec fn leaves_of(tree: TreeModel) -> Seq<LeafModel>
    decreases tree,
{
    match tree {
        TreeModel::Leaf { path, bbox, indices } => seq![LeafModel { path, bbox, indices }],
        TreeModel::Split { path, bbox, axis, first, second } => leaves_of(*first) + leaves_of(
            *second,
        ),
    }
}

/// What a list of leaves says.
pub open spec fn leaf_models(leaves: Seq<RegionLeaf>) -> Seq<LeafModel> {
    Seq::new(leaves.len(), |i: int| leaves[i]@)
}

impl RegionTree {
    /// The leaves in deterministic pre-order.
    pub fn visit_leaves(&self) -> (leaves: Vec<RegionLeaf>)
        ensures
            leaf_models(leaves@) == leaves_of(self@),
        decreases self,
    {
        match self {
            RegionTree::Leaf { path, bbox, fragment_indices } => {
                let leaf = RegionLeaf {
                    path: path.copy(),
                    bbox: *bbox,
                    fragment_indices: copy_indices(fragment_indices),
                };
                let mut leaves: Vec<RegionLeaf> = Vec::new();
                leaves.push(leaf);
                assert(leaf_models(leaves@) =~= seq![leaf@]);
                leaves
            },
            RegionTree::Split { path, bbox, axis, first, second } => {
                let mut leaves: Vec<RegionLeaf> = (&**first).visit_leaves();
                let ghost front = leaves@;
                let mut rest: Vec<RegionLeaf> = (&**second).visit_leaves();
                let ghost back = rest@;
                leaves.append(&mut rest);
                assert(leaf_models(leaves@) =~= leaf_models(front) + leaf_models(back));
                leaves
            },
        }
    }
}

/// An equal list of indices.
fn copy_indices(indices: &Vec<usize>) -> (copies: Vec<usize>)
    ensures
        copies@ == indices@,
{
    let mut copies: Vec<usize> = Vec::new();
    let mut i: usize = 0;
    while i < indices.len()
        invariant
            i <= indices@.len(),
            copies@ == indices@.take(i as int),
        decreases indices@.len() - i,
    {
        copies.push(indices[i]);
        i = i + 1;
        assert(copies@ =~= indices@.take(i as int));
    }
    assert(indices@.take(indices@.len() as int) =~= indices@);
    copies
}

/// The indices of leaves, each as often as it occurs.
pub open spec fn indices_in(leaves: Seq<LeafModel>) -> Multiset<usize>
    decreases leaves.len(),
{
    if leaves.len() == 0 {
        Multiset::empty()
    } else {
        indices_in(leaves.drop_last()).add(leaves.last().indices.to_multiset())
    }
}

proof fn lemma_indices_join(a: Seq<LeafModel>, b: Seq<LeafModel>)
    ensures
        indices_in(a + b) == indices_in(a).add(indices_in(b)),
    decreases b.len(),
{
    if b.len() == 0 {
        assert(a + b =~= a);
        assert(indices_in(a).add(indices_in(b)) =~= indices_in(a));
    } else {
        lemma_indices_join(a, b.drop_last());
        assert((a + b).drop_last() =~= a + b.drop_last());
        assert(indices_in(a + b) =~= indices_in(a).add(indices_in(b)));
    }
}

/// The indices of spots, each as often as it occurs.
spec fn index_bag(s: Seq<Spot>) -> Multiset<usize> {
    indices_of(s).to_multiset()
}

proof fn lemma_bag_join(a: Seq<Spot>, b: Seq<Spot>)
    ensures
        index_bag(a + b) == index_bag(a).add(index_bag(b)),
{
    broadcast use vstd::seq_lib::group_to_multiset_ensures;

    assert(indices_of(a + b) =~= indices_of(a) + indices_of(b));
    vstd::seq_lib::lemma_multiset_commutative(indices_of(a), indices_of(b));
}

proof fn lemma_bag_push(s: Seq<Spot>, x: Spot)
    ensures
        index_bag(s.push(x)) == index_bag(s).insert(x.index),
{
    broadcast use vstd::seq_lib::group_to_multiset_ensures;

    assert(indices_of(s.push(x)) =~= indices_of(s).push(x.index));
}

proof fn lemma_bag_above(s: Seq<Spot>, bottom: int, n: int)
    requires
        0 <= n <= s.len(),
    ensures
        index_bag(above_upto(s, bottom, true, n)).add(index_bag(above_upto(s, bottom, false, n)))
            == index_bag(s.take(n)),
    decreases n,
{
    broadcast use vstd::seq_lib::group_to_multiset_ensures;

    if n > 0 {
        lemma_bag_above(s, bottom, n - 1);
        lemma_bag_push(s.take(n - 1), s[n - 1]);
        assert(s.take(n) =~= s.take(n - 1).push(s[n - 1]));
        if s[n - 1].bbox.bottom <= bottom {
            lemma_bag_push(above_upto(s, bottom, true, n - 1), s[n - 1]);
        } else {
            lemma_bag_push(above_upto(s, bottom, false, n - 1), s[n - 1]);
        }
        assert(index_bag(above_upto(s, bottom, true, n)).add(
            index_bag(above_upto(s, bottom, false, n)),
        ) =~= index_bag(s.take(n)));
    } else {
        assert(indices_of(s.take(0)) =~= Seq::<usize>::empty());
        assert(indices_of(above_upto(s, bottom, true, 0)) =~= Seq::<usize>::empty());
        assert(indices_of(above_upto(s, bottom, false, 0)) =~= Seq::<usize>::empty());
        assert(Multiset::<usize>::empty().add(Multiset::empty()) =~= Multiset::empty());
    }
}

/// Equal spots as often as they occur bring equal indices as often as they occur.
proof fn lemma_bag_permuted(a: Seq<Spot>, b: Seq<Spot>)
    requires
        a.to_multiset() == b.to_multiset(),
    ensures
        index_bag(a) == index_bag(b),
    decreases a.len(),
{
    broadcast use vstd::seq_lib::group_to_multiset_ensures;

    assert(a.len() == a.to_multiset().len());
    assert(b.len() == b.to_multiset().len());
    if a.len() > 0 {
        let x = a.last();
        assert(a.contains(x));
        assert(b.to_multiset().count(x) > 0);
        assert(b.contains(x));
        let at = b.index_of(x);
        let a2 = a.drop_last();
        let b2 = b.remove(at);
        assert(a =~= a2.push(x));
        assert(b2.to_multiset() =~= b.to_multiset().remove(x));
        assert(a2.to_multiset() =~= a.to_multiset().remove(x));
        lemma_bag_permuted(a2, b2);
        lemma_bag_push(a2, x);
        assert(indices_of(b2) =~= indices_of(b).remove(at));
        assert(index_bag(b) =~= index_bag(b2).insert(x.index));
    } else {
        assert(indices_of(a) =~= indices_of(b));
    }
}

proof fn lemma_partition_bag(s: Seq<Spot>, obstacles: Seq<Bbox>, region: Bbox)
    requires
        s.len() > 0,
        partition_of(s, obstacles, region) is Some,
    ensures
        ({
            let parts = partition_of(s, obstacles, region)->0;
            index_bag(parts.1).add(index_bag(parts.2)) == index_bag(s)
        }),
{
    if banner_of(s, region) is Some {
        lemma_bag_above(
            s,
            sorted(s, SpotOrder::Top)[0].bbox.bottom as int,
            s.len() as int,
        );
        assert(s.take(s.len() as int) =~= s);
    } else if cut_of(s, obstacles, region, CutAxis::Vertical) is Some {
        lemma_cut_bag(s, obstacles, region, CutAxis::Vertical);
    } else {
        lemma_cut_bag(s, obstacles, region, CutAxis::Horizontal);
    }
}

proof fn lemma_cut_bag(s: Seq<Spot>, obstacles: Seq<Bbox>, region: Bbox, axis: CutAxis)
    requires
        s.len() > 0,
        cut_of(s, obstacles, region, axis) is Some,
    ensures
        ({
            let parts = cut_of(s, obstacles, region, axis)->0;
            index_bag(parts.0).add(index_bag(parts.1)) == index_bag(s)
        }),
{
    let order = match axis {
        CutAxis::Vertical => SpotOrder::Across,
        CutAxis::Horizontal => SpotOrder::Down,
    };
    let t = sorted(s, order);
    sorting_orders_and_keeps(s, order);
    lemma_widest_range(t, obstacles, region, axis, t.len() as int);
    let at = widest_upto(t, obstacles, region, axis, t.len() as int)->0;
    assert(t.take(at) + t.skip(at) =~= t);
    lemma_bag_join(t.take(at), t.skip(at));
    lemma_bag_permuted(t, s);
}

proof fn lemma_widest_range(
    s: Seq<Spot>,
    obstacles: Seq<Bbox>,
    region: Bbox,
    axis: CutAxis,
    n: int,
)
    ensures
        widest_upto(s, obstacles, region, axis, n) matches Some(at) ==> 0 < at < n,
    decreases n,
{
    if n > 1 {
        lemma_widest_range(s, obstacles, region, axis, n - 1);
    }
}

proof fn lemma_tree_bag(
    spots: Seq<Spot>,
    obstacles: Seq<Bbox>,
    bbox: Bbox,
    path: RegionPath,
    left: nat,
)
    ensures
        indices_in(leaves_of(region_of(spots, obstacles, bbox, path, left))) == index_bag(spots),
    decreases left,
{
    let s = sorted(spots, SpotOrder::Corner);
    let tree = region_of(spots, obstacles, bbox, path, left);
    sorting_orders_and_keeps(spots, SpotOrder::Corner);
    lemma_bag_permuted(s, spots);
    match tree {
        TreeModel::Leaf { path: p, bbox: b, indices } => {
            let leaf = LeafModel { path: p, bbox: b, indices };
            assert(leaves_of(tree) =~= seq![leaf]);
            assert(seq![leaf].drop_last() =~= Seq::<LeafModel>::empty());
            assert(indices_in(Seq::<LeafModel>::empty()) =~= Multiset::empty());
            assert(seq![leaf].last() == leaf);
            assert(indices_in(seq![leaf]) =~= indices.to_multiset());
        },
        TreeModel::Split { path: p, bbox: b, axis, first, second } => {
            let parts = partition_of(s, obstacles, bbox)->0;
            lemma_partition_bag(s, obstacles, bbox);
            lemma_tree_bag(
                parts.1,
                obstacles,
                around(parts.1, bbox),
                path.part(parts.0, 0),
                (left - 1) as nat,
            );
            lemma_tree_bag(
                parts.2,
                obstacles,
                around(parts.2, bbox),
                path.part(parts.0, 1),
                (left - 1) as nat,
            );
            lemma_indices_join(leaves_of(*first), leaves_of(*second));
        },
    }
}

/// Every fragment lies in exactly one leaf.
pub proof fn leaves_partition_fragments(
    fragments: Seq<FragmentModel>,
    obstacles: Seq<Bbox>,
    page: Bbox,
)
    ensures
        ({
            let spots = spots_of(fragments);
            let tree = region_of(spots, obstacles, page, RegionPath::Root, MAX_DEPTH as nat);
            indices_in(leaves_of(tree)) == indices_of(spots).to_multiset()
        }),
{
    lemma_tree_bag(spots_of(fragments), obstacles, page, RegionPath::Root, MAX_DEPTH as nat);
}

/// The tree does not depend on the order in which the fragments are listed,
/// where places and first identities tell them apart.
pub proof fn regions_forget_arrival(
    a: Seq<Spot>,
    b: Seq<Spot>,
    obstacles: Seq<Bbox>,
    page: Bbox,
    path: RegionPath,
    left: nat,
)
    requires
        a.to_multiset() == b.to_multiset(),
        forall|i: int, j: int|
            #![trigger a[i], a[j]]
            0 <= i < a.len() && 0 <= j < a.len() && a[i] != a[j] ==> SpotOrder::Corner.before(
                a[i],
                a[j],
            ) || SpotOrder::Corner.before(a[j], a[i]),
    ensures
        region_of(a, obstacles, page, path, left) == region_of(b, obstacles, page, path, left),
{
    sorting_forgets_arrival(a, b, SpotOrder::Corner);
}

impl SpotOrder {
    /// Whether a spot must stand before another.
    pub open spec fn before(self, a: Spot, b: Spot) -> bool {
        self.lt(a, b)
    }
}

} // verus!
