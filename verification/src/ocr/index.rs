//! Text facts of a page, found by place.

use vstd::math::max;
use vstd::prelude::*;

use crate::geometry::Bbox;
use crate::line::bidi::ItemOrder;
use crate::sorting::{is_ordered, sort, sorted, sorting_orders_and_keeps};
use crate::types::TextItem;

verus! {

/// Positions, among the first `n` facts, of those that share area with a box.
pub open spec fn hits_upto(items: Seq<TextItem>, b: Bbox, n: int) -> Seq<int>
    decreases n,
{
    if n <= 0 {
        Seq::empty()
    } else if items[n - 1].bbox.shared_area(b) > 0 {
        hits_upto(items, b, n - 1).push(n - 1)
    } else {
        hits_upto(items, b, n - 1)
    }
}

/// Positions of the facts that share area with a box.
pub open spec fn hits(items: Seq<TextItem>, b: Bbox) -> Seq<int> {
    hits_upto(items, b, items.len() as int)
}

/// Facts in the order of their top edges.
pub open spec fn topmost_first(items: Seq<TextItem>) -> Seq<TextItem> {
    sorted(items, ItemOrder::Topmost)
}

/// The integers of a list of positions.
pub open spec fn positions(found: Seq<usize>) -> Seq<int> {
    Seq::new(found.len(), |i: int| found[i] as int)
}

/// Whether some fact, up to a position, ends at a height.
pub open spec fn is_bottom(items: Seq<TextItem>, last: int, height: i32) -> bool {
    exists|i: int| 0 <= i <= last && (#[trigger] items[i]).bbox.bottom == height
}

/// Facts sorted by top edge, with prefix maxima that retain tall overlapping facts.
#[derive(Debug)]
pub struct TextIndex {
    items: Vec<TextItem>,
    max_bottom: Vec<i32>,
}

impl View for TextIndex {
    type V = Seq<TextItem>;

    closed spec fn view(&self) -> Seq<TextItem> {
        self.items@
    }
}

impl TextIndex {
    /// Tops grow, and each maximum is the lowest of the bottoms up to it.
    pub closed spec fn wf(self) -> bool {
        &&& self.max_bottom@.len() == self.items@.len()
        &&& is_ordered(self.items@, ItemOrder::Topmost)
        &&& forall|i: int, j: int|
            #![trigger self.items@[i], self.max_bottom@[j]]
            0 <= i <= j < self.items@.len() ==> self.items@[i].bbox.bottom <= self.max_bottom@[j]
        &&& forall|i: int, j: int|
            #![trigger self.max_bottom@[i], self.max_bottom@[j]]
            0 <= i <= j < self.items@.len() ==> self.max_bottom@[i] <= self.max_bottom@[j]
        &&& forall|j: int|
            0 <= j < self.items@.len() ==> is_bottom(self.items@, j, #[trigger] self.max_bottom@[j])
    }

    /// Builds one reusable page index.
    pub fn new(items: Vec<TextItem>) -> (index: TextIndex)
        ensures
            index.wf(),
            index@ == topmost_first(items@),
    {
        let ghost all = items@;
        let items: Vec<TextItem> = sort(items, &ItemOrder::Topmost);
        proof {
            sorting_orders_and_keeps(all, ItemOrder::Topmost);
        }
        let mut max_bottom: Vec<i32> = Vec::new();
        let mut i: usize = 0;
        while i < items.len()
            invariant
                i <= items@.len(),
                max_bottom@.len() == i,
                forall|k: int, j: int|
                    #![trigger items@[k], max_bottom@[j]]
                    0 <= k <= j < i ==> items@[k].bbox.bottom <= max_bottom@[j],
                forall|k: int, j: int|
                    #![trigger max_bottom@[k], max_bottom@[j]]
                    0 <= k <= j < i ==> max_bottom@[k] <= max_bottom@[j],
                forall|j: int|
                    0 <= j < i ==> is_bottom(items@, j, #[trigger] max_bottom@[j]),
            decreases items@.len() - i,
        {
            let bottom: i32 = items[i].bbox.bottom;
            let largest: i32 = if i > 0 && max_bottom[i - 1] > bottom {
                max_bottom[i - 1]
            } else {
                bottom
            };
            assert(is_bottom(items@, i as int, largest)) by {
                assert(items@[i as int].bbox.bottom == bottom);
                if i > 0 {
                    assert(is_bottom(items@, i - 1, max_bottom@[i - 1]));
                }
            }
            max_bottom.push(largest);
            i = i + 1;
        }
        TextIndex { items, max_bottom }
    }

    /// The fact at a position.
    pub fn item(&self, position: usize) -> (item: &TextItem)
        requires
            position < self@.len(),
        ensures
            *item == self@[position as int],
    {
        &self.items[position]
    }

    /// Number of facts.
    pub fn len(&self) -> (count: usize)
        ensures
            count == self@.len(),
    {
        self.items.len()
    }

    /// The first position whose fact reaches below a height.
    fn reaching(&self, top: i32) -> (begin: usize)
        requires
            self.wf(),
        ensures
            begin <= self@.len(),
            forall|i: int| 0 <= i < begin ==> (#[trigger] self@[i]).bbox.bottom <= top,
            begin < self@.len() ==> self@[begin as int].bbox.bottom > top,
    {
        let mut low: usize = 0;
        let mut high: usize = self.items.len();
        while low < high
            invariant
                self.wf(),
                low <= high <= self@.len(),
                forall|i: int| 0 <= i < low ==> (#[trigger] self@[i]).bbox.bottom <= top,
                high < self@.len() ==> self.max_bottom@[high as int] > top,
            decreases high - low,
        {
            let middle: usize = low + (high - low) / 2;
            if self.max_bottom[middle] <= top {
                assert forall|i: int| 0 <= i < middle + 1 implies (#[trigger] self@[i]).bbox.bottom
                    <= top by {
                    assert(self.items@[i].bbox.bottom <= self.max_bottom@[middle as int]);
                }
                low = middle + 1;
            } else {
                high = middle;
            }
        }
        proof {
            if low < self@.len() {
                assert(is_bottom(self.items@, low as int, self.max_bottom@[low as int]));
                let i = choose|i: int|
                    0 <= i <= low && (#[trigger] self.items@[i]).bbox.bottom
                        == self.max_bottom@[low as int];
                assert(self@[i].bbox.bottom > top);
            }
        }
        low
    }

    /// The first position whose fact starts at a height or below.
    fn starting(&self, bottom: i32) -> (end: usize)
        requires
            self.wf(),
        ensures
            end <= self@.len(),
            forall|i: int| end <= i < self@.len() ==> (#[trigger] self@[i]).bbox.top >= bottom,
            forall|i: int| 0 <= i < end ==> (#[trigger] self@[i]).bbox.top < bottom,
    {
        let mut low: usize = 0;
        let mut high: usize = self.items.len();
        while low < high
            invariant
                self.wf(),
                low <= high <= self@.len(),
                forall|i: int| high <= i < self@.len() ==> (#[trigger] self@[i]).bbox.top
                    >= bottom,
                forall|i: int| 0 <= i < low ==> (#[trigger] self@[i]).bbox.top < bottom,
            decreases high - low,
        {
            let middle: usize = low + (high - low) / 2;
            if self.items[middle].bbox.top < bottom {
                assert forall|i: int| 0 <= i <= middle implies (#[trigger] self@[i]).bbox.top
                    < bottom by {
                    if i < middle {
                        assert(!ItemOrder::Topmost.lt_of(
                            self.items@[middle as int],
                            self.items@[i],
                        ));
                    }
                }
                low = middle + 1;
            } else {
                assert forall|i: int| middle <= i < self@.len() implies (
                #[trigger] self@[i]).bbox.top >= bottom by {
                    if i > middle {
                        assert(!ItemOrder::Topmost.lt_of(
                            self.items@[i],
                            self.items@[middle as int],
                        ));
                    }
                }
                high = middle;
            }
        }
        high
    }

    /// Narrows the vertical interval before exact overlap checks; never drops an
    /// earlier tall fact.
    pub fn overlapping(&self, b: Bbox) -> (found: Vec<usize>)
        requires
            self.wf(),
        ensures
            positions(found@) == hits(self@, b),
            forall|i: int| 0 <= i < found@.len() ==> #[trigger] found@[i] < self@.len(),
    {
        let begin: usize = self.reaching(b.top);
        let end: usize = self.starting(b.bottom);
        proof {
            lemma_no_hits(self@, b, begin as int);
        }
        let mut found: Vec<usize> = Vec::new();
        let mut i: usize = begin;
        assert(positions(found@) =~= Seq::empty());
        while i < end
            invariant
                begin <= i,
                i <= end || i == begin,
                end <= self@.len(),
                begin <= self@.len(),
                positions(found@) == hits_upto(self@, b, i as int),
                forall|k: int| 0 <= k < found@.len() ==> #[trigger] found@[k] < self@.len(),
            decreases end - i,
        {
            if self.items[i].bbox.intersection_area(&b) > 0 {
                let ghost before = found@;
                found.push(i);
                assert(positions(found@) =~= positions(before).push(i as int));
            }
            i = i + 1;
        }
        proof {
            lemma_rest_misses(self@, b, i as int, self@.len() as int);
        }
        found
    }
}

impl ItemOrder {
    /// Whether a run must stand before another.
    pub open spec fn lt_of(self, a: TextItem, b: TextItem) -> bool {
        crate::sorting::Order::lt(&self, a, b)
    }
}

/// Facts that end above a box share nothing with it.
proof fn lemma_no_hits(items: Seq<TextItem>, b: Bbox, n: int)
    requires
        0 <= n <= items.len(),
        forall|i: int| 0 <= i < n ==> (#[trigger] items[i]).bbox.bottom <= b.top,
    ensures
        hits_upto(items, b, n) == Seq::<int>::empty(),
    decreases n,
{
    if n > 0 {
        lemma_no_hits(items, b, n - 1);
        lemma_apart(items[n - 1].bbox, b);
    }
}

/// Facts that start below a box share nothing with it.
proof fn lemma_rest_misses(items: Seq<TextItem>, b: Bbox, from: int, n: int)
    requires
        0 <= from <= n <= items.len(),
        forall|i: int| from <= i < n ==> (#[trigger] items[i]).bbox.top >= b.bottom,
    ensures
        hits_upto(items, b, n) == hits_upto(items, b, from),
    decreases n - from,
{
    if from < n {
        lemma_rest_misses(items, b, from, n - 1);
        lemma_apart(items[n - 1].bbox, b);
    }
}

/// Boxes that do not meet vertically share no area.
proof fn lemma_apart(a: Bbox, b: Bbox)
    requires
        a.bottom <= b.top || a.top >= b.bottom,
    ensures
        a.shared_area(b) <= 0,
{
    let x = max(a.overlap_x(b), 0);
    let y = max(a.overlap_y(b), 0);
    assert(y == 0);
    assert(x * y == 0) by (nonlinear_arith)
        requires
            y == 0,
    ;
}

/// A query finds exactly the facts that share area with the box.
pub proof fn queries_find_every_overlap(items: Seq<TextItem>, b: Bbox, i: int)
    requires
        0 <= i < items.len(),
    ensures
        hits(items, b).contains(i) <==> items[i].bbox.shared_area(b) > 0,
{
    lemma_hits_members(items, b, items.len() as int, i);
}

proof fn lemma_hits_members(items: Seq<TextItem>, b: Bbox, n: int, i: int)
    requires
        0 <= n <= items.len(),
    ensures
        hits_upto(items, b, n).contains(i) <==> 0 <= i < n && items[i].bbox.shared_area(b) > 0,
    decreases n,
{
    if n > 0 {
        lemma_hits_members(items, b, n - 1, i);
        let before = hits_upto(items, b, n - 1);
        if items[n - 1].bbox.shared_area(b) > 0 {
            let after = before.push(n - 1);
            assert(after[before.len() as int] == n - 1);
            if before.contains(i) {
                let k = before.index_of(i);
                assert(after[k] == i);
            }
            if after.contains(i) {
                let k = after.index_of(i);
                if k < before.len() {
                    assert(before[k] == i);
                }
            }
        }
    }
}

} // verus!
