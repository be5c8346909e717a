//! Line fragments: runs that are read together.

use vstd::multiset::Multiset;
use vstd::prelude::*;

use super::axes::{oblique, TextAxes};
use super::bidi::{detect_direction, direction_of, order_items, read_order};
use super::metrics::{line_fault, metrics_of, run_fault, LineMetrics};
use crate::chars::{
    ink, lemma_ink_upto, str_before, text_before, text_order_is_strict_weak,
};
use crate::error::LineError;
use crate::geometry::{Baseline, Bbox};
use crate::sorting::{
    inserted, sort, sorted, sorted_upto, sorting_orders_and_keeps, Order, Sorter,
};
use crate::types::{copy_items, Rotation, TextItem, WritingDirection};

verus! {

/// A conservative line fragment that exclusively owns its runs.
#[derive(Debug)]
pub struct LineFragment {
    pub items: Vec<TextItem>,
    pub bbox: Bbox,
    pub baseline: Baseline,
    pub direction: WritingDirection,
    pub metrics: LineMetrics,
    pub rotation: Rotation,
}

/// What a line fragment stands for.
#[verifier::ext_equal]
pub struct FragmentModel {
    pub items: Seq<TextItem>,
    pub bbox: Bbox,
    pub baseline: Baseline,
    pub direction: WritingDirection,
    pub metrics: LineMetrics,
    pub rotation: Rotation,
}

impl View for LineFragment {
    type V = FragmentModel;

    open spec fn view(&self) -> FragmentModel {
        FragmentModel {
            items: self.items@,
            bbox: self.bbox,
            baseline: self.baseline,
            direction: self.direction,
            metrics: self.metrics,
            rotation: self.rotation,
        }
    }
}

/// What a list of line fragments stands for.
pub open spec fn models(fragments: Seq<LineFragment>) -> Seq<FragmentModel> {
    Seq::new(fragments.len(), |i: int| fragments[i]@)
}

/// The fragment of runs that are already in reading order.
pub open spec fn ordered_fragment(items: Seq<TextItem>, page_width: int) -> FragmentModel {
    let metrics = metrics_of(items, page_width);
    FragmentModel {
        items,
        bbox: metrics.bbox,
        baseline: metrics.baseline,
        direction: direction_of(items, items[0].rotation.angle as int),
        metrics,
        rotation: items[0].rotation,
    }
}

/// The runs of one line in reading order.
pub open spec fn arranged(items: Seq<TextItem>) -> Seq<TextItem> {
    read_order(items, direction_of(items, items[0].rotation.angle as int))
}

/// The fragment of runs in any order.
pub open spec fn fragment_of(items: Seq<TextItem>, page_width: int) -> FragmentModel {
    ordered_fragment(arranged(items), page_width)
}

/// Why runs in any order make no fragment, if they make none.
pub open spec fn fragment_fault(items: Seq<TextItem>) -> Option<LineError> {
    line_fault(arranged(items))
}

/// A single run makes a fragment exactly where it has an extent.
pub proof fn lemma_single_fault(item: TextItem)
    ensures
        arranged(seq![item]) == seq![item],
        fragment_fault(seq![item]) == run_fault(item),
{
    broadcast use vstd::seq_lib::group_to_multiset_ensures;

    let one = seq![item];
    arranging_keeps_runs(one);
    let same = arranged(one);
    assert(same.contains(same[0]));
    assert(one.to_multiset().count(same[0]) > 0);
    assert(one.contains(same[0]));
    assert(same =~= one);
}

/// The runs of the first `n` fragments, each as often as it occurs.
pub open spec fn owned_upto(fragments: Seq<FragmentModel>, n: int) -> Multiset<TextItem>
    decreases n,
{
    if n <= 0 {
        Multiset::empty()
    } else {
        owned_upto(fragments, n - 1).add(fragments[n - 1].items.to_multiset())
    }
}

/// The runs of all fragments, each as often as it occurs.
pub open spec fn owned(fragments: Seq<FragmentModel>) -> Multiset<TextItem> {
    owned_upto(fragments, fragments.len() as int)
}

/// Runs up to `n` do not depend on later fragments.
pub proof fn lemma_owned_prefix(a: Seq<FragmentModel>, b: Seq<FragmentModel>, n: int)
    requires
        0 <= n <= a.len(),
        n <= b.len(),
        forall|i: int| 0 <= i < n ==> (#[trigger] a[i]).items == b[i].items,
    ensures
        owned_upto(a, n) == owned_upto(b, n),
    decreases n,
{
    if n > 0 {
        lemma_owned_prefix(a, b, n - 1);
        assert(a[n - 1].items == b[n - 1].items);
    }
}

/// One more fragment brings its own runs.
pub proof fn lemma_owned_push(fs: Seq<FragmentModel>, f: FragmentModel)
    ensures
        owned(fs.push(f)) == owned(fs).add(f.items.to_multiset()),
{
    lemma_owned_prefix(fs, fs.push(f), fs.len() as int);
}

/// Two lists together bring the runs of both.
pub proof fn lemma_owned_concat(a: Seq<FragmentModel>, b: Seq<FragmentModel>)
    ensures
        owned(a + b) == owned(a).add(owned(b)),
    decreases b.len(),
{
    if b.len() == 0 {
        assert(a + b =~= a);
        assert(owned(a).add(owned(b)) =~= owned(a));
    } else {
        lemma_owned_concat(a, b.drop_last());
        lemma_owned_push(a + b.drop_last(), b.last());
        lemma_owned_push(b.drop_last(), b.last());
        assert((a + b.drop_last()).push(b.last()) =~= a + b);
        assert(b.drop_last().push(b.last()) =~= b);
        assert(owned(a + b) =~= owned(a).add(owned(b)));
    }
}

/// Taking a fragment out takes its runs out.
pub proof fn lemma_owned_remove(fs: Seq<FragmentModel>, at: int)
    requires
        0 <= at < fs.len(),
    ensures
        owned(fs) == owned(fs.remove(at)).add(fs[at].items.to_multiset()),
{
    let front = fs.take(at);
    let back = fs.skip(at + 1);
    assert(fs =~= front.push(fs[at]) + back);
    assert(fs.remove(at) =~= front + back);
    lemma_owned_concat(front.push(fs[at]), back);
    lemma_owned_concat(front, back);
    lemma_owned_push(front, fs[at]);
    assert(owned(fs) =~= owned(fs.remove(at)).add(fs[at].items.to_multiset()));
}

/// Replacing a fragment replaces its runs.
pub proof fn lemma_owned_update(fs: Seq<FragmentModel>, at: int, f: FragmentModel)
    requires
        0 <= at < fs.len(),
    ensures
        owned(fs.update(at, f)).add(fs[at].items.to_multiset()) == owned(fs).add(
            f.items.to_multiset(),
        ),
{
    let next = fs.update(at, f);
    lemma_owned_remove(fs, at);
    lemma_owned_remove(next, at);
    assert(next.remove(at) =~= fs.remove(at));
    assert(owned(next).add(fs[at].items.to_multiset()) =~= owned(fs).add(f.items.to_multiset()));
}

/// Whether some run states its baseline.
pub open spec fn has_baseline(items: Seq<TextItem>) -> bool {
    exists|i: int| 0 <= i < items.len() && (#[trigger] items[i]).baseline is Some
}

/// The height by which a fragment is ordered down the page.
pub open spec fn reading_y(f: FragmentModel) -> int {
    if f.direction != WritingDirection::Vertical && !oblique(f.rotation.angle as int)
        && has_baseline(f.items) {
        f.baseline.start.y as int
    } else {
        f.bbox.top as int
    }
}

/// Arranging the runs of a line keeps exactly those runs.
pub proof fn arranging_keeps_runs(items: Seq<TextItem>)
    ensures
        arranged(items).len() == items.len(),
        arranged(items).to_multiset() == items.to_multiset(),
{
    if items.len() > 0 {
        let direction = direction_of(items, items[0].rotation.angle as int);
        sorting_orders_and_keeps(
            items,
            super::bidi::inline_order(direction, items[0].rotation),
        );
    }
}

impl LineFragment {
    /// Orders upright fragments by the body baseline so raised scripts cannot jump ahead.
    pub fn reading_order_y(&self) -> (y: i32)
        ensures
            y == reading_y(self@),
    {
        let mut any: bool = false;
        let mut i: usize = 0;
        while i < self.items.len()
            invariant
                i <= self.items@.len(),
                any == exists|k: int| 0 <= k < i && (#[trigger] self.items@[k]).baseline is Some,
            decreases self.items@.len() - i,
        {
            if self.items[i].baseline.is_some() {
                any = true;
            }
            i = i + 1;
        }
        let axes: TextAxes = TextAxes::from(self.rotation);
        if self.direction != WritingDirection::Vertical && !axes.is_oblique() && any {
            self.baseline.start.y
        } else {
            self.bbox.top
        }
    }

    /// Builds one canonical fragment from ordered or unordered text facts; no facts are refused,
    /// and so are facts whose joint box has no extent.
    pub fn from_items(items: Vec<TextItem>, page_width: i32) -> (made: Result<
        LineFragment,
        LineError,
    >)
        ensures
            match made {
                Ok(fragment) => items@.len() > 0 && fragment_fault(items@) is None && fragment@
                    == fragment_of(items@, page_width as int),
                Err(e) => fragment_fault(items@) == Some(e),
            },
    {
        proof {
            arranging_keeps_runs(items@);
        }
        if items.len() == 0 {
            return Err(LineError::EmptyFragment);
        }
        let direction: WritingDirection = detect_direction(&items, items[0].rotation.angle);
        LineFragment::from_ordered_items(order_items(items, direction), page_width)
    }

    /// Builds metrics around an established order without arranging the runs again.
    pub fn from_ordered_items(items: Vec<TextItem>, page_width: i32) -> (made: Result<
        LineFragment,
        LineError,
    >)
        ensures
            match made {
                Ok(fragment) => line_fault(items@) is None && fragment@ == ordered_fragment(
                    items@,
                    page_width as int,
                ),
                Err(e) => line_fault(items@) == Some(e),
            },
    {
        let metrics: LineMetrics = match LineMetrics::from_items(&items, page_width) {
            Err(e) => {
                return Err(e);
            },
            Ok(metrics) => metrics,
        };
        let rotation: Rotation = items[0].rotation;
        let direction: WritingDirection = detect_direction(&items, rotation.angle);
        Ok(
            LineFragment {
                items,
                bbox: metrics.bbox,
                baseline: metrics.baseline,
                direction,
                metrics,
                rotation,
            },
        )
    }

    /// An equal fragment.
    pub fn copy(&self) -> (copy: LineFragment)
        ensures
            copy@ == self@,
    {
        LineFragment {
            items: copy_items(&self.items),
            bbox: self.bbox,
            baseline: self.baseline,
            direction: self.direction,
            metrics: self.metrics,
            rotation: self.rotation,
        }
    }
}

/// Number of characters that are no blanks in the first `n` runs.
pub open spec fn runs_ink(items: Seq<TextItem>, n: int) -> int
    decreases n,
{
    if n <= 0 {
        0
    } else {
        runs_ink(items, n - 1) + ink(items[n - 1].raw_text@)
    }
}

/// Later runs never lower the count.
pub proof fn lemma_runs_ink(items: Seq<TextItem>, part: int, n: int)
    requires
        0 <= part <= n <= items.len(),
    ensures
        0 <= runs_ink(items, part) <= runs_ink(items, n),
    decreases n,
{
    if n > 0 {
        lemma_ink_upto(items[n - 1].raw_text@, items[n - 1].raw_text@.len() as int);
        if part < n {
            lemma_runs_ink(items, part, n - 1);
        } else {
            lemma_runs_ink(items, part - 1, n - 1);
        }
    }
}

/// The number of characters that are no blanks, or `cap` when there are more.
pub fn ink_up_to(items: &Vec<TextItem>, cap: usize) -> (count: usize)
    ensures
        count == vstd::math::min(cap as int, runs_ink(items@, items@.len() as int)),
{
    proof {
        lemma_runs_ink(items@, 0, items@.len() as int);
    }
    if cap == 0 {
        return 0;
    }
    let mut count: usize = 0;
    let mut i: usize = 0;
    while i < items.len()
        invariant
            i <= items@.len(),
            count < cap,
            count == runs_ink(items@, i as int),
        decreases items@.len() - i,
    {
        let here: usize = items[i].raw_text.ink_count();
        if here >= cap - count {
            proof {
                lemma_runs_ink(items@, i + 1, items@.len() as int);
                lemma_runs_ink(items@, i as int, items@.len() as int);
            }
            return cap;
        }
        count = count + here;
        i = i + 1;
    }
    count
}

/// Identity of the first run of a fragment.
pub open spec fn first_id(f: FragmentModel) -> Option<Seq<char>> {
    if f.items.len() > 0 {
        Some(f.items[0].id@)
    } else {
        None
    }
}

/// Whether one optional identity stands before another; a missing one comes first.
pub open spec fn id_before(a: Option<Seq<char>>, b: Option<Seq<char>>) -> bool {
    match (a, b) {
        (None, Some(_)) => true,
        (Some(x), Some(y)) => text_before(x, y),
        _ => false,
    }
}

/// The ways in which fragments are put in order.
#[derive(Debug, Clone, Copy, PartialEq, Eq, Structural)]
pub enum FragmentOrder {
    /// By angle, down the page, to the right, by the first run.
    Page,
    /// By top edge, by left edge, by the first run.
    Corner,
    /// By left edge alone.
    Rightwards,
    /// By right edge alone, last first.
    Leftwards,
}

impl FragmentOrder {
    /// What a fragment is ordered by, before its first run.
    pub open spec fn key(self, f: FragmentModel) -> (int, int, int) {
        match self {
            FragmentOrder::Page => (f.rotation.angle as int, reading_y(f), f.bbox.left as int),
            FragmentOrder::Corner => (f.bbox.top as int, f.bbox.left as int, 0),
            FragmentOrder::Rightwards => (f.bbox.left as int, 0, 0),
            FragmentOrder::Leftwards => (-f.bbox.right, 0, 0),
        }
    }

    /// Whether equal keys are told apart by the first run.
    pub open spec fn by_id(self) -> bool {
        self == FragmentOrder::Page || self == FragmentOrder::Corner
    }

    /// What a fragment is ordered by, before its first run.
    fn key_of(&self, f: &LineFragment) -> (key: (i64, i64, i64))
        ensures
            (key.0 as int, key.1 as int, key.2 as int) == self.key(f@),
    {
        match self {
            FragmentOrder::Page => (
                f.rotation.angle as i64,
                f.reading_order_y() as i64,
                f.bbox.left as i64,
            ),
            FragmentOrder::Corner => (f.bbox.top as i64, f.bbox.left as i64, 0),
            FragmentOrder::Rightwards => (f.bbox.left as i64, 0, 0),
            FragmentOrder::Leftwards => (-(f.bbox.right as i64), 0, 0),
        }
    }
}

impl Order<FragmentModel> for FragmentOrder {
    open spec fn lt(&self, a: FragmentModel, b: FragmentModel) -> bool {
        let ka = self.key(a);
        let kb = self.key(b);
        ka.0 < kb.0 || (ka.0 == kb.0 && (ka.1 < kb.1 || (ka.1 == kb.1 && (ka.2 < kb.2 || (ka.2
            == kb.2 && self.by_id() && id_before(first_id(a), first_id(b)))))))
    }

    proof fn is_strict_weak(&self, a: FragmentModel, b: FragmentModel, c: FragmentModel) {
        text_order_is_strict_weak(a.items[0].id@, b.items[0].id@, c.items[0].id@);
    }
}

impl Order<LineFragment> for FragmentOrder {
    open spec fn lt(&self, a: LineFragment, b: LineFragment) -> bool {
        self.lt(a@, b@)
    }

    proof fn is_strict_weak(&self, a: LineFragment, b: LineFragment, c: LineFragment) {
        self.is_strict_weak(a@, b@, c@);
    }
}

impl Sorter<LineFragment> for FragmentOrder {
    fn precedes(&self, a: &LineFragment, b: &LineFragment) -> (yes: bool) {
        let ka: (i64, i64, i64) = self.key_of(a);
        let kb: (i64, i64, i64) = self.key_of(b);
        if ka.0 != kb.0 {
            return ka.0 < kb.0;
        }
        if ka.1 != kb.1 {
            return ka.1 < kb.1;
        }
        if ka.2 != kb.2 {
            return ka.2 < kb.2;
        }
        if *self == FragmentOrder::Rightwards || *self == FragmentOrder::Leftwards {
            return false;
        }
        if b.items.len() == 0 {
            return false;
        }
        if a.items.len() == 0 {
            return true;
        }
        str_before(a.items[0].id.as_str(), b.items[0].id.as_str())
    }
}

/// Inserting a fragment is inserting what it stands for.
proof fn lemma_inserted_models(s: Seq<LineFragment>, x: LineFragment, order: FragmentOrder)
    ensures
        models(inserted(s, x, order)) == inserted(models(s), x@, order),
    decreases s.len(),
{
    if s.len() > 0 {
        assert(models(s).last() == s.last()@);
        assert(models(s).drop_last() =~= models(s.drop_last()));
        if order.lt(x, s.last()) {
            lemma_inserted_models(s.drop_last(), x, order);
            assert(models(inserted(s, x, order)) =~= inserted(models(s), x@, order));
        } else {
            assert(models(s.push(x)) =~= models(s).push(x@));
        }
    } else {
        assert(models(s.push(x)) =~= models(s).push(x@));
    }
}

/// Sorting fragments is sorting what they stand for.
pub proof fn lemma_sorted_models(s: Seq<LineFragment>, n: int, order: FragmentOrder)
    requires
        0 <= n <= s.len(),
    ensures
        models(sorted_upto(s, n, order)) == sorted_upto(models(s), n, order),
    decreases n,
{
    if n > 0 {
        lemma_sorted_models(s, n - 1, order);
        lemma_inserted_models(sorted_upto(s, n - 1, order), s[n - 1], order);
    } else {
        assert(models(sorted_upto(s, 0, order)) =~= sorted_upto(models(s), 0, order));
    }
}

/// Sorts fragments stably.
pub fn sort_fragments(fragments: Vec<LineFragment>, order: FragmentOrder) -> (ordered: Vec<
    LineFragment,
>)
    ensures
        models(ordered@) == sorted(models(fragments@), order),
{
    proof {
        lemma_sorted_models(fragments@, fragments@.len() as int, order);
    }
    sort(fragments, &order)
}

/// The runs of fragments depend on which fragments there are, not on their order.
pub proof fn lemma_owned_by_multiset(a: Seq<FragmentModel>, b: Seq<FragmentModel>)
    requires
        a.to_multiset() == b.to_multiset(),
    ensures
        owned(a) == owned(b),
    decreases a.len(),
{
    broadcast use vstd::seq_lib::group_to_multiset_ensures;

    assert(a.len() == a.to_multiset().len());
    assert(b.len() == b.to_multiset().len());
    if a.len() > 0 {
        let x = a.last();
        assert(a.contains(x));
        assert(b.to_multiset().count(x) > 0);
        assert(b.contains(x));
        let at = b.index_of(x);
        lemma_owned_remove(a, a.len() - 1);
        lemma_owned_remove(b, at);
        let a2 = a.remove(a.len() - 1);
        let b2 = b.remove(at);
        assert(a2.to_multiset() =~= a.to_multiset().remove(x));
        assert(b2.to_multiset() =~= b.to_multiset().remove(x));
        lemma_owned_by_multiset(a2, b2);
    }
}

} // verus!
