//! Ownership does not depend on the order in which a page arrives.

use vstd::prelude::*;

use crate::geometry::Bbox;
use crate::layout::LayoutDetection;
use crate::line::fragment::{FragmentModel, FragmentOrder};
use crate::sorting::{sorting_forgets_arrival, sorting_orders_and_keeps};
use crate::types::TextItem;

use super::assign::{
    role_of, seed_error, separate, usable, usable_upto, Assignment, AssignmentEngine, Role,
    SourceOrder,
};
use super::score::OutlineMeasures;

verus! {

/// Whether a detection is usable for one thing.
pub open spec fn serves(page_number: u32, page: Bbox, role: Role, d: LayoutDetection) -> bool {
    seed_error(page_number, d, page) is None && role_of(d.label) == role
}

/// A detection is listed as often as it is given, if it is usable.
proof fn lemma_usable_count(
    page_number: u32,
    detections: Seq<LayoutDetection>,
    page: Bbox,
    role: Role,
    n: int,
    d: LayoutDetection,
)
    requires
        0 <= n <= detections.len(),
    ensures
        usable_upto(page_number, detections, page, role, n).to_multiset().count(d) == (if serves(
            page_number,
            page,
            role,
            d,
        ) {
            detections.take(n).to_multiset().count(d)
        } else {
            0
        }),
    decreases n,
{
    broadcast use vstd::seq_lib::group_to_multiset_ensures;

    if n > 0 {
        lemma_usable_count(page_number, detections, page, role, n - 1, d);
        assert(detections.take(n) =~= detections.take(n - 1).push(detections[n - 1]));
    } else {
        assert(detections.take(0) =~= Seq::<LayoutDetection>::empty());
    }
}

/// Whether no two detections have one place in the model's answer.
pub open spec fn distinct_sources(detections: Seq<LayoutDetection>) -> bool {
    forall|i: int, j: int|
        #![trigger detections[i], detections[j]]
        0 <= i < detections.len() && 0 <= j < detections.len() && detections[i] != detections[j]
            ==> detections[i].source_detection_index != detections[j].source_detection_index
}

/// The usable detections are the same in whatever order they are given.
pub proof fn usable_detections_forget_arrival(
    page_number: u32,
    detections: Seq<LayoutDetection>,
    shuffled: Seq<LayoutDetection>,
    page: Bbox,
    role: Role,
)
    requires
        detections.to_multiset() == shuffled.to_multiset(),
        distinct_sources(detections),
    ensures
        usable(page_number, detections, page, role) == usable(page_number, shuffled, page, role),
{
    broadcast use vstd::seq_lib::group_to_multiset_ensures;

    let n = detections.len() as int;
    let m = shuffled.len() as int;
    let a = usable_upto(page_number, detections, page, role, n);
    let b = usable_upto(page_number, shuffled, page, role, m);
    assert(detections.take(n) =~= detections);
    assert(shuffled.take(m) =~= shuffled);
    assert forall|d: LayoutDetection| a.to_multiset().count(d) == b.to_multiset().count(d) by {
        lemma_usable_count(page_number, detections, page, role, n, d);
        lemma_usable_count(page_number, shuffled, page, role, m, d);
    }
    assert(a.to_multiset() =~= b.to_multiset());
    assert forall|i: int, j: int|
        #![trigger a[i], a[j]]
        0 <= i < a.len() && 0 <= j < a.len() && a[i] != a[j] implies a[i].source_detection_index
        != a[j].source_detection_index by {
        lemma_given(page_number, detections, page, role, a[i]);
        lemma_given(page_number, detections, page, role, a[j]);
        let p = detections.index_of(a[i]);
        let q = detections.index_of(a[j]);
        assert(detections[p] == a[i] && detections[q] == a[j]);
    }
    sorting_forgets_arrival(a, b, SourceOrder);
}

/// A usable detection is a given one.
proof fn lemma_given(
    page_number: u32,
    detections: Seq<LayoutDetection>,
    page: Bbox,
    role: Role,
    d: LayoutDetection,
)
    requires
        usable_upto(page_number, detections, page, role, detections.len() as int).contains(d),
    ensures
        detections.contains(d),
{
    broadcast use vstd::seq_lib::group_to_multiset_ensures;

    let n = detections.len() as int;
    lemma_usable_count(page_number, detections, page, role, n, d);
    assert(detections.take(n) =~= detections);
}

/// Whether the regions are plain boxes.
pub open spec fn plain(detections: Seq<LayoutDetection>) -> bool {
    forall|k: int| 0 <= k < detections.len() ==> (#[trigger] detections[k]).outline is None
}

/// Usable boxes are plain where all are.
proof fn lemma_plain(
    page_number: u32,
    detections: Seq<LayoutDetection>,
    page: Bbox,
    role: Role,
)
    requires
        plain(detections),
    ensures
        plain(usable(page_number, detections, page, role)),
{
    broadcast use vstd::seq_lib::group_to_multiset_ensures;

    let raw = usable_upto(page_number, detections, page, role, detections.len() as int);
    let s = usable(page_number, detections, page, role);
    sorting_orders_and_keeps(raw, SourceOrder);
    assert forall|k: int| 0 <= k < s.len() implies (#[trigger] s[k]).outline is None by {
        assert(s.contains(s[k]));
        assert(raw.to_multiset().count(s[k]) > 0);
        assert(raw.contains(s[k]));
        lemma_given(page_number, detections, page, role, s[k]);
        assert(detections[detections.index_of(s[k])] == s[k]);
    }
}

/// A page on which one fragment is all there is.
pub open spec fn alone(a: Assignment, f: FragmentModel) -> Assignment {
    Assignment { measures: Seq::empty(), fragments: seq![f], ..a }
}

/// Among plain boxes a fragment is chosen for by itself.
proof fn lemma_alone(a: Assignment, i: int, n: int)
    requires
        plain(a.seeds),
        0 <= i < a.fragments.len(),
        n <= a.seeds.len(),
    ensures
        a.best_upto(i, n) == alone(a, a.fragments[i]).best_upto(0, n),
    decreases n,
{
    if n > 0 {
        lemma_alone(a, i, n - 1);
        let one = alone(a, a.fragments[i]);
        assert(a.seeds[n - 1].outline is None);
        assert(one.fragments[0] == a.fragments[i]);
        assert(a.score(i, n - 1) == one.score(0, n - 1));
    }
}

/// A region owns a fragment as often as it occurs, if it owns it at all.
proof fn lemma_owned_count(a: Assignment, seed: Option<int>, n: int, f: FragmentModel)
    requires
        plain(a.seeds),
        0 <= n <= a.fragments.len(),
    ensures
        a.fragments_upto(seed, n).to_multiset().count(f) == (if alone(a, f).owner(0) == seed {
            a.fragments.take(n).to_multiset().count(f)
        } else {
            0
        }),
    decreases n,
{
    broadcast use vstd::seq_lib::group_to_multiset_ensures;

    if n > 0 {
        lemma_owned_count(a, seed, n - 1, f);
        lemma_alone(a, n - 1, a.seeds.len() as int);
        assert(a.fragments.take(n) =~= a.fragments.take(n - 1).push(a.fragments[n - 1]));
    } else {
        assert(a.fragments.take(0) =~= Seq::<FragmentModel>::empty());
    }
}

/// One owner has the same fragments on two pages with the same ones.
proof fn lemma_same_owned(a: Assignment, b: Assignment, seed: Option<int>)
    requires
        plain(a.seeds),
        a.seeds == b.seeds,
        a.page == b.page,
        a.config == b.config,
        a.fragments.to_multiset() == b.fragments.to_multiset(),
    ensures
        a.fragments_upto(seed, a.fragments.len() as int).to_multiset() == b.fragments_upto(
            seed,
            b.fragments.len() as int,
        ).to_multiset(),
{
    let n = a.fragments.len() as int;
    let m = b.fragments.len() as int;
    assert(a.fragments.take(n) =~= a.fragments);
    assert(b.fragments.take(m) =~= b.fragments);
    let x = a.fragments_upto(seed, n).to_multiset();
    let y = b.fragments_upto(seed, m).to_multiset();
    assert forall|f: FragmentModel| x.count(f) == y.count(f) by {
        lemma_owned_count(a, seed, n, f);
        lemma_owned_count(b, seed, m, f);
        assert(alone(a, f) == alone(b, f));
    }
    assert(x =~= y);
}

/// Every region owns the same fragments, and the same ones are left, in whatever order facts and
/// detections arrive: where regions are plain boxes with a place of their own in the model's
/// answer, and both arrivals attach scripts alike.
pub proof fn ownership_forgets_arrival(
    engine: AssignmentEngine,
    items: Seq<TextItem>,
    others: Seq<TextItem>,
    detections: Seq<LayoutDetection>,
    shuffled: Seq<LayoutDetection>,
    measures: Seq<OutlineMeasures>,
    remeasured: Seq<OutlineMeasures>,
)
    requires
        separate(items, engine.page_bbox).to_multiset() == separate(
            others,
            engine.page_bbox,
        ).to_multiset(),
        detections.to_multiset() == shuffled.to_multiset(),
        distinct_sources(detections),
        plain(detections),
    ensures
        ({
            let a = engine.assignment(items, detections, measures);
            let b = engine.assignment(others, shuffled, remeasured);
            &&& a.seeds == b.seeds
            &&& forall|k: int|
                #![trigger a.seed_fragments(k)]
                a.seed_fragments(k).to_multiset() == b.seed_fragments(k).to_multiset()
            &&& a.residual().to_multiset() == b.residual().to_multiset()
        }),
{
    let a = engine.assignment(items, detections, measures);
    let b = engine.assignment(others, shuffled, remeasured);
    let n = a.fragments.len() as int;
    let m = b.fragments.len() as int;
    usable_detections_forget_arrival(
        engine.page_number,
        detections,
        shuffled,
        engine.page_bbox,
        Role::Body,
    );
    lemma_plain(engine.page_number, detections, engine.page_bbox, Role::Body);
    lemma_same_owned(a, b, None);
    assert forall|k: int|
        #![trigger a.seed_fragments(k)]
        a.seed_fragments(k).to_multiset() == b.seed_fragments(k).to_multiset() by {
        lemma_same_owned(a, b, Some(k));
        sorting_orders_and_keeps(a.fragments_upto(Some(k), n), FragmentOrder::Corner);
        sorting_orders_and_keeps(b.fragments_upto(Some(k), m), FragmentOrder::Corner);
    }
}

} // verus!
