//! What line assembly does with the runs it is given: each is owned once, and
//! the order in which they come does not matter.

use vstd::multiset::Multiset;
use vstd::prelude::*;

use super::assemble::{
    aligned_upto, as_fragments, assembled, band_groups, bands_groups, bands_upto, body_band,
    bridged_pair, flow_upto, groups_fault, groups_upto, orientation_groups, orientations, plain, rejoined,
    right_edge, seen_width, AlignedItem, AlignedOrder,
};
use super::axes::{oblique, TextAxes};
use super::bidi::ItemOrder;
use super::fragment::{
    arranging_keeps_runs, lemma_owned_by_multiset, lemma_owned_remove, lemma_owned_update, owned,
    owned_upto, FragmentModel, FragmentOrder,
};
use super::scripts::{
    all_have_runs, attaching_keeps_runs, attaching_leaves_none_empty, with_scripts,
};
use crate::chars::text_order_is_total;
use crate::config::FusionConfig;
use crate::sorting::{sorted, sorting_forgets_arrival, sorting_orders_and_keeps};
use crate::types::TextItem;

verus! {

/// The values of the first `n` lists, each as often as it occurs.
pub open spec fn flat_upto<T>(lists: Seq<Seq<T>>, n: int) -> Multiset<T>
    decreases n,
{
    if n <= 0 {
        Multiset::empty()
    } else {
        flat_upto(lists, n - 1).add(lists[n - 1].to_multiset())
    }
}

/// The values of all lists, each as often as it occurs.
pub open spec fn flat<T>(lists: Seq<Seq<T>>) -> Multiset<T> {
    flat_upto(lists, lists.len() as int)
}

/// Values up to `n` do not depend on later lists.
proof fn lemma_flat_prefix<T>(a: Seq<Seq<T>>, b: Seq<Seq<T>>, n: int)
    requires
        0 <= n <= a.len(),
        n <= b.len(),
        forall|i: int| 0 <= i < n ==> a[i] == #[trigger] b[i],
    ensures
        flat_upto(a, n) == flat_upto(b, n),
    decreases n,
{
    if n > 0 {
        lemma_flat_prefix(a, b, n - 1);
        assert(a[n - 1] == b[n - 1]);
    }
}

/// One more list brings its own values.
proof fn lemma_flat_push<T>(lists: Seq<Seq<T>>, list: Seq<T>)
    ensures
        flat(lists.push(list)) == flat(lists).add(list.to_multiset()),
{
    lemma_flat_prefix(lists, lists.push(list), lists.len() as int);
}

/// A value added to a list is one value more.
proof fn lemma_flat_grow<T>(lists: Seq<Seq<T>>, at: int, x: T, n: int)
    requires
        0 <= at < n <= lists.len(),
    ensures
        flat_upto(lists.update(at, lists[at].push(x)), n) == flat_upto(lists, n).insert(x),
    decreases n,
{
    broadcast use vstd::seq_lib::group_to_multiset_ensures;

    let next = lists.update(at, lists[at].push(x));
    if at == n - 1 {
        lemma_flat_prefix(lists, next, n - 1);
        assert(flat_upto(next, n) =~= flat_upto(lists, n).insert(x));
    } else {
        lemma_flat_grow(lists, at, x, n - 1);
        assert(next[n - 1] == lists[n - 1]);
        assert(flat_upto(next, n) =~= flat_upto(lists, n).insert(x));
    }
}

/// Two groups of lists bring the values of both.
proof fn lemma_flat_concat<T>(a: Seq<Seq<T>>, b: Seq<Seq<T>>)
    ensures
        flat(a + b) == flat(a).add(flat(b)),
    decreases b.len(),
{
    if b.len() == 0 {
        assert(a + b =~= a);
        assert(flat(a).add(flat(b)) =~= flat(a));
    } else {
        lemma_flat_concat(a, b.drop_last());
        lemma_flat_push(a + b.drop_last(), b.last());
        lemma_flat_push(b.drop_last(), b.last());
        assert((a + b.drop_last()).push(b.last()) =~= a + b);
        assert(b.drop_last().push(b.last()) =~= b);
        assert(flat(a + b) =~= flat(a).add(flat(b)));
    }
}

/// A single value is a list of one.
proof fn lemma_single<T>(x: T)
    ensures
        seq![x].to_multiset() == Multiset::<T>::singleton(x),
{
    broadcast use vstd::seq_lib::group_to_multiset_ensures;

    assert(seq![x] =~= Seq::<T>::empty().push(x));
    assert(seq![x].to_multiset() =~= Multiset::<T>::singleton(x));
}

/// Orientation groups hold exactly the runs.
proof fn lemma_orientations_keep(items: Seq<TextItem>, n: int)
    requires
        0 <= n <= items.len(),
    ensures
        flat(orientations(items, n)) == items.take(n).to_multiset(),
    decreases n,
{
    broadcast use vstd::seq_lib::group_to_multiset_ensures;

    if n > 0 {
        lemma_orientations_keep(items, n - 1);
        let groups = orientations(items, n - 1);
        let item = items[n - 1];
        assert(items.take(n) =~= items.take(n - 1).push(item));
        if groups.len() > 0 {
            lemma_flat_grow(groups, groups.len() - 1, item, groups.len() as int);
        }
        lemma_flat_push(groups, seq![item]);
        lemma_single(item);
        assert(flat(orientations(items, n)) =~= items.take(n).to_multiset());
    } else {
        assert(items.take(0) =~= Seq::<TextItem>::empty());
        assert(flat(orientations(items, 0)) =~= items.take(0).to_multiset());
    }
}

/// The runs of aligned runs, as often as they occur.
pub open spec fn runs_of(group: Seq<AlignedItem>) -> Multiset<TextItem> {
    plain(group).to_multiset()
}

/// Alignment keeps every run.
proof fn lemma_aligned_keeps(items: Seq<TextItem>, n: int, axes: TextAxes)
    requires
        0 <= n <= items.len(),
        aligned_upto(items, n, axes) is Ok,
    ensures
        plain(aligned_upto(items, n, axes)->Ok_0) == items.take(n),
    decreases n,
{
    if n > 0 {
        lemma_aligned_keeps(items, n - 1, axes);
        let before = aligned_upto(items, n - 1, axes)->Ok_0;
        let all = aligned_upto(items, n, axes)->Ok_0;
        assert(plain(all) =~= plain(before).push(items[n - 1]));
        assert(items.take(n) =~= items.take(n - 1).push(items[n - 1]));
    } else {
        assert(plain(aligned_upto(items, 0, axes)->Ok_0) =~= items.take(0));
    }
}

/// Equal collections of aligned runs stand for equal collections of runs.
proof fn lemma_plain_multiset(a: Seq<AlignedItem>, b: Seq<AlignedItem>)
    requires
        a.to_multiset() == b.to_multiset(),
    ensures
        runs_of(a) == runs_of(b),
    decreases a.len(),
{
    broadcast use vstd::seq_lib::group_to_multiset_ensures;

    assert(a.len() == a.to_multiset().len());
    assert(b.len() == b.to_multiset().len());
    if a.len() > 0 {
        let x = a.last();
        assert(a.contains(x));
        assert(b.to_multiset().count(x) > 0);
        assert(b.contains(x));
        let at = b.index_of(x);
        let a2 = a.remove(a.len() - 1);
        let b2 = b.remove(at);
        assert(a2.to_multiset() =~= a.to_multiset().remove(x));
        assert(b2.to_multiset() =~= b.to_multiset().remove(x));
        lemma_plain_multiset(a2, b2);
        assert(plain(a2) =~= plain(a).remove(a.len() - 1));
        assert(plain(b2) =~= plain(b).remove(at));
        assert(plain(a)[a.len() - 1] == x.item);
        assert(plain(b)[at] == x.item);
        assert(plain(a).contains(x.item));
        assert(plain(b).contains(x.item));
        assert(runs_of(a) =~= runs_of(a2).insert(x.item));
        assert(runs_of(b) =~= runs_of(b2).insert(x.item));
    } else {
        assert(a =~= b);
    }
}

/// A band that is found exists.
proof fn lemma_body_band(bands: Seq<Seq<AlignedItem>>, i: int, item: AlignedItem, tolerance: int)
    requires
        0 <= i,
        body_band(bands, i, item, tolerance) is Some,
    ensures
        0 <= body_band(bands, i, item, tolerance)->0 < bands.len(),
    decreases bands.len() - i,
{
    if !super::assemble::same_body(item, bands[i][0], tolerance) {
        lemma_body_band(bands, i + 1, item, tolerance);
    }
}

/// Bands hold exactly the aligned runs.
proof fn lemma_bands_keep(items: Seq<AlignedItem>, n: int, slanted: bool, tolerance: int)
    requires
        0 <= n <= items.len(),
    ensures
        flat(bands_upto(items, n, slanted, tolerance)) == items.take(n).to_multiset(),
    decreases n,
{
    broadcast use vstd::seq_lib::group_to_multiset_ensures;

    if n > 0 {
        lemma_bands_keep(items, n - 1, slanted, tolerance);
        let bands = bands_upto(items, n - 1, slanted, tolerance);
        let item = items[n - 1];
        assert(items.take(n) =~= items.take(n - 1).push(item));
        let home = if !item.vertical && !slanted {
            body_band(bands, 0, item, tolerance)
        } else if bands.len() > 0 && super::assemble::same_band(bands.last(), item) {
            Some(bands.len() - 1)
        } else {
            None
        };
        match home {
            Some(i) => {
                if !item.vertical && !slanted {
                    lemma_body_band(bands, 0, item, tolerance);
                }
                lemma_flat_grow(bands, i, item, bands.len() as int);
            },
            None => {
                lemma_flat_push(bands, seq![item]);
                lemma_single(item);
            },
        }
        assert(flat(bands_upto(items, n, slanted, tolerance)) =~= items.take(n).to_multiset());
    } else {
        assert(items.take(0) =~= Seq::<AlignedItem>::empty());
        assert(flat(bands_upto(items, 0, slanted, tolerance)) =~= items.take(0).to_multiset());
    }
}

/// Fragments along a line hold exactly the runs of the band.
proof fn lemma_flow_keeps(
    band: Seq<AlignedItem>,
    n: int,
    vertical: bool,
    reach: int,
    tolerance: int,
)
    requires
        0 <= n <= band.len(),
    ensures
        flat(flow_upto(band, n, vertical, reach, tolerance)) == band.take(n).to_multiset(),
    decreases n,
{
    broadcast use vstd::seq_lib::group_to_multiset_ensures;

    if n > 0 {
        lemma_flow_keeps(band, n - 1, vertical, reach, tolerance);
        let groups = flow_upto(band, n - 1, vertical, reach, tolerance);
        let item = band[n - 1];
        assert(band.take(n) =~= band.take(n - 1).push(item));
        if groups.len() > 0 {
            lemma_flat_grow(groups, groups.len() - 1, item, groups.len() as int);
        }
        lemma_flat_push(groups, seq![item]);
        lemma_single(item);
        assert(flat(flow_upto(band, n, vertical, reach, tolerance)) =~= band.take(
            n,
        ).to_multiset());
    } else {
        assert(band.take(0) =~= Seq::<AlignedItem>::empty());
        assert(flat(flow_upto(band, 0, vertical, reach, tolerance)) =~= band.take(
            0,
        ).to_multiset());
    }
}

/// Splitting a band keeps its runs.
proof fn lemma_band_groups_keep(band: Seq<AlignedItem>, tolerance: int)
    ensures
        flat(band_groups(band, tolerance)) == band.to_multiset(),
{
    let ordered = sorted(band, AlignedOrder::Along);
    sorting_orders_and_keeps(band, AlignedOrder::Along);
    lemma_flow_keeps(
        ordered,
        ordered.len() as int,
        band[0].vertical,
        super::assemble::band_reach(band, band.len() as int),
        tolerance,
    );
    assert(ordered.take(ordered.len() as int) =~= ordered);
}

/// Splitting bands keeps their runs.
proof fn lemma_bands_groups_keep(bands: Seq<Seq<AlignedItem>>, n: int, tolerance: int)
    requires
        0 <= n <= bands.len(),
    ensures
        flat(bands_groups(bands, n, tolerance)) == flat_upto(bands, n),
    decreases n,
{
    if n > 0 {
        lemma_bands_groups_keep(bands, n - 1, tolerance);
        lemma_band_groups_keep(bands[n - 1], tolerance);
        lemma_flat_concat(
            bands_groups(bands, n - 1, tolerance),
            band_groups(bands[n - 1], tolerance),
        );
    }
}

/// The runs of groups of aligned runs.
pub open spec fn group_runs_upto(groups: Seq<Seq<AlignedItem>>, n: int) -> Multiset<TextItem>
    decreases n,
{
    if n <= 0 {
        Multiset::empty()
    } else {
        group_runs_upto(groups, n - 1).add(runs_of(groups[n - 1]))
    }
}

/// All aligned runs in one list.
spec fn chained(groups: Seq<Seq<AlignedItem>>, n: int) -> Seq<AlignedItem>
    decreases n,
{
    if n <= 0 {
        Seq::empty()
    } else {
        chained(groups, n - 1) + groups[n - 1]
    }
}

/// One list of all aligned runs holds what the groups hold.
proof fn lemma_chained(groups: Seq<Seq<AlignedItem>>, n: int)
    requires
        0 <= n <= groups.len(),
    ensures
        chained(groups, n).to_multiset() == flat_upto(groups, n),
        runs_of(chained(groups, n)) == group_runs_upto(groups, n),
    decreases n,
{
    broadcast use vstd::seq_lib::group_to_multiset_ensures;

    if n > 0 {
        lemma_chained(groups, n - 1);
        let before = chained(groups, n - 1);
        vstd::seq_lib::lemma_multiset_commutative(before, groups[n - 1]);
        assert(plain(before + groups[n - 1]) =~= plain(before) + plain(groups[n - 1]));
        vstd::seq_lib::lemma_multiset_commutative(plain(before), plain(groups[n - 1]));
    } else {
        assert(plain(chained(groups, 0)) =~= Seq::<TextItem>::empty());
        assert(chained(groups, 0).to_multiset() =~= flat_upto(groups, 0));
        assert(runs_of(chained(groups, 0)) =~= group_runs_upto(groups, 0));
    }
}

/// The groups of one orientation hold exactly its runs.
proof fn lemma_orientation_keeps(group: Seq<TextItem>, tolerance: int)
    requires
        orientation_groups(group, tolerance) is Ok,
    ensures
        ({
            let groups = orientation_groups(group, tolerance)->Ok_0;
            group_runs_upto(groups, groups.len() as int) == group.to_multiset()
        }),
{
    let axes = TextAxes { rotation: group[0].rotation };
    let items = aligned_upto(group, group.len() as int, axes)->Ok_0;
    let ordered = sorted(items, AlignedOrder::Across);
    let slanted = oblique(group[0].rotation.angle as int);
    let bands = bands_upto(ordered, ordered.len() as int, slanted, tolerance);
    let groups = bands_groups(bands, bands.len() as int, tolerance);
    lemma_aligned_keeps(group, group.len() as int, axes);
    assert(group.take(group.len() as int) =~= group);
    sorting_orders_and_keeps(items, AlignedOrder::Across);
    lemma_bands_keep(ordered, ordered.len() as int, slanted, tolerance);
    assert(ordered.take(ordered.len() as int) =~= ordered);
    lemma_bands_groups_keep(bands, bands.len() as int, tolerance);
    lemma_chained(groups, groups.len() as int);
    lemma_plain_multiset(chained(groups, groups.len() as int), items);
}

/// Runs of groups up to `n` do not depend on later groups.
proof fn lemma_group_runs_concat(a: Seq<Seq<AlignedItem>>, b: Seq<Seq<AlignedItem>>, n: int)
    requires
        0 <= n <= b.len(),
    ensures
        group_runs_upto(a + b, a.len() + n) == group_runs_upto(a, a.len() as int).add(
            group_runs_upto(b, n),
        ),
    decreases n,
{
    if n > 0 {
        lemma_group_runs_concat(a, b, n - 1);
        assert((a + b)[a.len() + n - 1] == b[n - 1]);
    } else {
        lemma_group_runs_prefix(a, a + b, a.len() as int);
    }
    assert(group_runs_upto(a + b, a.len() + n) =~= group_runs_upto(a, a.len() as int).add(
        group_runs_upto(b, n),
    ));
}

proof fn lemma_group_runs_prefix(a: Seq<Seq<AlignedItem>>, b: Seq<Seq<AlignedItem>>, n: int)
    requires
        0 <= n <= a.len(),
        n <= b.len(),
        forall|i: int| 0 <= i < n ==> a[i] == #[trigger] b[i],
    ensures
        group_runs_upto(a, n) == group_runs_upto(b, n),
    decreases n,
{
    if n > 0 {
        lemma_group_runs_prefix(a, b, n - 1);
        assert(a[n - 1] == b[n - 1]);
    }
}

/// The groups of all orientations hold exactly their runs.
proof fn lemma_groups_keep(turned: Seq<Seq<TextItem>>, n: int, tolerance: int)
    requires
        0 <= n <= turned.len(),
        groups_upto(turned, n, tolerance) is Ok,
    ensures
        ({
            let groups = groups_upto(turned, n, tolerance)->Ok_0;
            group_runs_upto(groups, groups.len() as int) == flat_upto(turned, n)
        }),
    decreases n,
{
    if n > 0 {
        lemma_groups_keep(turned, n - 1, tolerance);
        lemma_orientation_keeps(turned[n - 1], tolerance);
        let before = groups_upto(turned, n - 1, tolerance)->Ok_0;
        let here = orientation_groups(turned[n - 1], tolerance)->Ok_0;
        lemma_group_runs_concat(before, here, here.len() as int);
    }
}

/// Fragments made of groups own the runs of the groups.
proof fn lemma_fragments_own(groups: Seq<Seq<AlignedItem>>, n: int, page_width: int)
    requires
        0 <= n <= groups.len(),
    ensures
        owned_upto(as_fragments(groups, page_width), n) == group_runs_upto(groups, n),
    decreases n,
{
    if n > 0 {
        lemma_fragments_own(groups, n - 1, page_width);
        arranging_keeps_runs(plain(groups[n - 1]));
    }
}

/// Rejoining body lines keeps every run.
proof fn lemma_rejoined_keeps(fs: Seq<FragmentModel>, tolerance: int, page_width: int)
    ensures
        owned(rejoined(fs, tolerance, page_width)) == owned(fs),
    decreases fs.len(),
{
    match bridged_pair(fs, 0, tolerance) {
        Some((left, right)) => if 0 <= left < right < fs.len() {
            let run = super::assemble::bridged(fs[left], fs[right], page_width);
            let less = fs.remove(right);
            let next = less.update(left, run);
            vstd::seq_lib::lemma_multiset_commutative(fs[left].items, fs[right].items);
            vstd::seq_lib::lemma_multiset_commutative(fs[right].items, fs[left].items);
            lemma_owned_remove(fs, right);
            lemma_owned_update(less, left, run);
            assert(less[left] == fs[left]);
            assert(run.items.to_multiset() =~= fs[left].items.to_multiset().add(
                fs[right].items.to_multiset(),
            ));
            assert(owned(next) =~= owned(fs)) by {
                assert forall|x: TextItem| owned(next).count(x) == owned(fs).count(x) by {
                    assert(owned(next).add(fs[left].items.to_multiset()).count(x) == owned(
                        less,
                    ).add(run.items.to_multiset()).count(x));
                }
            }
            lemma_rejoined_keeps(next, tolerance, page_width);
        },
        None => {},
    }
}

/// Every run given to line assembly is owned by exactly one fragment, and
/// nothing else is.
pub proof fn assembly_keeps_runs(items: Seq<TextItem>, config: FusionConfig)
    requires
        assembled(items, config) is Ok,
    ensures
        owned(assembled(items, config)->Ok_0) == items.to_multiset(),
{
    reveal(assembled);
    let page_width = seen_width(items);
    let tolerance = config.size_tolerance();
    let by_angle = sorted(items, ItemOrder::Angle);
    let turned = orientations(by_angle, by_angle.len() as int);
    let groups = groups_upto(turned, turned.len() as int, tolerance)->Ok_0;
    let fragments = as_fragments(groups, page_width);
    let attached = with_scripts(fragments, page_width);
    let whole = rejoined(attached, tolerance, page_width);
    sorting_orders_and_keeps(items, ItemOrder::Angle);
    lemma_orientations_keep(by_angle, by_angle.len() as int);
    assert(by_angle.take(by_angle.len() as int) =~= by_angle);
    lemma_groups_keep(turned, turned.len() as int, tolerance);
    lemma_fragments_own(groups, groups.len() as int, page_width);
    attaching_keeps_runs(fragments, page_width);
    lemma_rejoined_keeps(attached, tolerance, page_width);
    sorting_orders_and_keeps(whole, FragmentOrder::Page);
    lemma_owned_by_multiset(sorted(whole, FragmentOrder::Page), whole);
}

/// Groups that make fragments hold runs, and so do the fragments.
proof fn lemma_fragments_filled(groups: Seq<Seq<AlignedItem>>, n: int, page_width: int)
    requires
        0 <= n <= groups.len(),
        groups_fault(groups, n) is None,
    ensures
        forall|i: int|
            0 <= i < n ==> (#[trigger] as_fragments(groups, page_width)[i]).items.len() > 0,
    decreases n,
{
    if n > 0 {
        lemma_fragments_filled(groups, n - 1, page_width);
    }
}

/// Rejoining body lines leaves no fragment empty.
proof fn lemma_rejoined_filled(fs: Seq<FragmentModel>, tolerance: int, page_width: int)
    requires
        all_have_runs(fs),
    ensures
        all_have_runs(rejoined(fs, tolerance, page_width)),
    decreases fs.len(),
{
    match bridged_pair(fs, 0, tolerance) {
        Some((left, right)) => if 0 <= left < right < fs.len() {
            let run = super::assemble::bridged(fs[left], fs[right], page_width);
            let next = fs.remove(right).update(left, run);
            assert forall|i: int| 0 <= i < next.len() implies (#[trigger] next[i]).items.len()
                > 0 by {
                assert(fs[left].items.len() > 0);
                if i != left {
                    assert(next[i] == fs.remove(right)[i]);
                    let k = if i < right {
                        i
                    } else {
                        i + 1
                    };
                    assert(next[i] == fs[k]);
                }
            }
            lemma_rejoined_filled(next, tolerance, page_width);
        },
        None => {},
    }
}

/// No assembled fragment is empty.
pub proof fn assembly_leaves_none_empty(items: Seq<TextItem>, config: FusionConfig)
    requires
        assembled(items, config) is Ok,
    ensures
        all_have_runs(assembled(items, config)->Ok_0),
{
    broadcast use vstd::seq_lib::group_to_multiset_ensures;

    reveal(assembled);
    let page_width = seen_width(items);
    let tolerance = config.size_tolerance();
    let by_angle = sorted(items, ItemOrder::Angle);
    let turned = orientations(by_angle, by_angle.len() as int);
    let groups = groups_upto(turned, turned.len() as int, tolerance)->Ok_0;
    let fragments = as_fragments(groups, page_width);
    let attached = with_scripts(fragments, page_width);
    let whole = rejoined(attached, tolerance, page_width);
    lemma_fragments_filled(groups, groups.len() as int, page_width);
    attaching_leaves_none_empty(fragments, page_width);
    lemma_rejoined_filled(attached, tolerance, page_width);
    sorting_orders_and_keeps(whole, FragmentOrder::Page);
    let lines = sorted(whole, FragmentOrder::Page);
    assert forall|i: int| 0 <= i < lines.len() implies (#[trigger] lines[i]).items.len() > 0 by {
        assert(lines.contains(lines[i]));
        assert(whole.to_multiset().count(lines[i]) > 0);
        assert(whole.contains(lines[i]));
        let k = whole.index_of(lines[i]);
        assert(whole[k].items.len() > 0);
    }
}

/// The right edge is that of some run, or zero, and none lies beyond it.
proof fn lemma_right_edge(items: Seq<TextItem>, n: int)
    requires
        0 <= n <= items.len(),
    ensures
        right_edge(items, n) >= 0,
        forall|i: int| 0 <= i < n ==> (#[trigger] items[i]).bbox.right <= right_edge(items, n),
        right_edge(items, n) == 0 || exists|i: int|
            0 <= i < n && (#[trigger] items[i]).bbox.right == right_edge(items, n),
    decreases n,
{
    if n > 0 {
        lemma_right_edge(items, n - 1);
        if right_edge(items, n) == items[n - 1].bbox.right {
        } else if right_edge(items, n - 1) != 0 {
            let i = choose|i: int|
                0 <= i < n - 1 && (#[trigger] items[i]).bbox.right == right_edge(items, n - 1);
            assert(items[i].bbox.right == right_edge(items, n));
        }
    }
}

/// The right edge does not depend on the order of the runs.
proof fn lemma_right_edge_forgets(a: Seq<TextItem>, b: Seq<TextItem>)
    requires
        a.to_multiset() == b.to_multiset(),
    ensures
        right_edge(a, a.len() as int) <= right_edge(b, b.len() as int),
{
    broadcast use vstd::seq_lib::group_to_multiset_ensures;

    lemma_right_edge(a, a.len() as int);
    lemma_right_edge(b, b.len() as int);
    if right_edge(a, a.len() as int) != 0 {
        let i = choose|i: int|
            0 <= i < a.len() && (#[trigger] a[i]).bbox.right == right_edge(a, a.len() as int);
        assert(a.contains(a[i]));
        assert(b.to_multiset().count(a[i]) > 0);
        assert(b.contains(a[i]));
        let j = b.index_of(a[i]);
        assert(b[j].bbox.right <= right_edge(b, b.len() as int));
    }
}

/// Whether two runs with one identity are always equal.
pub open spec fn ids_tell_apart(items: Seq<TextItem>) -> bool {
    forall|i: int, j: int|
        #![trigger items[i], items[j]]
        0 <= i < items.len() && 0 <= j < items.len() && items[i].id@ == items[j].id@ ==> items[i]
            == items[j]
}

/// Line assembly does not depend on the order in which the runs come.
pub proof fn assembly_forgets_arrival(a: Seq<TextItem>, b: Seq<TextItem>, config: FusionConfig)
    requires
        a.to_multiset() == b.to_multiset(),
        ids_tell_apart(a),
    ensures
        assembled(a, config) == assembled(b, config),
{
    reveal(assembled);
    assert forall|i: int, j: int|
        #![trigger a[i], a[j]]
        0 <= i < a.len() && 0 <= j < a.len() && a[i] != a[j] implies crate::sorting::Order::lt(
        &ItemOrder::Angle,
        a[i],
        a[j],
    ) || crate::sorting::Order::lt(&ItemOrder::Angle, a[j], a[i]) by {
        text_order_is_total(a[i].id@, a[j].id@);
    }
    sorting_forgets_arrival(a, b, ItemOrder::Angle);
    lemma_right_edge_forgets(a, b);
    lemma_right_edge_forgets(b, a);
}

} // verus!
