//! What inline atoms take in, and the orders in which fragments and runs are read.

use vstd::prelude::*;

use super::axes::oblique;
use super::bidi::ItemOrder;
use super::formula::{formula_of, formula_runs, region_for, FormulaRegion};
use super::fraction::{
    axis_of, bar_side, fraction_atom, fraction_parts, in_power, left_over, side_of, side_runs,
    with_bar, Axis, Bar,
};
use super::fragment::{FragmentModel, FragmentOrder};
use super::inline::{
    absorbing, is_operator, limbs, limit_owner, limit_side, takes_limits, InlineModel,
};
use super::scripts::owner_of;
use crate::chars::text_before;
use crate::sorting::{sorted, sorting_holds_the_same, sorting_orders_and_keeps, Order};
use crate::types::{TextItem, WritingDirection};

verus! {

proof fn lemma_push<T>(s: Seq<T>, x: T, r: T)
    ensures
        s.push(x).contains(r) <==> s.contains(r) || x == r,
{
    let t = s.push(x);
    if s.contains(r) {
        assert(t[s.index_of(r)] == r);
    }
    if x == r {
        assert(t[s.len() as int] == r);
    }
    if t.contains(r) {
        let i = t.index_of(r);
        if i < s.len() {
            assert(s[i] == r);
        }
    }
}

proof fn lemma_limit_side(m: InlineModel, op: int, above: bool, n: int, x: TextItem)
    requires
        0 <= n <= m.items.len(),
    ensures
        limit_side(m, op, above, n).contains(x) <==> exists|i: int|
            0 <= i < n && limit_owner(m, i) == Some((op, above)) && #[trigger] m.items[i] == x,
    decreases n,
{
    if n > 0 {
        lemma_limit_side(m, op, above, n - 1, x);
        if limit_owner(m, n - 1) == Some((op, above)) {
            lemma_push(limit_side(m, op, above, n - 1), m.items[n - 1], x);
            if m.items[n - 1] == x {
                assert(m.items[n - 1] == x);
            }
        }
    }
}

/// An operator takes its limits only where it has one above and one below.
pub proof fn operators_take_limits_on_both_sides(m: InlineModel, op: int)
    requires
        takes_limits(m, op),
    ensures
        is_operator(m, op),
        exists|i: int| 0 <= i < m.items.len() && #[trigger] limit_owner(m, i) == Some((op, true)),
        exists|i: int| 0 <= i < m.items.len() && #[trigger] limit_owner(m, i) == Some((op, false)),
{
    let n = m.items.len() as int;
    let upper = limit_side(m, op, true, n);
    let lower = limit_side(m, op, false, n);
    lemma_limit_side(m, op, true, n, upper[0]);
    lemma_limit_side(m, op, false, n, lower[0]);
    assert(upper.contains(upper[0]));
    assert(lower.contains(lower[0]));
    let i = choose|i: int|
        0 <= i < n && limit_owner(m, i) == Some((op, true)) && #[trigger] m.items[i] == upper[0];
    let j = choose|i: int|
        0 <= i < n && limit_owner(m, i) == Some((op, false)) && #[trigger] m.items[i] == lower[0];
    assert(limit_owner(m, i) == Some((op, true)));
    assert(limit_owner(m, j) == Some((op, false)));
}

/// Whether a run is a limit of an operator, above it or below.
pub open spec fn limits(m: InlineModel, op: int, above: bool, x: TextItem) -> bool {
    exists|i: int|
        0 <= i < m.items.len() && limit_owner(m, i) == Some((op, above)) && #[trigger] m.items[i]
            == x
}

/// The limits of an operator are read below first and then above, on either side from the left.
pub proof fn limits_are_read_from_below(m: InlineModel, op: int)
    ensures
        ({
            let all = limbs(m, op);
            let low = limit_side(m, op, false, m.items.len() as int).len() as int;
            &&& forall|k: int| 0 <= k < low ==> limits(m, op, false, #[trigger] all[k])
            &&& forall|k: int| low <= k < all.len() ==> limits(m, op, true, #[trigger] all[k])
            &&& forall|a: int, b: int|
                0 <= a < b < low || low <= a < b < all.len() ==> (#[trigger] all[a]).bbox.left <= (
                #[trigger] all[b]).bbox.left
        }),
{
    let n = m.items.len() as int;
    let lower = limit_side(m, op, false, n);
    let upper = limit_side(m, op, true, n);
    let ls = sorted(lower, ItemOrder::Rightwards);
    let us = sorted(upper, ItemOrder::Rightwards);
    let all = limbs(m, op);
    sorting_orders_and_keeps(lower, ItemOrder::Rightwards);
    sorting_orders_and_keeps(upper, ItemOrder::Rightwards);
    let low = lower.len() as int;
    assert forall|k: int| 0 <= k < low implies limits(m, op, false, #[trigger] all[k]) by {
        assert(all[k] == ls[k]);
        assert(ls.contains(ls[k]));
        sorting_holds_the_same(lower, ItemOrder::Rightwards, ls[k]);
        lemma_limit_side(m, op, false, n, ls[k]);
    }
    assert forall|k: int| low <= k < all.len() implies limits(m, op, true, #[trigger] all[k]) by {
        assert(all[k] == us[k - low]);
        assert(us.contains(us[k - low]));
        sorting_holds_the_same(upper, ItemOrder::Rightwards, us[k - low]);
        lemma_limit_side(m, op, true, n, us[k - low]);
    }
    assert forall|a: int, b: int| 0 <= a < b < low || low <= a < b < all.len() implies (
    #[trigger] all[a]).bbox.left <= (#[trigger] all[b]).bbox.left by {
        if b < low {
            assert(!ItemOrder::Rightwards.lt(ls[b], ls[a]));
        } else {
            assert(!ItemOrder::Rightwards.lt(us[b - low], us[a - low]));
        }
    }
}

/// A run that takes in parts shows its own text and then theirs, in their order, in a box around
/// all of them; its identity and its baseline stay.
pub proof fn atoms_show_their_parts_in_turn(item: TextItem, parts: Seq<TextItem>, n: int)
    requires
        0 <= n < parts.len(),
    ensures
        absorbing(item, parts, 0) == item,
        absorbing(item, parts, n + 1).raw_text@ == absorbing(item, parts, n).raw_text@
            + parts[n].raw_text@,
        absorbing(item, parts, n + 1).id == item.id,
        absorbing(item, parts, n + 1).baseline == item.baseline,
        ({
            let (a, b) = (absorbing(item, parts, n).bbox, parts[n].bbox);
            let c = absorbing(item, parts, n + 1).bbox;
            &&& c.left <= a.left && c.left <= b.left && (c.left == a.left || c.left == b.left)
            &&& c.top <= a.top && c.top <= b.top && (c.top == a.top || c.top == b.top)
            &&& c.right >= a.right && c.right >= b.right && (c.right == a.right || c.right
                == b.right)
            &&& c.bottom >= a.bottom && c.bottom >= b.bottom && (c.bottom == a.bottom || c.bottom
                == b.bottom)
        }),
    decreases n,
{
    if n > 0 {
        atoms_show_their_parts_in_turn(item, parts, n - 1);
    }
}

proof fn lemma_side(items: Seq<TextItem>, bar: Bar, above: bool, n: int, x: TextItem)
    requires
        0 <= n <= items.len(),
    ensures
        bar_side(items, bar, above, n).contains(x) <==> side_of(x, bar) == Some(above) && exists|
            i: int,
        | 0 <= i < n && #[trigger] items[i] == x,
    decreases n,
{
    if n > 0 {
        lemma_side(items, bar, above, n - 1, x);
        if side_of(items[n - 1], bar) == Some(above) {
            lemma_push(bar_side(items, bar, above, n - 1), items[n - 1], x);
        }
        if items[n - 1] == x {
            assert(items[n - 1] == x);
        }
    }
}

/// Runs that stand on one side of a bar alone, or on neither, make no fraction: nothing changes.
pub proof fn fractions_need_both_sides(m: InlineModel, bar: Bar, confirmed: bool, above: bool)
    requires
        forall|i: int|
            0 <= i < m.items.len() ==> side_of(#[trigger] m.items[i], bar) != Some(above),
    ensures
        with_bar(m, bar, confirmed) == m,
{
    reveal(with_bar);
    let n = m.items.len() as int;
    let side = bar_side(m.items, bar, above, n);
    if side.len() > 0 {
        lemma_side(m.items, bar, above, n, side[0]);
        assert(side.contains(side[0]));
        let i = choose|i: int| 0 <= i < n && #[trigger] m.items[i] == side[0];
        assert(side_of(m.items[i], bar) == Some(above));
    }
}

/// A fraction is read over its bar first, then under it, then its power; its atom comes last and
/// sits on its axis, with the size of the axis.
pub proof fn fractions_are_read_from_the_top(m: InlineModel, bar: Bar, axis: Axis, confirmed: bool)
    requires
        axis_of(m.items, bar, confirmed) == Some(axis),
        exists|i: int|
            0 <= i < m.items.len() && #[trigger] side_of(m.items[i], bar) == Some(true),
        exists|i: int|
            0 <= i < m.items.len() && #[trigger] side_of(m.items[i], bar) == Some(false),
        fraction_parts(m.items, bar, axis, confirmed).0.len() > 0,
    ensures
        ({
            let n = m.items.len() as int;
            let parts = fraction_parts(m.items, bar, axis, confirmed).0;
            let over = side_runs(
                bar_side(m.items, bar, true, n),
                super::fraction::bar_page(bar),
            );
            let under = side_runs(
                bar_side(m.items, bar, false, n),
                super::fraction::bar_page(bar),
            );
            let after = with_bar(m, bar, confirmed).items;
            &&& parts.len() >= over.len() + under.len()
            &&& parts.take(over.len() as int) == over
            &&& parts.subrange(over.len() as int, (over.len() + under.len()) as int) == under
            &&& !confirmed ==> parts.len() == over.len() + under.len()
            &&& after.len() > 0
            &&& after.last() == fraction_atom(parts, axis)
            &&& after.last().baseline is Some && after.last().baseline->0.start.y
                == axis.baseline && after.last().baseline->0.end.y == axis.baseline
            &&& after.last().id == parts[0].id
        }),
{
    reveal(with_bar);
    let n = m.items.len() as int;
    let a = choose|i: int|
        0 <= i < m.items.len() && #[trigger] side_of(m.items[i], bar) == Some(true);
    let b = choose|i: int|
        0 <= i < m.items.len() && #[trigger] side_of(m.items[i], bar) == Some(false);
    lemma_side(m.items, bar, true, n, m.items[a]);
    lemma_side(m.items, bar, false, n, m.items[b]);
    let over = side_runs(bar_side(m.items, bar, true, n), super::fraction::bar_page(bar));
    let under = side_runs(bar_side(m.items, bar, false, n), super::fraction::bar_page(bar));
    let (parts, power) = fraction_parts(m.items, bar, axis, confirmed);
    assert(parts =~= over + under + power);
    assert(parts.take(over.len() as int) =~= over);
    assert(parts.subrange(over.len() as int, (over.len() + under.len()) as int) =~= under);
    assert(bar_side(m.items, bar, true, n).contains(m.items[a]));
    assert(bar_side(m.items, bar, false, n).contains(m.items[b]));
    if parts.len() > 1 {
        atoms_show_their_parts_in_turn(parts[0], parts.skip(1), parts.len() - 2);
    }
}

/// What does not become part of a fraction stays in front of it: the runs on neither side that
/// are not its power.
pub proof fn other_runs_stay(items: Seq<TextItem>, bar: Bar, power: Seq<TextItem>, n: int, i: int)
    requires
        0 <= i < n <= items.len(),
    ensures
        side_of(items[i], bar) is None && !in_power(items, power, i) ==> left_over(
            items,
            bar,
            power,
            n,
        ).contains(items[i]),
        forall|x: TextItem|
            #[trigger] left_over(items, bar, power, n).contains(x) ==> side_of(x, bar) is None
                && exists|k: int|
                0 <= k < n && !in_power(items, power, k) && #[trigger] items[k] == x,
    decreases n,
{
    let before = left_over(items, bar, power, n - 1);
    let after = left_over(items, bar, power, n);
    let stays = side_of(items[n - 1], bar) is None && !in_power(items, power, n - 1);
    if n > 1 {
        other_runs_stay(items, bar, power, n - 1, if i < n - 1 {
            i
        } else {
            0
        });
    }
    assert forall|x: TextItem| #[trigger] after.contains(x) implies side_of(x, bar) is None
        && exists|k: int|
        0 <= k < n && !in_power(items, power, k) && #[trigger] items[k] == x by {
        if stays {
            lemma_push(before, items[n - 1], x);
        }
        if before.contains(x) {
            let k = choose|k: int|
                0 <= k < n - 1 && !in_power(items, power, k) && #[trigger] items[k] == x;
            assert(items[k] == x);
        } else {
            assert(items[n - 1] == x);
        }
    }
    if stays {
        lemma_push(before, items[n - 1], items[i]);
    }
}

/// A fragment belongs to the formula of its first run, else to that of the fragment it hangs on,
/// else to none.
pub proof fn scripts_belong_to_the_formula_of_their_parent(
    fs: Seq<FragmentModel>,
    regions: Seq<FormulaRegion>,
    i: int,
)
    ensures
        fs[i].items.len() > 0 && region_for(fs[i].items[0], regions) is Some ==> formula_of(
            fs,
            regions,
            i,
        ) == region_for(fs[i].items[0], regions),
        fs[i].items.len() > 0 && region_for(fs[i].items[0], regions) is None && owner_of(
            fs,
            i,
        ) is None ==> formula_of(fs, regions, i) is None,
        fs[i].items.len() > 0 && region_for(fs[i].items[0], regions) is None && (owner_of(
            fs,
            i,
        ) matches Some(p) && fs[p].metrics.font_size > fs[i].metrics.font_size) ==> formula_of(
            fs,
            regions,
            i,
        ) == formula_of(fs, regions, owner_of(fs, i)->0),
{
}

/// The runs of a formula are those of the fragments that belong to it, and no others.
pub proof fn formulas_take_the_runs_of_their_fragments(
    fs: Seq<FragmentModel>,
    regions: Seq<FormulaRegion>,
    owner: Option<int>,
    n: int,
    x: TextItem,
)
    requires
        0 <= n <= fs.len(),
    ensures
        formula_runs(fs, regions, owner, n).contains(x) <==> exists|i: int|
            0 <= i < n && formula_of(fs, regions, i) == owner && (
            #[trigger] fs[i]).items.contains(x),
    decreases n,
{
    if n > 0 {
        formulas_take_the_runs_of_their_fragments(fs, regions, owner, n - 1, x);
        let before = formula_runs(fs, regions, owner, n - 1);
        let all = formula_runs(fs, regions, owner, n);
        let here = fs[n - 1].items;
        if formula_of(fs, regions, n - 1) == owner {
            assert(all == before + here);
            if before.contains(x) {
                assert(all[before.index_of(x)] == x);
            }
            if here.contains(x) {
                assert(all[before.len() + here.index_of(x)] == x);
                assert(fs[n - 1].items.contains(x));
            }
            if all.contains(x) {
                let k = all.index_of(x);
                if k < before.len() {
                    assert(before[k] == x);
                } else {
                    assert(here[k - before.len()] == x);
                }
            }
        }
    }
}

/// Fragments of a page come by their angle, then by their height, then from the left: text along
/// an axis that states a baseline by that, any other by its upper edge.
pub proof fn page_fragments_come_from_the_top(fs: Seq<FragmentModel>, a: int, b: int)
    requires
        0 <= a < b < fs.len(),
    ensures
        ({
            let s = sorted(fs, FragmentOrder::Page);
            let (f, g) = (s[a], s[b]);
            let (y, z) = (height_of(f), height_of(g));
            &&& f.rotation.angle <= g.rotation.angle
            &&& f.rotation.angle == g.rotation.angle ==> y <= z
            &&& f.rotation.angle == g.rotation.angle && y == z ==> f.bbox.left <= g.bbox.left
            &&& f.rotation.angle == g.rotation.angle && y == z && f.bbox.left == g.bbox.left
                && f.items.len() > 0 && g.items.len() > 0 ==> !text_before(
                g.items[0].id@,
                f.items[0].id@,
            )
        }),
{
    let s = sorted(fs, FragmentOrder::Page);
    sorting_orders_and_keeps(fs, FragmentOrder::Page);
    assert(!FragmentOrder::Page.lt(s[b], s[a]));
    assert forall|f: FragmentModel| super::fragment::reading_y(f) == #[trigger] height_of(f) by {}
    assert(super::fragment::reading_y(s[a]) == height_of(s[a]));
    assert(super::fragment::reading_y(s[b]) == height_of(s[b]));
}

/// The height of a fragment on the page.
pub open spec fn height_of(f: FragmentModel) -> int {
    let measured = exists|i: int|
        0 <= i < f.items.len() && (#[trigger] f.items[i]).baseline is Some;
    if f.direction == WritingDirection::Vertical || oblique(f.rotation.angle as int) || !measured {
        f.bbox.top as int
    } else {
        f.baseline.start.y as int
    }
}

/// The fragments of a region come from its upper left corner: by upper edge, then by left one.
pub proof fn region_fragments_come_from_the_corner(fs: Seq<FragmentModel>, a: int, b: int)
    requires
        0 <= a < b < fs.len(),
    ensures
        ({
            let s = sorted(fs, FragmentOrder::Corner);
            let (f, g) = (s[a], s[b]);
            &&& f.bbox.top <= g.bbox.top
            &&& f.bbox.top == g.bbox.top ==> f.bbox.left <= g.bbox.left
            &&& f.bbox.top == g.bbox.top && f.bbox.left == g.bbox.left && f.items.len() > 0
                && g.items.len() > 0 ==> !text_before(g.items[0].id@, f.items[0].id@)
        }),
{
    sorting_orders_and_keeps(fs, FragmentOrder::Corner);
    let s = sorted(fs, FragmentOrder::Corner);
    assert(!FragmentOrder::Corner.lt(s[b], s[a]));
}

/// The sides of a fraction are read from the left, and from the right in text from the right.
pub proof fn sides_are_read_in_their_direction(fs: Seq<FragmentModel>, a: int, b: int)
    requires
        0 <= a < b < fs.len(),
    ensures
        sorted(fs, FragmentOrder::Rightwards)[a].bbox.left <= sorted(
            fs,
            FragmentOrder::Rightwards,
        )[b].bbox.left,
        sorted(fs, FragmentOrder::Leftwards)[a].bbox.right >= sorted(
            fs,
            FragmentOrder::Leftwards,
        )[b].bbox.right,
{
    sorting_orders_and_keeps(fs, FragmentOrder::Rightwards);
    sorting_orders_and_keeps(fs, FragmentOrder::Leftwards);
    let r = sorted(fs, FragmentOrder::Rightwards);
    let l = sorted(fs, FragmentOrder::Leftwards);
    assert(!FragmentOrder::Rightwards.lt(r[b], r[a]));
    assert(!FragmentOrder::Leftwards.lt(l[b], l[a]));
}

} // verus!
