//! Which runs belong to formulas, fractions and operators.

use vstd::prelude::*;

use super::assembly_laws::apart;
use super::axes::level;
use super::formula::{
    prose_line, prose_line_upto, region_for, region_of, region_upto, row_atom, well_covered,
    FormulaRegion,
};
use super::fraction::{
    axis_from, axis_of, axis_upto, bar_size, bars_of, bars_upto, is_power, side_of, Axis, Bar,
    BarOrder,
};
use super::fragment::{runs_ink, FragmentModel};
use super::inline::{
    attested, best_line, contested, hang_line, hangs, hung, is_operator, left_most, limit_of,
    limit_owner, limit_upto, right_most, too_loose, InlineModel,
};
use super::script_laws::{lemma_below, lemma_well_below};
use crate::chars::trim_of;
use crate::geometry::Bbox;
use crate::layout::LayoutDetection;
use crate::ocr::plan_laws::common_area;
use crate::sorting::{sorting_orders_and_keeps, Order};
use crate::types::{TableRule, TextItem};

verus! {

/// A detection bounds a formula where it is one, inline or displayed, of one of twenty-five
/// classes, with a probability and a box that has an extent.
pub proof fn formula_detections_bound_formulas(d: LayoutDetection)
    ensures
        region_of(d) is Some <==> (d.label is InlineFormula || d.label is DisplayFormula) && 0
            <= d.class_id < 25 && 0 <= d.confidence <= 1_000_000 && d.bbox.left < d.bbox.right
            && d.bbox.top < d.bbox.bottom,
        region_of(d) is Some ==> region_of(d)->0.bbox == d.bbox && (region_of(d)->0.inline
            <==> d.label is InlineFormula),
{
}

/// Whether a formula holds a run: four fifths of the run lie in it, or its middle does, and half
/// of a single character or no edge is more than two points outside.
pub open spec fn holds_run(t: Bbox, characters: int, b: Bbox) -> bool {
    let area = (t.right - t.left) * (t.bottom - t.top);
    ||| area > 0 && 5 * common_area(b, t) >= 4 * area
    ||| 2 * b.left <= t.left + t.right && t.left + t.right <= 2 * b.right && 2 * b.top <= t.top
        + t.bottom && t.top + t.bottom <= 2 * b.bottom && (characters == 1 && area > 0 && 2
        * common_area(b, t) >= area || (b.left - t.left <= 20_000 && b.top - t.top <= 20_000
        && t.right - b.right <= 20_000 && t.bottom - b.bottom <= 20_000))
}

proof fn lemma_holds(item: TextItem, region: FormulaRegion)
    ensures
        well_covered(item, region) <==> holds_run(
            item.bbox,
            trim_of(item.raw_text@).len() as int,
            region.bbox,
        ),
{
    let (b, t) = (region.bbox, item.bbox);
    assert(b.shared_area(t) == common_area(b, t)) by (nonlinear_arith)
        requires
            b.shared_area(t) == vstd::math::max(b.overlap_x(t), 0) * vstd::math::max(
                b.overlap_y(t),
                0,
            ),
    {
    }
    assert(t.size() == (t.right - t.left) * (t.bottom - t.top));
}

/// The area of a box.
pub open spec fn extent(b: Bbox) -> int {
    (b.right - b.left) * (b.bottom - b.top)
}

/// Whether a region comes no later than another: the smaller first, then the inline one, then
/// the higher, then the one further left.
pub open spec fn no_later(a: FormulaRegion, b: FormulaRegion) -> bool {
    &&& extent(a.bbox) <= extent(b.bbox)
    &&& extent(a.bbox) == extent(b.bbox) ==> (b.inline ==> a.inline) && (a.inline == b.inline
        ==> a.bbox.top <= b.bbox.top && (a.bbox.top == b.bbox.top ==> a.bbox.left <= b.bbox.left))
}

proof fn lemma_region(item: TextItem, regions: Seq<FormulaRegion>, n: int)
    requires
        0 <= n <= regions.len(),
    ensures
        match region_upto(item, regions, n) {
            None => forall|i: int| 0 <= i < n ==> !well_covered(item, #[trigger] regions[i]),
            Some(best) => 0 <= best < n && well_covered(item, regions[best]) && forall|i: int|
                0 <= i < n && well_covered(item, #[trigger] regions[i]) ==> no_later(
                    regions[best],
                    regions[i],
                ),
        },
    decreases n,
{
    if n > 0 {
        lemma_region(item, regions, n - 1);
        assert forall|b: FormulaRegion| (#[trigger] b.bbox.size()) == extent(b.bbox) by {}
        assert(regions[n - 1].bbox.size() == extent(regions[n - 1].bbox));
        if let Some(best) = region_upto(item, regions, n - 1) {
            assert(regions[best].bbox.size() == extent(regions[best].bbox));
        }
    }
}

/// A run belongs to the first of the formulas that hold it, and to none where none does.
pub proof fn runs_belong_to_their_smallest_formula(item: TextItem, regions: Seq<FormulaRegion>)
    ensures
        match region_for(item, regions) {
            None => forall|i: int|
                0 <= i < regions.len() ==> !holds_run(
                    item.bbox,
                    trim_of(item.raw_text@).len() as int,
                    (#[trigger] regions[i]).bbox,
                ),
            Some(best) => {
                &&& 0 <= best < regions.len()
                &&& holds_run(
                    item.bbox,
                    trim_of(item.raw_text@).len() as int,
                    regions[best].bbox,
                )
                &&& forall|i: int|
                    0 <= i < regions.len() && holds_run(
                        item.bbox,
                        trim_of(item.raw_text@).len() as int,
                        (#[trigger] regions[i]).bbox,
                    ) ==> no_later(regions[best], regions[i])
            },
        },
{
    lemma_region(item, regions, regions.len() as int);
    assert forall|i: int| 0 <= i < regions.len() implies (well_covered(
        item,
        #[trigger] regions[i],
    ) <==> holds_run(item.bbox, trim_of(item.raw_text@).len() as int, regions[i].bbox)) by {
        lemma_holds(item, regions[i]);
    }
}

/// Whether a run is a single character that hangs from its line: level, with a size, reaching
/// more than half of it below the line, which is no lower than its middle.
pub open spec fn hangs_from_its_line(item: TextItem) -> bool {
    item.style is Some && item.style->0.font_size is Some && item.baseline is Some && {
        let size = item.style->0.font_size->0 as int;
        let y = item.baseline->0.start.y as int;
        &&& size > 0
        &&& trim_of(item.raw_text@).len() == 1
        &&& 2 * item.bbox.bottom - 2 * y > size
        &&& 2 * y <= item.bbox.top + item.bbox.bottom
        &&& level(item.rotation.angle as int)
    }
}

/// Whether a neighbour lends its line to a hanging character: it does not hang itself, is within
/// a tenth as large, shares half the lower height, is at most three sizes away and parallel.
pub open spec fn lends_line(item: TextItem, by: TextItem) -> bool {
    !hangs_from_its_line(by) && item.style is Some && item.style->0.font_size is Some
        && by.style is Some && by.style->0.font_size is Some && by.baseline is Some && {
        let size = item.style->0.font_size->0 as int;
        let other = by.style->0.font_size->0 as int;
        let (a, b) = (item.bbox, by.bbox);
        let low = if a.top > b.top {
            a.top
        } else {
            b.top
        };
        let high = if a.bottom < b.bottom {
            a.bottom
        } else {
            b.bottom
        };
        &&& 9 * size <= 10 * other && 10 * other <= 11 * size
        &&& 2 * (high - low) >= a.bottom - a.top || 2 * (high - low) >= b.bottom - b.top
        &&& a.left - b.right <= 3 * size && b.left - a.right <= 3 * size && size >= 0
        &&& -20_000 <= item.rotation.angle - by.rotation.angle <= 20_000
    }
}

/// How far a neighbour is: twice the gap and the distance of the doubled middles.
pub open spec fn reach(a: Bbox, b: Bbox) -> int {
    let gap = if a.left > b.right {
        a.left - b.right
    } else if b.left > a.right {
        b.left - a.right
    } else {
        0
    };
    2 * gap + apart(a.top + a.bottom, b.top + b.bottom)
}

proof fn lemma_lends(item: TextItem, by: TextItem)
    requires
        item.bbox.left <= item.bbox.right,
        by.bbox.left <= by.bbox.right,
    ensures
        hangs(item) <==> hangs_from_its_line(item),
        hangs(by) <==> hangs_from_its_line(by),
        attested(item, by) is Some <==> lends_line(item, by),
        attested(item, by) matches Some(found) ==> found.0 == reach(item.bbox, by.bbox) && found.1
            == by.baseline->0.start.y,
{
}

proof fn lemma_best_line(items: Seq<TextItem>, item: TextItem, n: int)
    requires
        0 <= n <= items.len(),
    ensures
        match best_line(items, item, n) {
            None => forall|j: int| 0 <= j < n ==> attested(item, #[trigger] items[j]) is None,
            Some(best) => {
                &&& exists|j: int| 0 <= j < n && attested(item, #[trigger] items[j]) == Some(best)
                &&& forall|j: int|
                    0 <= j < n && attested(item, #[trigger] items[j]) is Some ==> best.0
                        <= attested(item, items[j])->Some_0.0
            },
        },
    decreases n,
{
    if n > 0 {
        lemma_best_line(items, item, n - 1);
        if attested(item, items[n - 1]) is Some {
            assert(attested(item, items[n - 1]) is Some);
        }
        if let Some(best) = best_line(items, item, n - 1) {
            let j = choose|j: int|
                0 <= j < n - 1 && attested(item, #[trigger] items[j]) == Some(best);
            assert(attested(item, items[j]) == Some(best));
        }
    }
}

/// Only a hanging character is moved, onto the line of its nearest neighbour that lends one, and
/// only where no neighbour at most a twentieth of a size further lends a line more than a fifth
/// of a size away; everything else about it stays, and so does every other run.
pub proof fn hanging_characters_take_the_nearest_line(items: Seq<TextItem>, i: int)
    requires
        0 <= i < items.len(),
        forall|k: int|
            0 <= k < items.len() ==> (#[trigger] items[k]).bbox.left <= items[k].bbox.right,
    ensures
        !hangs_from_its_line(items[i]) ==> hung(items)[i] == items[i],
        hung(items)[i].bbox == items[i].bbox,
        hung(items)[i].raw_text == items[i].raw_text,
        hung(items)[i].style == items[i].style,
        hang_line(items, i) is None ==> hung(items)[i] == items[i],
        hang_line(items, i) matches Some(y) ==> {
            let size = items[i].style->0.font_size->0 as int;
            &&& hung(items)[i].baseline is Some
            &&& hung(items)[i].baseline->0.start.y == y && hung(items)[i].baseline->0.end.y == y
            &&& hung(items)[i].baseline->0.start.x == items[i].bbox.left
            &&& hung(items)[i].baseline->0.end.x == items[i].bbox.right
            &&& exists|j: int|
                0 <= j < items.len() && #[trigger] lends_line(items[i], items[j])
                    && items[j].baseline->0.start.y == y && forall|k: int|
                    0 <= k < items.len() && #[trigger] lends_line(items[i], items[k]) ==> {
                        let (near, far) = (
                            reach(items[i].bbox, items[j].bbox),
                            reach(items[i].bbox, items[k].bbox),
                        );
                        &&& near <= far
                        &&& 10 * (far - near) <= size ==> 5 * apart(
                            items[k].baseline->0.start.y as int,
                            y,
                        ) <= size
                    }
        },
        hangs_from_its_line(items[i]) && (exists|j: int|
            0 <= j < items.len() && #[trigger] lends_line(items[i], items[j])) && (forall|
            j: int,
            k: int,
        |
            0 <= j < items.len() && 0 <= k < items.len() && #[trigger] lends_line(
                items[i],
                items[j],
            ) && #[trigger] lends_line(items[i], items[k]) ==> items[j].baseline->0.start.y
                == items[k].baseline->0.start.y) ==> hang_line(items, i) is Some,
{
    let item = items[i];
    let n = items.len() as int;
    assert forall|j: int| 0 <= j < n implies (attested(item, #[trigger] items[j]) is Some
        <==> lends_line(item, items[j])) && (attested(item, items[j]) is Some ==> (attested(
        item,
        items[j],
    )->Some_0).0 == reach(item.bbox, items[j].bbox) && (attested(item, items[j])->Some_0).1
        == items[j].baseline->0.start.y) by {
        lemma_lends(item, items[j]);
    }
    lemma_lends(item, item);
    lemma_best_line(items, item, n);
    if let Some(y) = hang_line(items, i) {
        let best = best_line(items, item, n)->0;
        let j = choose|j: int| 0 <= j < n && attested(item, #[trigger] items[j]) == Some(best);
        assert(lends_line(item, items[j]));
        assert forall|k: int| 0 <= k < n && #[trigger] lends_line(item, items[k]) implies ({
            let (near, far) = (reach(item.bbox, items[j].bbox), reach(item.bbox, items[k].bbox));
            &&& near <= far
            &&& 10 * (far - near) <= item.style->0.font_size->0 ==> 5 * apart(
                items[k].baseline->0.start.y as int,
                y,
            ) <= item.style->0.font_size->0
        }) by {
            assert(attested(item, items[k]) is Some);
            assert(!contested(items, item, best, item.size()->0 as int));
        }
    }
    if hangs_from_its_line(item) && (exists|j: int|
        0 <= j < n && #[trigger] lends_line(item, items[j])) && (forall|j: int, k: int|
        0 <= j < n && 0 <= k < n && #[trigger] lends_line(item, items[j]) && #[trigger] lends_line(
            item,
            items[k],
        ) ==> items[j].baseline->0.start.y == items[k].baseline->0.start.y) {
        let j = choose|j: int| 0 <= j < n && #[trigger] lends_line(item, items[j]);
        assert(attested(item, items[j]) is Some);
        let best = best_line(items, item, n)->0;
        let b = choose|b: int| 0 <= b < n && attested(item, #[trigger] items[b]) == Some(best);
        assert(lends_line(item, items[b]));
        if contested(items, item, best, item.size()->0 as int) {
            let k = choose|k: int|
                0 <= k < n && (attested(item, #[trigger] items[k]) matches Some(other) && 10 * (
                other.0 - best.0) <= item.size()->0 && 5 * vstd::math::abs(other.1 - best.1)
                    > item.size()->0);
            assert(lends_line(item, items[k]));
        }
    }
}

/// Whether a run is a limit of an operator: between forty-five and eighty-five hundredths of its
/// size, on a line, parallel, no higher than the size, half above or below it across, and at most
/// half a size away.
pub open spec fn is_limit_of(item: TextItem, op: TextItem, above: bool) -> bool {
    item.style is Some && item.style->0.font_size is Some && op.style is Some
        && op.style->0.font_size is Some && item.baseline is Some && {
        let size = item.style->0.font_size->0 as int;
        let font = op.style->0.font_size->0 as int;
        let (t, o) = (item.bbox, op.bbox);
        let left = if t.left > o.left {
            t.left
        } else {
            o.left
        };
        let right = if t.right < o.right {
            t.right
        } else {
            o.right
        };
        let gap = if above {
            o.top - t.bottom
        } else {
            t.top - o.bottom
        };
        &&& font > 0 && 45 * font <= 100 * size && 100 * size <= 85 * font
        &&& -20_000 <= item.rotation.angle - op.rotation.angle <= 20_000
        &&& t.bottom - t.top <= font
        &&& 2 * (right - left) >= t.right - t.left
        &&& 0 <= gap && 2 * gap <= font
    }
}

proof fn lemma_limit(item: TextItem, op: TextItem)
    requires
        item.bbox.top < item.bbox.bottom,
        op.bbox.top < op.bbox.bottom,
    ensures
        forall|above: bool|
            #[trigger] is_limit_of(item, op, above) <==> limit_of(item, op) is Some && (limit_of(
                item,
                op,
            )->Some_0).0 == above,
        limit_of(item, op) matches Some(found) ==> found.1.part == apart(
            item.bbox.left + item.bbox.right,
            op.bbox.left + op.bbox.right,
        ) && found.1.whole == 2 * op.style->0.font_size->0 && found.1.whole > 0,
{
    let above = op.bbox.top - item.bbox.bottom;
    let below = item.bbox.top - op.bbox.bottom;
    assert(above + below < 0);
}

proof fn lemma_limits(m: InlineModel, i: int, n: int)
    requires
        0 <= n <= m.items.len(),
        0 <= i < m.items.len(),
        forall|k: int|
            0 <= k < m.items.len() && limit_of(m.items[i], #[trigger] m.items[k]) is Some ==> (
            limit_of(m.items[i], m.items[k])->Some_0).1.whole > 0,
    ensures
        ({
            let (best, second) = limit_upto(m, i, n);
            &&& best matches Some((p, above, score)) ==> {
                &&& 0 <= p < n && is_operator(m, p)
                &&& limit_of(m.items[i], m.items[p]) == Some((above, score))
                &&& forall|q: int|
                    0 <= q < n && q != p && is_operator(m, q) && limit_of(
                        m.items[i],
                        #[trigger] m.items[q],
                    ) is Some ==> second is Some && !(limit_of(
                        m.items[i],
                        m.items[q],
                    )->Some_0).1.below(score) && !(limit_of(m.items[i], m.items[q])->Some_0).1.below(
                        second->0,
                    )
                &&& second is Some ==> second->0.whole > 0 && exists|q: int|
                    0 <= q < n && q != p && is_operator(m, q) && limit_of(
                        m.items[i],
                        #[trigger] m.items[q],
                    ) is Some && (limit_of(m.items[i], m.items[q])->Some_0).1 == second->0
            }
            &&& best is None ==> second is None && forall|q: int|
                0 <= q < n && is_operator(m, q) ==> limit_of(
                    m.items[i],
                    #[trigger] m.items[q],
                ) is None
        }),
    decreases n,
{
    if n > 0 {
        lemma_limits(m, i, n - 1);
        let (best, second) = limit_upto(m, i, n - 1);
        if is_operator(m, n - 1) && limit_of(m.items[i], m.items[n - 1]) is Some {
            let (above, score) = limit_of(m.items[i], m.items[n - 1])->0;
            assert(limit_of(m.items[i], m.items[n - 1]) is Some);
            if let Some((p, _, current)) = best {
                assert(limit_of(m.items[i], m.items[p]) is Some);
                assert forall|q: int|
                    0 <= q < n - 1 && q != p && is_operator(m, q) && limit_of(
                        m.items[i],
                        #[trigger] m.items[q],
                    ) is Some implies ({
                    let s = (limit_of(m.items[i], m.items[q])->Some_0).1;
                    &&& score.below(current) ==> !s.below(score)
                    &&& second is Some && score.below(second->0) ==> !s.below(score)
                }) by {
                    let s = (limit_of(m.items[i], m.items[q])->Some_0).1;
                    lemma_below(s, score, current);
                    if second is Some {
                        lemma_below(s, score, second->0);
                    }
                }
                lemma_below(current, score, current);
                lemma_below(score, current, score);
            }
        }
    }
}

/// A limit goes to the operator over or under whose middle it stands nearest, and only where the
/// next is more than a twentieth of a size further off; the one operator it is a limit of takes
/// it.
pub proof fn limits_go_to_the_nearest_operator(m: InlineModel, i: int)
    requires
        0 <= i < m.items.len(),
        forall|k: int|
            0 <= k < m.items.len() ==> (#[trigger] m.items[k]).bbox.top < m.items[k].bbox.bottom,
    ensures
        limit_owner(m, i) matches Some((p, above)) ==> {
            &&& 0 <= p < m.items.len() && is_operator(m, p) && !is_operator(m, i)
            &&& is_limit_of(m.items[i], m.items[p], above)
            &&& forall|q: int, side: bool|
                0 <= q < m.items.len() && q != p && is_operator(m, q) && #[trigger] is_limit_of(
                    m.items[i],
                    m.items[q],
                    side,
                ) ==> {
                    let mid = m.items[i].bbox.left + m.items[i].bbox.right;
                    let a = apart(mid, m.items[p].bbox.left + m.items[p].bbox.right);
                    let b = apart(mid, m.items[q].bbox.left + m.items[q].bbox.right);
                    let x = 2 * m.items[p].style->0.font_size->0;
                    let y = 2 * m.items[q].style->0.font_size->0;
                    20 * (b * x - a * y) > x * y
                }
        },
        forall|p: int, above: bool|
            0 <= p < m.items.len() && is_operator(m, p) && !is_operator(m, i)
                && #[trigger] is_limit_of(m.items[i], m.items[p], above) && (forall|
                q: int,
                side: bool,
            |
                0 <= q < m.items.len() && q != p && is_operator(m, q) ==> !#[trigger] is_limit_of(
                    m.items[i],
                    m.items[q],
                    side,
                )) ==> limit_owner(m, i) == Some((p, above)),
{
    let n = m.items.len() as int;
    let item = m.items[i];
    assert forall|k: int| 0 <= k < n implies (forall|above: bool|
        #[trigger] is_limit_of(item, m.items[k], above) <==> limit_of(item, m.items[k]) is Some && (
        limit_of(item, m.items[k])->Some_0).0 == above) && (limit_of(
        item,
        #[trigger] m.items[k],
    ) is Some ==> (limit_of(item, m.items[k])->Some_0).1.part == apart(
        item.bbox.left + item.bbox.right,
        m.items[k].bbox.left + m.items[k].bbox.right,
    ) && (limit_of(item, m.items[k])->Some_0).1.whole == 2 * m.items[k].style->0.font_size->0 && (
    limit_of(item, m.items[k])->Some_0).1.whole > 0) by {
        lemma_limit(item, m.items[k]);
    }
    lemma_limits(m, i, n);
    let (best, second) = limit_upto(m, i, n);
    if let Some((p, above)) = limit_owner(m, i) {
        let score = (limit_of(item, m.items[p])->Some_0).1;
        assert(is_limit_of(item, m.items[p], above));
        assert forall|q: int, side: bool|
            0 <= q < n && q != p && is_operator(m, q) && #[trigger] is_limit_of(
                item,
                m.items[q],
                side,
            ) implies ({
            let mid = item.bbox.left + item.bbox.right;
            let a = apart(mid, m.items[p].bbox.left + m.items[p].bbox.right);
            let b = apart(mid, m.items[q].bbox.left + m.items[q].bbox.right);
            let x = 2 * m.items[p].style->0.font_size->0;
            let y = 2 * m.items[q].style->0.font_size->0;
            20 * (b * x - a * y) > x * y
        }) by {
            assert(limit_of(item, m.items[q]) is Some);
            let t = (limit_of(item, m.items[q])->Some_0).1;
            lemma_well_below(score, second->0, t);
        }
    }
    assert forall|p: int, above: bool|
        0 <= p < n && is_operator(m, p) && !is_operator(m, i) && #[trigger] is_limit_of(
            item,
            m.items[p],
            above,
        ) && (forall|q: int, side: bool|
            0 <= q < n && q != p && is_operator(m, q) ==> !#[trigger] is_limit_of(
                item,
                m.items[q],
                side,
            )) implies limit_owner(m, i) == Some((p, above)) by {
        assert(limit_of(item, m.items[p]) is Some);
        let (b, side, _) = best->0;
        assert(is_limit_of(item, m.items[b], side));
        if second is Some {
            let q = choose|q: int|
                0 <= q < n && q != b && is_operator(m, q) && limit_of(
                    item,
                    #[trigger] m.items[q],
                ) is Some && (limit_of(item, m.items[q])->Some_0).1 == second->0;
            assert(is_limit_of(item, m.items[q], (limit_of(item, m.items[q])->Some_0).0));
        }
    }
}

proof fn lemma_ends(items: Seq<TextItem>, n: int)
    requires
        1 <= n <= items.len(),
    ensures
        forall|k: int|
            0 <= k < n ==> left_most(items, n) <= (#[trigger] items[k]).bbox.left
                && items[k].bbox.right <= right_most(items, n),
        exists|k: int| 0 <= k < n && (#[trigger] items[k]).bbox.left == left_most(items, n),
        exists|k: int| 0 <= k < n && (#[trigger] items[k]).bbox.right == right_most(items, n),
    decreases n,
{
    if n > 1 {
        lemma_ends(items, n - 1);
        let a = choose|k: int|
            0 <= k < n - 1 && (#[trigger] items[k]).bbox.left == left_most(items, n - 1);
        let b = choose|k: int|
            0 <= k < n - 1 && (#[trigger] items[k]).bbox.right == right_most(items, n - 1);
        assert(items[a].bbox.left == left_most(items, n - 1));
        assert(items[b].bbox.right == right_most(items, n - 1));
        assert(items[n - 1].bbox.left == items[n - 1].bbox.left);
    } else {
        assert(items[0].bbox.left == left_most(items, 1));
    }
}

/// The limits on one side hold together where they span at most three sizes, are off the middle
/// of the operator by at most thirty-five hundredths of one, and have at most twelve characters.
pub proof fn close_limits_hold_together(
    side: Seq<TextItem>,
    op: TextItem,
    font: int,
    a: int,
    b: int,
)
    requires
        op.size() is Some,
        font == op.size()->0,
        0 <= a < side.len(),
        0 <= b < side.len(),
        forall|k: int|
            0 <= k < side.len() ==> side[a].bbox.left <= (#[trigger] side[k]).bbox.left
                && side[k].bbox.right <= side[b].bbox.right,
    ensures
        !too_loose(side, op) <==> side[b].bbox.right - side[a].bbox.left <= 3 * font && 10 * apart(
            side[a].bbox.left + side[b].bbox.right,
            op.bbox.left + op.bbox.right,
        ) <= 7 * font && runs_ink(side, side.len() as int) <= 12,
{
    let n = side.len() as int;
    lemma_ends(side, n);
    let x = choose|k: int| 0 <= k < n && (#[trigger] side[k]).bbox.left == left_most(side, n);
    let y = choose|k: int| 0 <= k < n && (#[trigger] side[k]).bbox.right == right_most(side, n);
    assert(side[x].bbox.left == left_most(side, n));
    assert(side[y].bbox.right == right_most(side, n));
}

/// Runs on a bar: level, at most half a point beyond its ends, with an edge at most a twentieth of
/// a point across it and at most nine tenths of their size away.
pub proof fn fractions_stand_on_their_bars(item: TextItem, bar: Bar, font: int)
    requires
        item.size() is Some,
        font == item.size()->0,
        item.bbox.bottom - item.bbox.top > 1_000,
    ensures
        side_of(item, bar) == Some(true) <==> level(item.rotation.angle as int) && item.bbox.left
            >= bar.left - 5_000 && item.bbox.right <= bar.right + 5_000 && item.bbox.bottom - bar.y
            <= 500 && 10 * (bar.y - item.bbox.bottom) <= 9 * font,
        side_of(item, bar) == Some(false) <==> level(item.rotation.angle as int) && item.bbox.left
            >= bar.left - 5_000 && item.bbox.right <= bar.right + 5_000 && bar.y - item.bbox.top
            <= 500 && 10 * (item.bbox.top - bar.y) <= 9 * font,
{
}

proof fn lemma_bars(rules: Seq<TableRule>, n: int)
    requires
        0 <= n <= rules.len(),
    ensures
        forall|bar: Bar|
            #[trigger] bars_upto(rules, n).contains(bar) <==> bar.left < bar.right && exists|i: int|
                0 <= i < n && #[trigger] rules[i] == (TableRule::Horizontal {
                    y: bar.y,
                    left: bar.left,
                    right: bar.right,
                }),
    decreases n,
{
    if n > 0 {
        lemma_bars(rules, n - 1);
        let before = bars_upto(rules, n - 1);
        let after = bars_upto(rules, n);
        assert forall|bar: Bar| #[trigger] after.contains(bar) <==> bar.left < bar.right && exists|
            i: int,
        |
            0 <= i < n && #[trigger] rules[i] == (TableRule::Horizontal {
                y: bar.y,
                left: bar.left,
                right: bar.right,
            }) by {
            if after.contains(bar) {
                let k = after.index_of(bar);
                if k < before.len() {
                    assert(before[k] == bar);
                    assert(before.contains(bar));
                    let i = choose|i: int|
                        0 <= i < n - 1 && #[trigger] rules[i] == (TableRule::Horizontal {
                            y: bar.y,
                            left: bar.left,
                            right: bar.right,
                        });
                    assert(rules[i] == rules[i]);
                } else {
                    assert(rules[n - 1] == (TableRule::Horizontal {
                        y: bar.y,
                        left: bar.left,
                        right: bar.right,
                    }));
                }
            }
            if bar.left < bar.right && exists|i: int|
                0 <= i < n && #[trigger] rules[i] == (TableRule::Horizontal {
                    y: bar.y,
                    left: bar.left,
                    right: bar.right,
                }) {
                let i = choose|i: int|
                    0 <= i < n && #[trigger] rules[i] == (TableRule::Horizontal {
                        y: bar.y,
                        left: bar.left,
                        right: bar.right,
                    });
                if i < n - 1 {
                    assert(before.contains(bar));
                    let k = before.index_of(bar);
                    assert(after[k] == bar);
                } else {
                    assert(after[before.len() as int] == bar);
                }
            }
        }
    }
}

/// The bars are the horizontal rules with a length, the shortest first, then the highest.
pub proof fn short_bars_come_first(rules: Seq<TableRule>)
    ensures
        forall|bar: Bar|
            #[trigger] bars_of(rules).contains(bar) <==> bar.left < bar.right && exists|i: int|
                0 <= i < rules.len() && #[trigger] rules[i] == (TableRule::Horizontal {
                    y: bar.y,
                    left: bar.left,
                    right: bar.right,
                }),
        forall|a: int, b: int|
            0 <= a < b < bars_of(rules).len() ==> {
                let p = #[trigger] bars_of(rules)[a];
                let q = #[trigger] bars_of(rules)[b];
                p.right - p.left <= q.right - q.left && (p.right - p.left == q.right - q.left
                    ==> p.y <= q.y)
            },
{
    let given = bars_upto(rules, rules.len() as int);
    lemma_bars(rules, rules.len() as int);
    sorting_orders_and_keeps(given, BarOrder);
    assert forall|bar: Bar| #[trigger] bars_of(rules).contains(bar) <==> given.contains(bar) by {
        crate::sorting::sorting_holds_the_same(given, BarOrder, bar);
    }
    let s = bars_of(rules);
    assert forall|a: int, b: int| 0 <= a < b < s.len() implies ({
        let p = #[trigger] s[a];
        let q = #[trigger] s[b];
        p.right - p.left <= q.right - q.left && (p.right - p.left == q.right - q.left ==> p.y
            <= q.y)
    }) by {
        assert(!BarOrder.lt(s[b], s[a]));
    }
}

proof fn lemma_size(items: Seq<TextItem>, bar: Bar, n: int)
    requires
        0 <= n <= items.len(),
    ensures
        bar_size(items, bar, n) >= 0,
        forall|i: int|
            0 <= i < n && side_of(#[trigger] items[i], bar) is Some ==> items[i].size()->0
                <= bar_size(items, bar, n),
        bar_size(items, bar, n) > 0 ==> exists|i: int|
            0 <= i < n && side_of(#[trigger] items[i], bar) is Some && items[i].size()->0
                == bar_size(items, bar, n),
    decreases n,
{
    if n > 0 {
        lemma_size(items, bar, n - 1);
        if bar_size(items, bar, n - 1) > 0 {
            let i = choose|i: int|
                0 <= i < n - 1 && side_of(#[trigger] items[i], bar) is Some && items[i].size()->0
                    == bar_size(items, bar, n - 1);
            assert(side_of(items[i], bar) is Some);
        }
        if side_of(items[n - 1], bar) is Some {
            assert(side_of(items[n - 1], bar) is Some);
        }
    }
}

/// The size of a fraction is that of its largest run.
pub proof fn fractions_are_as_large_as_their_runs(items: Seq<TextItem>, bar: Bar)
    ensures
        forall|i: int|
            0 <= i < items.len() && side_of(#[trigger] items[i], bar) is Some ==> items[i].size()->0
                <= bar_size(items, bar, items.len() as int),
        bar_size(items, bar, items.len() as int) > 0 ==> exists|i: int|
            0 <= i < items.len() && side_of(#[trigger] items[i], bar) is Some && items[i].size()->0
                == bar_size(items, bar, items.len() as int),
{
    lemma_size(items, bar, items.len() as int);
}

/// Whether a run beside a bar settles where its fraction sits: the fraction is at most eighty-five
/// hundredths as large (a hundred and five in a formula), it is at most two sizes away, and the
/// bar is within a fifth of a size of a quarter of one above its line.
pub open spec fn settles(item: TextItem, bar: Bar, size: int, confirmed: bool) -> bool {
    side_of(item, bar) is None && item.style is Some && item.style->0.font_size is Some
        && item.baseline is Some && {
        let font = item.style->0.font_size->0 as int;
        let y = item.baseline->0.start.y as int;
        &&& 100 * size <= 85 * font || (confirmed && 100 * size <= 105 * font)
        &&& bar.left - item.bbox.right <= 2 * font && item.bbox.left - bar.right <= 2 * font && 0
            <= font
        &&& 20 * apart(y, bar.y as int) <= 9 * font && 20 * (bar.y - y) <= -font
    }
}

proof fn lemma_axis(items: Seq<TextItem>, bar: Bar, size: int, confirmed: bool, n: int)
    requires
        0 <= n <= items.len(),
    ensures
        match axis_upto(items, bar, size, confirmed, n) {
            None => forall|i: int|
                0 <= i < n ==> axis_from(#[trigger] items[i], bar, size, confirmed) is None,
            Some(best) => {
                &&& exists|i: int|
                    0 <= i < n && axis_from(#[trigger] items[i], bar, size, confirmed) == Some(best)
                &&& forall|i: int|
                    0 <= i < n && axis_from(
                        #[trigger] items[i],
                        bar,
                        size,
                        confirmed,
                    ) is Some ==> best.gap <= axis_from(items[i], bar, size, confirmed)->0.gap
            },
        },
    decreases n,
{
    if n > 0 {
        lemma_axis(items, bar, size, confirmed, n - 1);
        if axis_from(items[n - 1], bar, size, confirmed) is Some {
            assert(axis_from(items[n - 1], bar, size, confirmed) is Some);
        }
        if let Some(best) = axis_upto(items, bar, size, confirmed, n - 1) {
            let i = choose|i: int|
                0 <= i < n - 1 && axis_from(#[trigger] items[i], bar, size, confirmed) == Some(
                    best,
                );
            assert(axis_from(items[i], bar, size, confirmed) == Some(best));
        }
    }
}

/// How far a run is from a bar, along it.
pub open spec fn beside(item: TextItem, bar: Bar) -> int {
    if item.bbox.right < bar.left {
        bar.left - item.bbox.right
    } else if item.bbox.left > bar.right {
        item.bbox.left - bar.right
    } else {
        0
    }
}

/// A fraction takes the line and the size of the nearest run that settles it. Where none does it
/// is no fraction, but in a formula it stands alone, a quarter of its size under its bar.
pub proof fn fractions_sit_on_the_nearest_line(items: Seq<TextItem>, bar: Bar, confirmed: bool)
    requires
        bar.left < bar.right,
        forall|k: int|
            0 <= k < items.len() ==> (#[trigger] items[k]).bbox.left <= items[k].bbox.right,
    ensures
        ({
            let size = bar_size(items, bar, items.len() as int);
            let any = exists|i: int|
                0 <= i < items.len() && #[trigger] settles(items[i], bar, size, confirmed);
            &&& any ==> axis_of(items, bar, confirmed) is Some && exists|i: int|
                0 <= i < items.len() && #[trigger] settles(items[i], bar, size, confirmed)
                    && axis_of(items, bar, confirmed)->0.baseline
                    == items[i].baseline->0.start.y && axis_of(items, bar, confirmed)->0.font
                    == items[i].size()->0 && forall|k: int|
                    0 <= k < items.len() && #[trigger] settles(items[k], bar, size, confirmed)
                        ==> beside(items[i], bar) <= beside(items[k], bar)
            &&& !any ==> (axis_of(items, bar, confirmed) is Some <==> confirmed)
            &&& !any && confirmed && i32::MIN <= bar.y + size / 4 <= i32::MAX && size <= i32::MAX
                ==> axis_of(items, bar, confirmed)->0.baseline == bar.y + size / 4 && axis_of(
                items,
                bar,
                confirmed,
            )->0.font == size
        }),
{
    let n = items.len() as int;
    let size = bar_size(items, bar, n);
    lemma_size(items, bar, n);
    lemma_axis(items, bar, size, confirmed, n);
    assert forall|i: int| 0 <= i < n implies (#[trigger] settles(items[i], bar, size, confirmed)
        <==> axis_from(items[i], bar, size, confirmed) is Some) && (axis_from(
        items[i],
        bar,
        size,
        confirmed,
    ) matches Some(a) ==> a.gap == beside(items[i], bar) && a.baseline
        == items[i].baseline->0.start.y && a.font == items[i].size()->0) by {}
    if let Some(best) = axis_upto(items, bar, size, confirmed, n) {
        let i = choose|i: int|
            0 <= i < n && axis_from(#[trigger] items[i], bar, size, confirmed) == Some(best);
        assert(settles(items[i], bar, size, confirmed));
        assert forall|k: int|
            0 <= k < n && #[trigger] settles(items[k], bar, size, confirmed) implies beside(
            items[i],
            bar,
        ) <= beside(items[k], bar) by {
            assert(axis_from(items[k], bar, size, confirmed) is Some);
        }
    } else {
        assert forall|i: int| 0 <= i < n implies !#[trigger] settles(
            items[i],
            bar,
            size,
            confirmed,
        ) by {
            assert(axis_from(items[i], bar, size, confirmed) is None);
        }
    }
}

/// A power of a whole fraction is small, level, right behind the bar, not higher than three
/// quarters of a size over the fraction, above the bar, raised by more than half a size, at most
/// two sizes wide, of at most twelve characters, and nothing on the line stands before it.
pub proof fn powers_stand_raised_behind_their_fractions(
    script: FragmentModel,
    items: Seq<TextItem>,
    bar: Bar,
    axis: Axis,
    top: int,
)
    ensures
        is_power(script, items, bar, axis, top) <==> {
            let font = axis.font as int;
            let gap = script.bbox.left - bar.right;
            &&& font > 0 && 45 * font <= 100 * script.metrics.font_size && 100
                * script.metrics.font_size <= 85 * font
            &&& level(script.rotation.angle as int)
            &&& 4 * gap >= -font && 4 * gap <= 5 * font
            &&& 4 * (top - script.bbox.top) <= 3 * font
            &&& script.bbox.bottom <= bar.y
            &&& 2 * (axis.baseline - script.baseline.start.y) > font
            &&& script.bbox.right - script.bbox.left <= 2 * font
            &&& runs_ink(script.items, script.items.len() as int) <= 12
            &&& forall|i: int|
                0 <= i < items.len() && side_of(#[trigger] items[i], bar) is None ==> !(
                items[i].bbox.left >= bar.right - 5_000 && items[i].bbox.left < script.bbox.left
                    && items[i].bbox.top < bar.y && items[i].bbox.bottom > bar.y)
        },
{
}

/// Whether prose lends its line to a row of a formula: it is at least eighty-five hundredths as
/// large, its line at most half a size off, it shares half the lower height, and is at most three
/// sizes away and parallel.
pub open spec fn lends_prose_line(item: TextItem, row: FragmentModel, angle: int) -> bool {
    item.style is Some && item.style->0.font_size is Some && item.baseline is Some && {
        let size = item.style->0.font_size->0 as int;
        let (a, b) = (item.bbox, row.bbox);
        let low = if a.top > b.top {
            a.top
        } else {
            b.top
        };
        let high = if a.bottom < b.bottom {
            a.bottom
        } else {
            b.bottom
        };
        &&& size > 0 && 100 * size >= 85 * row.metrics.font_size
        &&& 2 * apart(item.baseline->0.start.y as int, row.baseline.start.y as int) <= size
        &&& 2 * (high - low) >= a.bottom - a.top || 2 * (high - low) >= b.bottom - b.top
        &&& a.left - b.right <= 3 * size && b.left - a.right <= 3 * size
        &&& -20_000 <= item.rotation.angle - angle <= 20_000
    }
}

/// How far prose is from a row: the gap and the distance of the lines.
pub open spec fn off_row(item: TextItem, row: FragmentModel) -> int {
    let (a, b) = (item.bbox, row.bbox);
    let gap = if a.left > b.right {
        a.left - b.right
    } else if b.left > a.right {
        b.left - a.right
    } else {
        0
    };
    gap + apart(item.baseline->0.start.y as int, row.baseline.start.y as int)
}

proof fn lemma_prose(prose: Seq<TextItem>, row: FragmentModel, angle: int, n: int)
    requires
        0 <= n <= prose.len(),
    ensures
        match prose_line_upto(prose, row, angle, n) {
            None => forall|i: int|
                0 <= i < n ==> prose_line(#[trigger] prose[i], row, angle) is None,
            Some(best) => {
                &&& exists|i: int|
                    0 <= i < n && prose_line(#[trigger] prose[i], row, angle) == Some(best)
                &&& forall|i: int|
                    0 <= i < n && prose_line(#[trigger] prose[i], row, angle) is Some ==> best.0
                        <= (prose_line(prose[i], row, angle)->Some_0).0
            },
        },
    decreases n,
{
    if n > 0 {
        lemma_prose(prose, row, angle, n - 1);
        if prose_line(prose[n - 1], row, angle) is Some {
            assert(prose_line(prose[n - 1], row, angle) is Some);
        }
        if let Some(best) = prose_line_upto(prose, row, angle, n - 1) {
            let i = choose|i: int|
                0 <= i < n - 1 && prose_line(#[trigger] prose[i], row, angle) == Some(best);
            assert(prose_line(prose[i], row, angle) == Some(best));
        }
    }
}

/// A level inline row takes the line and the size of the nearest prose that lends one; a displayed
/// row, and one beside which there is none, keeps its own.
pub proof fn inline_rows_take_the_line_of_prose(
    row: FragmentModel,
    prose: Seq<TextItem>,
    inline: bool,
)
    requires
        row.items.len() > 0,
        row.bbox.left <= row.bbox.right,
        forall|k: int|
            0 <= k < prose.len() ==> (#[trigger] prose[k]).bbox.left <= prose[k].bbox.right,
    ensures
        ({
            let angle = row.items[0].rotation.angle as int;
            let atom = row_atom(row, prose, inline);
            let any = exists|i: int|
                0 <= i < prose.len() && #[trigger] lends_prose_line(prose[i], row, angle);
            &&& atom.bbox == row.bbox
            &&& !inline || !level(angle) || !any ==> atom.baseline == Some(row.baseline)
            &&& inline && level(angle) && any ==> atom.baseline is Some && atom.style is Some
                && exists|i: int|
                0 <= i < prose.len() && #[trigger] lends_prose_line(prose[i], row, angle)
                    && atom.baseline->0.start.y == prose[i].baseline->0.start.y
                    && atom.baseline->0.end.y == prose[i].baseline->0.start.y
                    && atom.style->0.font_size == prose[i].style->0.font_size && forall|k: int|
                    0 <= k < prose.len() && #[trigger] lends_prose_line(prose[k], row, angle)
                        ==> off_row(prose[i], row) <= off_row(prose[k], row)
        }),
{
    let n = prose.len() as int;
    let angle = row.items[0].rotation.angle as int;
    lemma_prose(prose, row, angle, n);
    assert forall|i: int| 0 <= i < n implies (#[trigger] lends_prose_line(prose[i], row, angle)
        <==> prose_line(prose[i], row, angle) is Some) && (prose_line(
        prose[i],
        row,
        angle,
    ) matches Some(found) ==> found.0 == off_row(prose[i], row) && found.1
        == prose[i].style->0.font_size->0 && found.2 == prose[i].baseline->0.start.y) by {}
    match prose_line_upto(prose, row, angle, n) {
        None => {
            assert forall|i: int| 0 <= i < n implies !#[trigger] lends_prose_line(
                prose[i],
                row,
                angle,
            ) by {
                assert(prose_line(prose[i], row, angle) is None);
            }
        },
        Some(best) => {
            let i = choose|i: int|
                0 <= i < n && prose_line(#[trigger] prose[i], row, angle) == Some(best);
            assert(lends_prose_line(prose[i], row, angle));
            assert forall|k: int| 0 <= k < n && #[trigger] lends_prose_line(
                prose[k],
                row,
                angle,
            ) implies off_row(prose[i], row) <= off_row(prose[k], row) by {
                assert(prose_line(prose[k], row, angle) is Some);
            }
        },
    }
}

} // verus!
