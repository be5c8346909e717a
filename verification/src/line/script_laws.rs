//! Which runs hang on others as raised or lowered scripts.

use vstd::prelude::*;

use super::assembly_laws::apart;
use super::axes::level;
use super::fragment::{fragment_of, runs_ink, FragmentModel};
use super::scripts::{
    chosen_of, continues, enriched, hangs_on, is_script, is_shallow, may_belong, nearest_upto,
    owner_of, rest_y2, score_of, settled_upto, stated_baseline, Score,
};
use crate::chars::ink;
use crate::types::{TextItem, WritingDirection};

verus! {

/// Whether a run of a fragment is an operator that joins the parts of an index.
pub open spec fn is_operator(item: TextItem) -> bool {
    let text = item.raw_text@;
    ink(text) == 1 && exists|k: int|
        0 <= k < text.len() && (#[trigger] text[k] == '+' || text[k] == '-' || text[k]
            == '\u{2212}' || text[k] == '=' || text[k] == '<' || text[k] == '>' || text[k] == '/'
            || text[k] == '*')
}

/// Whether a fragment is a compound index: several runs with an operator among them.
pub open spec fn is_compound_index(f: FragmentModel) -> bool {
    f.items.len() > 1 && exists|i: int| 0 <= i < f.items.len() && is_operator(#[trigger] f.items[i])
}

/// Whether a fragment could be a script of another by its size and its place beside it: both are
/// level, its stated size is between forty-five and eighty-five hundredths of that of the other,
/// it has at most four characters and is at most two sizes wide (a compound index twelve and
/// three), it is no higher, does not stand before the other, shares a fifth of its height with
/// it, is at most a quarter of a size away and rests at most nine tenths of a size off its line.
pub open spec fn sits_beside(script: FragmentModel, parent: FragmentModel) -> bool {
    let size = parent.metrics.font_size as int;
    let small = script.metrics.font_size as int;
    let count = runs_ink(script.items, script.items.len() as int);
    let compound = is_compound_index(script);
    let shift = apart(rest_y2(script), rest_y2(parent));
    let (s, p) = (script.bbox, parent.bbox);
    let low = if s.top > p.top {
        s.top
    } else {
        p.top
    };
    let high = if s.bottom < p.bottom {
        s.bottom
    } else {
        p.bottom
    };
    &&& level(script.rotation.angle as int) && script.direction != WritingDirection::Vertical
    &&& level(parent.rotation.angle as int) && parent.direction != WritingDirection::Vertical
    &&& !script.metrics.font_size_estimated && !parent.metrics.font_size_estimated
    &&& size > 0 && 100 * small >= 45 * size && 100 * small <= 85 * size
    &&& count >= 1 && count <= (if compound {
        12int
    } else {
        4
    })
    &&& s.right - s.left <= (if compound {
        3 * size
    } else {
        2 * size
    })
    &&& s.bottom - s.top <= p.bottom - p.top
    &&& parent.direction == WritingDirection::LeftToRight ==> s.left + s.right >= 2 * p.left
    &&& parent.direction == WritingDirection::RightToLeft ==> s.left + s.right <= 2 * p.right
    &&& 5 * (high - low) >= s.bottom - s.top
    &&& 4 * (s.left - p.right) <= size && 4 * (p.left - s.right) <= size
    &&& 10 * shift <= 18 * size + 400
}

/// Whether a fragment is a script of another: it sits beside it, and rests and lies at least
/// fifteen hundredths of a size off.
pub open spec fn is_index_of(script: FragmentModel, parent: FragmentModel) -> bool {
    let size = parent.metrics.font_size as int;
    let shift = apart(rest_y2(script), rest_y2(parent));
    let off = apart(
        script.bbox.top + script.bbox.bottom,
        parent.bbox.top + parent.bbox.bottom,
    );
    &&& sits_beside(script, parent)
    &&& 100 * (shift + 40) >= 30 * size
    &&& 100 * off >= 30 * size
}

/// Whether measured baselines show a shallow script: both state baselines, and it rests and lies
/// at least an eighth of a size off.
pub open spec fn is_slight_index_of(script: FragmentModel, parent: FragmentModel) -> bool {
    let size = parent.metrics.font_size as int;
    let shift = apart(rest_y2(script), rest_y2(parent));
    let off = apart(
        script.bbox.top + script.bbox.bottom,
        parent.bbox.top + parent.bbox.bottom,
    );
    &&& sits_beside(script, parent)
    &&& exists|i: int| 0 <= i < script.items.len() && (#[trigger] script.items[i]).baseline is Some
    &&& exists|i: int| 0 <= i < parent.items.len() && (#[trigger] parent.items[i]).baseline is Some
    &&& 8 * (shift + 40) >= 2 * size
    &&& 8 * off >= 2 * size
}

proof fn lemma_compound(f: FragmentModel)
    ensures
        super::scripts::is_compound(f.items) == is_compound_index(f),
{
    assert forall|i: int| 0 <= i < f.items.len() implies super::scripts::is_joint(
        (#[trigger] f.items[i]).raw_text@,
    ) == is_operator(f.items[i]) by {
        let text = f.items[i].raw_text@;
        if super::scripts::is_joint(text) {
            let k = choose|k: int|
                0 <= k < text.len() && super::scripts::joins_index(#[trigger] text[k]);
            assert(text[k] == text[k]);
        }
        if is_operator(f.items[i]) {
            let k = choose|k: int|
                0 <= k < text.len() && (#[trigger] text[k] == '+' || text[k] == '-' || text[k]
                    == '\u{2212}' || text[k] == '=' || text[k] == '<' || text[k] == '>' || text[k]
                    == '/' || text[k] == '*');
            assert(super::scripts::joins_index(text[k]));
        }
    }
    if super::scripts::is_compound(f.items) {
        let i = choose|i: int|
            0 <= i < f.items.len() && super::scripts::is_joint((#[trigger] f.items[i]).raw_text@);
        assert(is_operator(f.items[i]));
    }
    if is_compound_index(f) {
        let i = choose|i: int| 0 <= i < f.items.len() && is_operator(#[trigger] f.items[i]);
        assert(super::scripts::is_joint(f.items[i].raw_text@));
    }
}

proof fn lemma_stated(items: Seq<TextItem>, n: int)
    requires
        0 <= n <= items.len(),
    ensures
        stated_baseline(items, n) is Some <==> exists|i: int|
            0 <= i < n && (#[trigger] items[i]).baseline is Some,
        stated_baseline(items, n) matches Some(y) ==> (forall|i: int|
            0 <= i < n && (#[trigger] items[i]).baseline is Some ==> y
                <= items[i].baseline->0.start.y + items[i].baseline->0.end.y) && exists|i: int|
            0 <= i < n && (#[trigger] items[i]).baseline is Some && y
                == items[i].baseline->0.start.y + items[i].baseline->0.end.y,
    decreases n,
{
    if n > 0 {
        lemma_stated(items, n - 1);
        if let Some(y) = stated_baseline(items, n - 1) {
            let i = choose|i: int|
                0 <= i < n - 1 && (#[trigger] items[i]).baseline is Some && y
                    == items[i].baseline->0.start.y + items[i].baseline->0.end.y;
            assert(items[i].baseline is Some);
        }
        if items[n - 1].baseline is Some {
            assert(items[n - 1].baseline is Some);
        }
        if exists|i: int| 0 <= i < n && (#[trigger] items[i]).baseline is Some {
            let i = choose|i: int| 0 <= i < n && (#[trigger] items[i]).baseline is Some;
            if i < n - 1 {
                assert(items[i].baseline is Some);
            }
        }
    }
}

/// A fragment rests on the highest of the baselines that its runs state, else on its own.
pub proof fn fragments_rest_on_stated_baselines(f: FragmentModel)
    ensures
        (forall|i: int| 0 <= i < f.items.len() ==> (#[trigger] f.items[i]).baseline is None)
            ==> rest_y2(f) == 2 * f.baseline.start.y,
        forall|i: int|
            0 <= i < f.items.len() && (#[trigger] f.items[i]).baseline is Some ==> rest_y2(f)
                <= f.items[i].baseline->0.start.y + f.items[i].baseline->0.end.y,
        (exists|i: int| 0 <= i < f.items.len() && (#[trigger] f.items[i]).baseline is Some)
            ==> exists|i: int|
            0 <= i < f.items.len() && (#[trigger] f.items[i]).baseline is Some && rest_y2(f)
                == f.items[i].baseline->0.start.y + f.items[i].baseline->0.end.y,
{
    lemma_stated(f.items, f.items.len() as int);
}

/// Scripts are told by their size, their place and how far off the line they rest.
pub proof fn scripts_are_small_and_shifted(script: FragmentModel, parent: FragmentModel)
    ensures
        is_script(script, parent) <==> is_index_of(script, parent),
        is_shallow(script, parent) <==> is_slight_index_of(script, parent),
{
    lemma_compound(script);
    lemma_stated(script.items, script.items.len() as int);
    lemma_stated(parent.items, parent.items.len() as int);
    let gap = script.bbox.gap_x(parent.bbox);
    assert(4 * gap <= parent.metrics.font_size || parent.metrics.font_size <= 0 <==> 4 * (
    script.bbox.left - parent.bbox.right) <= parent.metrics.font_size && 4 * (parent.bbox.left
        - script.bbox.right) <= parent.metrics.font_size || parent.metrics.font_size <= 0);
}

/// How far a script is from a parent: half the distance of their middles and the gap between
/// them, over the size of the parent, as a fraction.
pub open spec fn farness(script: FragmentModel, parent: FragmentModel) -> (int, int) {
    let (s, p) = (script.bbox, parent.bbox);
    let gap = if s.left > p.right {
        s.left - p.right
    } else if p.left > s.right {
        p.left - s.right
    } else {
        0
    };
    (apart(s.top + s.bottom, p.top + p.bottom) + 2 * gap, 2 * parent.metrics.font_size)
}

proof fn lemma_farness(script: FragmentModel, parent: FragmentModel)
    requires
        script.bbox.left <= script.bbox.right,
        parent.bbox.left <= parent.bbox.right,
    ensures
        score_of(script, parent).part == farness(script, parent).0,
        score_of(script, parent).whole == farness(script, parent).1,
{
}

proof fn lemma_nearest(fs: Seq<FragmentModel>, script: int, n: int, shallow: bool)
    requires
        0 <= n <= fs.len(),
        forall|p: int|
            0 <= p < fs.len() && may_belong(fs[script], #[trigger] fs[p], shallow)
                ==> score_of(fs[script], fs[p]).whole > 0,
    ensures
        ({
            let (best, second) = nearest_upto(fs, script, n, shallow);
            &&& best matches Some((p, score)) ==> {
                &&& 0 <= p < n && p != script && may_belong(fs[script], fs[p], shallow)
                &&& score == score_of(fs[script], fs[p])
                &&& forall|q: int|
                    0 <= q < n && q != script && q != p && may_belong(
                        fs[script],
                        #[trigger] fs[q],
                        shallow,
                    ) ==> !score_of(fs[script], fs[q]).below(score) && second is Some && !score_of(
                        fs[script],
                        fs[q],
                    ).below(second->0)
                &&& second is Some ==> second->0.whole > 0 && exists|q: int|
                    0 <= q < n && q != script && q != p && may_belong(
                        fs[script],
                        #[trigger] fs[q],
                        shallow,
                    ) && second->0 == score_of(fs[script], fs[q])
            }
            &&& best is None ==> second is None && forall|q: int|
                0 <= q < n && q != script ==> !may_belong(fs[script], #[trigger] fs[q], shallow)
        }),
    decreases n,
{
    if n > 0 {
        lemma_nearest(fs, script, n - 1, shallow);
        let (best, second) = nearest_upto(fs, script, n - 1, shallow);
        let x = fs[n - 1];
        if n - 1 != script && may_belong(fs[script], x, shallow) {
            let score = score_of(fs[script], x);
            assert(may_belong(fs[script], fs[n - 1], shallow));
            if let Some((p, current)) = best {
                lemma_below(score, score, score);
                assert(may_belong(fs[script], fs[p], shallow));
                assert forall|q: int|
                    0 <= q < n - 1 && q != script && q != p && may_belong(
                        fs[script],
                        #[trigger] fs[q],
                        shallow,
                    ) implies (score.below(current) ==> !score_of(fs[script], fs[q]).below(score))
                    && (second is Some && score.below(second->0) ==> !score_of(
                    fs[script],
                    fs[q],
                ).below(score)) by {
                    lemma_below(score_of(fs[script], fs[q]), score, current);
                    if second is Some {
                        lemma_below(score_of(fs[script], fs[q]), score, second->0);
                    }
                }
                lemma_below(current, score, current);
                lemma_below(score, current, score);
            }
        }
    }
}

/// Fractions are ordered.
pub proof fn lemma_below(a: Score, b: Score, c: Score)
    requires
        a.whole > 0,
        b.whole > 0,
        c.whole > 0,
    ensures
        a.below(b) && b.below(c) ==> a.below(c),
        !a.below(b) && !b.below(c) ==> !a.below(c),
        !a.below(c) && b.below(c) ==> !a.below(b),
        !a.below(a),
{
    let (ap, aw, bp, bw, cp, cw) = (
        a.part as int,
        a.whole as int,
        b.part as int,
        b.whole as int,
        c.part as int,
        c.whole as int,
    );
    if ap * bw < bp * aw && bp * cw < cp * bw {
        assert(ap * cw < cp * aw) by (nonlinear_arith)
            requires
                aw > 0,
                bw > 0,
                cw > 0,
                ap * bw < bp * aw,
                bp * cw < cp * bw,
        {
            assert(ap * bw * cw < bp * aw * cw);
            assert(bp * cw * aw < cp * bw * aw);
            assert((ap * cw) * bw < (cp * aw) * bw);
        }
    }
    if ap * bw >= bp * aw && bp * cw >= cp * bw {
        assert(ap * cw >= cp * aw) by (nonlinear_arith)
            requires
                aw > 0,
                bw > 0,
                cw > 0,
                ap * bw >= bp * aw,
                bp * cw >= cp * bw,
        {
            assert(ap * bw * cw >= bp * aw * cw);
            assert(bp * cw * aw >= cp * bw * aw);
            assert((ap * cw) * bw >= (cp * aw) * bw);
        }
    }
}

/// A script hangs on the nearest of the fragments of which it is one, and only where the next is
/// more than a twentieth of a size further; a shallow one where it is a plain script of none.
pub proof fn scripts_hang_on_the_nearest(fs: Seq<FragmentModel>, i: int)
    requires
        0 <= i < fs.len(),
        forall|k: int|
            0 <= k < fs.len() ==> (#[trigger] fs[k]).bbox.left <= fs[k].bbox.right,
    ensures
        owner_of(fs, i) matches Some(p) ==> {
            let plain = exists|q: int|
                0 <= q < fs.len() && q != i && is_index_of(fs[i], #[trigger] fs[q]);
            &&& 0 <= p < fs.len() && p != i
            &&& fs[p].metrics.font_size > fs[i].metrics.font_size
            &&& plain ==> is_index_of(fs[i], fs[p])
            &&& !plain ==> is_slight_index_of(fs[i], fs[p])
            &&& forall|q: int|
                0 <= q < fs.len() && q != i && q != p && (if plain {
                    is_index_of(fs[i], #[trigger] fs[q])
                } else {
                    is_slight_index_of(fs[i], fs[q])
                }) ==> {
                    let (a, x) = farness(fs[i], fs[p]);
                    let (b, y) = farness(fs[i], fs[q]);
                    20 * (b * x - a * y) > x * y
                }
        },
        forall|p: int|
            0 <= p < fs.len() && p != i && is_index_of(fs[i], #[trigger] fs[p]) && (forall|q: int|
                0 <= q < fs.len() && q != i && q != p ==> !is_index_of(fs[i], #[trigger] fs[q]))
                ==> owner_of(fs, i) == Some(p),
{
    let n = fs.len() as int;
    assert forall|p: int| 0 <= p < n implies (is_script(fs[i], #[trigger] fs[p]) <==> is_index_of(
        fs[i],
        fs[p],
    )) && (is_shallow(fs[i], fs[p]) <==> is_slight_index_of(fs[i], fs[p])) && score_of(
        fs[i],
        fs[p],
    ).part == farness(fs[i], fs[p]).0 && score_of(fs[i], fs[p]).whole == farness(
        fs[i],
        fs[p],
    ).1 by {
        scripts_are_small_and_shifted(fs[i], fs[p]);
        lemma_farness(fs[i], fs[p]);
    }
    lemma_nearest(fs, i, n, false);
    lemma_nearest(fs, i, n, true);
    let plain = nearest_upto(fs, i, n, false).0 is Some;
    let shallow = !plain;
    if let Some(p) = owner_of(fs, i) {
        let (best, second) = nearest_upto(fs, i, n, shallow);
        let score = best->Some_0.1;
        assert(chosen_of(fs, i, shallow) == Some(p));
        assert(may_belong(fs[i], fs[p], shallow));
        assert forall|q: int|
            0 <= q < n && q != i && q != p && may_belong(fs[i], #[trigger] fs[q], shallow) implies ({
            let (a, x) = farness(fs[i], fs[p]);
            let (b, y) = farness(fs[i], fs[q]);
            20 * (b * x - a * y) > x * y
        }) by {
            let s = second->0;
            let t = score_of(fs[i], fs[q]);
            assert(!t.below(s));
            assert(score.well_below(s));
            lemma_well_below(score, s, t);
        }
    }
    assert forall|p: int|
        0 <= p < n && p != i && is_index_of(fs[i], #[trigger] fs[p]) && (forall|q: int|
            0 <= q < n && q != i && q != p ==> !is_index_of(fs[i], #[trigger] fs[q])) implies
        owner_of(fs, i) == Some(p) by {
        let (best, second) = nearest_upto(fs, i, n, false);
        assert(may_belong(fs[i], fs[p], false));
        assert(best is Some);
        let b = best->Some_0.0;
        assert(b == p) by {
            if b != p {
                assert(!is_index_of(fs[i], fs[b]));
            }
        }
        if second is Some {
            let q = choose|q: int|
                0 <= q < n && q != i && q != p && may_belong(fs[i], #[trigger] fs[q], false)
                    && second->0 == score_of(fs[i], fs[q]);
            assert(!is_index_of(fs[i], fs[q]));
        }
    }
}

/// A fraction well below another is as far below any larger one.
pub proof fn lemma_well_below(a: Score, b: Score, c: Score)
    requires
        a.whole > 0,
        b.whole > 0,
        c.whole > 0,
        a.well_below(b),
        !c.below(b),
    ensures
        20 * (c.part * a.whole - a.part * c.whole) > a.whole * c.whole,
{
    let (ap, aw, bp, bw, cp, cw) = (
        a.part as int,
        a.whole as int,
        b.part as int,
        b.whole as int,
        c.part as int,
        c.whole as int,
    );
    assert(20 * (cp * aw - ap * cw) > aw * cw) by (nonlinear_arith)
        requires
            aw > 0,
            bw > 0,
            cw > 0,
            20 * (bp * aw - ap * bw) > aw * bw,
            cp * bw >= bp * cw,
    {
        assert(20 * (bp * aw - ap * bw) * cw > aw * bw * cw);
        assert(cp * bw * aw >= bp * cw * aw);
        assert(20 * (cp * aw - ap * cw) * bw > aw * cw * bw);
    }
}

/// A fragment that gains scripts keeps its baseline and its font.
pub proof fn scripts_change_neither_baseline_nor_font(
    f: FragmentModel,
    items: Seq<TextItem>,
    page_width: int,
)
    ensures
        enriched(f, items, page_width).baseline == f.baseline,
        enriched(f, items, page_width).metrics.baseline == f.baseline,
        enriched(f, items, page_width).metrics.font_size == f.metrics.font_size,
        enriched(f, items, page_width).metrics.font_size_estimated
            == f.metrics.font_size_estimated,
{
}

/// Two pieces are read as one index where they are within a twentieth as large, on lines a tenth
/// of a size apart, overlap by at most a tenth and are at most half a size apart, have together no
/// more characters than an index, and are together a script of what they stand beside.
pub proof fn pieces_of_an_index_stand_close(
    seed: FragmentModel,
    next: FragmentModel,
    parent: FragmentModel,
    page_width: int,
)
    requires
        continues(seed, next, parent, page_width),
    ensures
        ({
            let size = seed.metrics.font_size as int;
            let gap = if parent.direction == WritingDirection::RightToLeft {
                seed.bbox.left - next.bbox.right
            } else {
                next.bbox.left - seed.bbox.right
            };
            &&& 20 * apart(size, next.metrics.font_size as int) <= size
            &&& 10 * apart(seed.baseline.start.y as int, next.baseline.start.y as int) <= size
            &&& 10 * gap >= -size && 2 * gap <= size
            &&& runs_ink(seed.items, seed.items.len() as int) + runs_ink(
                next.items,
                next.items.len() as int,
            ) <= 12
            &&& is_index_of(fragment_of(seed.items + next.items, page_width), parent)
        }),
{
    scripts_are_small_and_shifted(fragment_of(seed.items + next.items, page_width), parent);
}

/// Every fragment that hangs on none stays, with its own runs first; a fragment that hangs on
/// another is gone from the list.
pub proof fn scripts_move_to_their_parents(fs: Seq<FragmentModel>, n: int, page_width: int)
    requires
        0 <= n <= fs.len(),
    ensures
        forall|i: int|
            0 <= i < n && owner_of(fs, i) is None && (forall|j: int|
                0 <= j < fs.len() ==> !hangs_on(fs, j, i)) ==> settled_upto(
                fs,
                n,
                page_width,
            ).contains(#[trigger] fs[i]),
        settled_upto(fs, n, page_width).len() == standing(fs, n),
    decreases n,
{
    if n > 0 {
        scripts_move_to_their_parents(fs, n - 1, page_width);
        let before = settled_upto(fs, n - 1, page_width);
        let after = settled_upto(fs, n, page_width);
        assert forall|i: int|
            0 <= i < n && owner_of(fs, i) is None && (forall|j: int|
                0 <= j < fs.len() ==> !hangs_on(fs, j, i)) implies after.contains(
            #[trigger] fs[i],
        ) by {
            if i < n - 1 {
                assert(before.contains(fs[i]));
                let k = before.index_of(fs[i]);
                assert(after[k] == fs[i]);
            } else {
                assert(after[before.len() as int] == fs[i]);
            }
        }
    }
}

/// How many of the first fragments hang on none.
pub open spec fn standing(fs: Seq<FragmentModel>, n: int) -> int
    decreases n,
{
    if n <= 0 {
        0
    } else {
        standing(fs, n - 1) + if owner_of(fs, n - 1) is None {
            1int
        } else {
            0
        }
    }
}

} // verus!
