//! Attachment of raised and lowered runs to the text they belong to.

use vstd::math::{abs, min};
use vstd::prelude::*;

use super::axes::{is_level, level};
use super::fragment::{
    arranged, arranging_keeps_runs, fragment_fault, fragment_of, ink_up_to, lemma_owned_concat,
    lemma_owned_push, lemma_owned_remove, lemma_owned_update, lemma_runs_ink, lemma_single_fault,
    models, owned, owned_upto, runs_ink, FragmentModel, LineFragment,
};
use super::metrics::{
    lemma_fault_stays, lemma_sound_runs, run_fault, runs_fault, LineMetrics,
};
use crate::chars::ink;
use crate::error::LineError;
use crate::geometry::distance;
use crate::types::{copy_items, TextItem, WritingDirection};

verus! {

/// How far a run is from a parent, as a fraction of the parent's font size.
#[derive(Debug, Clone, Copy, PartialEq, Eq, Structural)]
pub struct Score {
    pub part: i64,
    pub whole: i64,
}

impl Score {
    /// Whether the fraction makes sense.
    pub open spec fn wf(self) -> bool {
        0 <= self.part <= 0x10_0000_0000 && 0 < self.whole <= 0x1_0000_0000
    }

    /// Whether this fraction is smaller.
    pub open spec fn below(self, other: Score) -> bool {
        self.part * other.whole < other.part * self.whole
    }

    /// Whether this fraction is more than a twentieth smaller.
    pub open spec fn well_below(self, other: Score) -> bool {
        20 * (other.part * self.whole - self.part * other.whole) > self.whole * other.whole
    }

    /// Whether this fraction is smaller.
    pub fn is_below(&self, other: &Score) -> (yes: bool)
        requires
            self.wf(),
            other.wf(),
        ensures
            yes == self.below(*other),
    {
        proof {
            lemma_score_product(self.part as int, other.whole as int);
            lemma_score_product(other.part as int, self.whole as int);
        }
        (self.part as i128) * (other.whole as i128) < (other.part as i128) * (self.whole as i128)
    }

    /// Whether this fraction is more than a twentieth smaller.
    pub fn is_well_below(&self, other: &Score) -> (yes: bool)
        requires
            self.wf(),
            other.wf(),
        ensures
            yes == self.well_below(*other),
    {
        proof {
            lemma_score_product(self.part as int, other.whole as int);
            lemma_score_product(other.part as int, self.whole as int);
            lemma_score_product(self.whole as int, other.whole as int);
        }
        20 * ((other.part as i128) * (self.whole as i128) - (self.part as i128) * (
        other.whole as i128)) > (self.whole as i128) * (other.whole as i128)
    }
}

proof fn lemma_score_product(a: int, b: int)
    requires
        0 <= a <= 0x10_0000_0000,
        0 <= b <= 0x1_0000_0000,
    ensures
        0 <= a * b <= 0x10_0000_0000_0000_0000,
{
    assert(0 <= a * b <= 0x10_0000_0000_0000_0000) by (nonlinear_arith)
        requires
            0 <= a <= 0x10_0000_0000,
            0 <= b <= 0x1_0000_0000,
    ;
}

/// Whether a fragment is read along the page.
pub open spec fn upright(f: FragmentModel) -> bool {
    level(f.rotation.angle as int) && f.direction != WritingDirection::Vertical
}

/// Whether a font size is between 45 and 85 percent of a larger one.
pub open spec fn script_sized(size: int, parent: int) -> bool {
    parent > 0 && 45 * parent <= 100 * size <= 85 * parent
}

/// The smallest doubled mean height of the stated baselines of the first `n` runs.
pub open spec fn stated_baseline(items: Seq<TextItem>, n: int) -> Option<int>
    decreases n,
{
    if n <= 0 {
        None
    } else {
        let before = stated_baseline(items, n - 1);
        match items[n - 1].baseline {
            None => before,
            Some(line) => {
                let here = line.start.y + line.end.y;
                match before {
                    None => Some(here),
                    Some(best) => Some(min(best, here)),
                }
            },
        }
    }
}

/// Twice the height on which a fragment rests: a stated baseline where there is
/// one, else its own.
pub open spec fn rest_y2(f: FragmentModel) -> int {
    match stated_baseline(f.items, f.items.len() as int) {
        Some(y2) => y2,
        None => 2 * f.baseline.start.y,
    }
}

/// Whether a character joins the parts of a compound index.
pub open spec fn joins_index(c: char) -> bool {
    c == '+' || c == '-' || c == '\u{2212}' || c == '=' || c == '<' || c == '>' || c == '/' || c
        == '*'
}

/// Whether a text is nothing but a character that joins the parts of a compound index.
pub open spec fn is_joint(text: Seq<char>) -> bool {
    ink(text) == 1 && exists|k: int| 0 <= k < text.len() && joins_index(#[trigger] text[k])
}

/// Whether runs may be a compound index: several pieces, with an operator among them.
pub open spec fn is_compound(items: Seq<TextItem>) -> bool {
    items.len() > 1 && exists|i: int|
        0 <= i < items.len() && is_joint((#[trigger] items[i]).raw_text@)
}

/// How many characters an index has at most: a compound one has as many as a limit of an operator.
pub open spec fn index_limit(compound: bool) -> int {
    if compound {
        12
    } else {
        4
    }
}

/// How wide an index is at most, in font sizes of its parent.
pub open spec fn index_reach(compound: bool) -> int {
    if compound {
        3
    } else {
        2
    }
}

/// Whether `script` is a short run beside `parent`, in a smaller font and not too far off its line.
pub open spec fn is_beside(script: FragmentModel, parent: FragmentModel) -> bool {
    let size = parent.metrics.font_size as int;
    let shift2 = abs(rest_y2(script) - rest_y2(parent)) as int;
    &&& upright(script)
    &&& upright(parent)
    &&& !script.metrics.font_size_estimated
    &&& !parent.metrics.font_size_estimated
    &&& script_sized(script.metrics.font_size as int, size)
    &&& 1 <= runs_ink(script.items, script.items.len() as int) <= index_limit(
        is_compound(script.items),
    )
    &&& script.bbox.wide() <= index_reach(is_compound(script.items)) * size
    &&& script.bbox.high() <= parent.bbox.high()
    &&& parent.direction == WritingDirection::LeftToRight ==> script.bbox.mid_x2() >= 2
        * parent.bbox.left
    &&& parent.direction == WritingDirection::RightToLeft ==> script.bbox.mid_x2() <= 2
        * parent.bbox.right
    &&& 5 * script.bbox.overlap_y(parent.bbox) >= script.bbox.high()
    &&& 4 * script.bbox.gap_x(parent.bbox) <= size
    &&& 5 * shift2 <= 9 * size + 200
}

/// Whether `script` is a short raised or lowered run beside `parent`.
pub open spec fn is_script(script: FragmentModel, parent: FragmentModel) -> bool {
    let size = parent.metrics.font_size as int;
    let shift2 = abs(rest_y2(script) - rest_y2(parent)) as int;
    let center2 = abs(script.bbox.mid_y2() - parent.bbox.mid_y2()) as int;
    &&& is_beside(script, parent)
    &&& 10 * (shift2 + 40) >= 3 * size
    &&& 10 * center2 >= 3 * size
}

/// Whether measured baselines attest a shallow script beside `parent`: tight boxes shift less
/// than loose ones.
pub open spec fn is_shallow(script: FragmentModel, parent: FragmentModel) -> bool {
    let size = parent.metrics.font_size as int;
    let shift2 = abs(rest_y2(script) - rest_y2(parent)) as int;
    let center2 = abs(script.bbox.mid_y2() - parent.bbox.mid_y2()) as int;
    &&& is_beside(script, parent)
    &&& stated_baseline(script.items, script.items.len() as int) is Some
    &&& stated_baseline(parent.items, parent.items.len() as int) is Some
    &&& 4 * (shift2 + 40) >= size
    &&& 4 * center2 >= size
}

/// Whether `script` may belong to `parent`, shallow or not.
pub open spec fn may_belong(script: FragmentModel, parent: FragmentModel, shallow: bool) -> bool {
    if shallow {
        is_shallow(script, parent)
    } else {
        is_script(script, parent)
    }
}

/// How far a script is from its parent.
pub open spec fn score_of(script: FragmentModel, parent: FragmentModel) -> Score {
    Score {
        part: (abs(script.bbox.mid_y2() - parent.bbox.mid_y2()) + 2 * script.bbox.gap_x(
            parent.bbox,
        )) as i64,
        whole: (2 * parent.metrics.font_size) as i64,
    }
}

/// Whether two pieces of one index may be read together.
pub open spec fn continues(
    seed: FragmentModel,
    next: FragmentModel,
    parent: FragmentModel,
    page_width: int,
) -> bool {
    let size = seed.metrics.font_size as int;
    let gap = if parent.direction == WritingDirection::RightToLeft {
        seed.bbox.left - next.bbox.right
    } else {
        next.bbox.left - seed.bbox.right
    };
    &&& 20 * abs(size - next.metrics.font_size) <= size
    &&& 10 * abs(seed.baseline.start.y - next.baseline.start.y) <= size
    &&& -size <= 10 * gap
    &&& 2 * gap <= size
    &&& runs_ink(seed.items, seed.items.len() as int) + runs_ink(
        next.items,
        next.items.len() as int,
    ) <= index_limit(is_compound(seed.items + next.items))
    &&& fragment_fault(seed.items + next.items) is None
    &&& is_script(fragment_of(seed.items + next.items, page_width), parent)
}

/// First continuation of `seed` beside `parent`, from `next` on.
pub open spec fn next_from(
    fs: Seq<FragmentModel>,
    seed: int,
    parent: int,
    next: int,
    page_width: int,
) -> Option<int>
    decreases fs.len() - next,
{
    if next >= fs.len() || next < 0 {
        None
    } else if next != seed && continues(fs[seed], fs[next], fs[parent], page_width) {
        Some(next)
    } else {
        next_from(fs, seed, parent, next + 1, page_width)
    }
}

/// First continuation of `seed` beside any of its parents, from `parent` on.
pub open spec fn parent_from(
    fs: Seq<FragmentModel>,
    seed: int,
    parent: int,
    page_width: int,
) -> Option<int>
    decreases fs.len() - parent,
{
    if parent >= fs.len() || parent < 0 {
        None
    } else {
        let found = if is_script(fs[seed], fs[parent]) {
            next_from(fs, seed, parent, 0, page_width)
        } else {
            None
        };
        match found {
            Some(next) => Some(next),
            None => parent_from(fs, seed, parent + 1, page_width),
        }
    }
}

/// First two pieces of one index, from `seed` on.
pub open spec fn pieces_from(fs: Seq<FragmentModel>, seed: int, page_width: int) -> Option<(int, int)>
    decreases fs.len() - seed,
{
    if seed >= fs.len() || seed < 0 {
        None
    } else {
        match parent_from(fs, seed, 0, page_width) {
            Some(next) => Some(
                (
                    if seed < next {
                        seed
                    } else {
                        next
                    },
                    if seed < next {
                        next
                    } else {
                        seed
                    },
                ),
            ),
            None => pieces_from(fs, seed + 1, page_width),
        }
    }
}

/// The fragments with `right` moved into `left`.
pub open spec fn merged(fs: Seq<FragmentModel>, left: int, right: int, page_width: int) -> Seq<
    FragmentModel,
> {
    fs.remove(right).update(left, fragment_of(fs[left].items + fs[right].items, page_width))
}

/// The fragments after all pieces of indices were joined.
pub open spec fn joined(fs: Seq<FragmentModel>, page_width: int) -> Seq<FragmentModel>
    decreases fs.len(),
{
    match pieces_from(fs, 0, page_width) {
        Some((left, right)) => if 0 <= left < right < fs.len() {
            joined(merged(fs, left, right, page_width), page_width)
        } else {
            fs
        },
        None => fs,
    }
}

/// Whether a fragment is a script of some other.
pub open spec fn has_parent(f: FragmentModel, fs: Seq<FragmentModel>) -> bool {
    exists|p: int| 0 <= p < fs.len() && is_script(f, #[trigger] fs[p])
}

/// Whether some single run of a fragment would be a script of `parent`.
pub open spec fn run_fits(f: FragmentModel, parent: FragmentModel, page_width: int) -> bool {
    exists|i: int|
        0 <= i < f.items.len() && run_fault(#[trigger] f.items[i]) is None && is_script(
            fragment_of(seq![f.items[i]], page_width),
            parent,
        )
}

/// Whether a fragment may hold scripts of `parent` run by run.
pub open spec fn band_fits(f: FragmentModel, parent: FragmentModel, page_width: int) -> bool {
    &&& !parent.metrics.font_size_estimated
    &&& script_sized(f.metrics.font_size as int, parent.metrics.font_size as int)
    &&& f.bbox.overlap_y(parent.bbox) > 0
    &&& run_fits(f, parent, page_width)
}

/// Whether a band of small runs is reconsidered run by run.
pub open spec fn splits(f: FragmentModel, fs: Seq<FragmentModel>, page_width: int) -> bool {
    &&& f.items.len() > 1
    &&& !f.metrics.font_size_estimated
    &&& !has_parent(f, fs)
    &&& exists|p: int| 0 <= p < fs.len() && band_fits(f, #[trigger] fs[p], page_width)
}

/// The first `n` runs, each as a fragment of its own.
pub open spec fn singles(items: Seq<TextItem>, n: int, page_width: int) -> Seq<FragmentModel>
    decreases n,
{
    if n <= 0 {
        Seq::empty()
    } else {
        singles(items, n - 1, page_width).push(fragment_of(seq![items[n - 1]], page_width))
    }
}

/// The first `n` fragments, bands of scripts taken apart.
pub open spec fn split_upto(fs: Seq<FragmentModel>, n: int, page_width: int) -> Seq<FragmentModel>
    decreases n,
{
    if n <= 0 {
        Seq::empty()
    } else {
        let before = split_upto(fs, n - 1, page_width);
        let f = fs[n - 1];
        if splits(f, fs, page_width) {
            before + singles(f.items, f.items.len() as int, page_width)
        } else {
            before.push(f)
        }
    }
}

/// The nearest parent among the first `n` fragments and the runner-up's score.
pub open spec fn nearest_upto(fs: Seq<FragmentModel>, script: int, n: int, shallow: bool) -> (
    Option<(int, Score)>,
    Option<Score>,
)
    decreases n,
{
    if n <= 0 {
        (None, None)
    } else {
        let (best, second) = nearest_upto(fs, script, n - 1, shallow);
        if n - 1 == script || !may_belong(fs[script], fs[n - 1], shallow) {
            (best, second)
        } else {
            let score = score_of(fs[script], fs[n - 1]);
            match best {
                None => (Some((n - 1, score)), None),
                Some((_, current)) => if score.below(current) {
                    (Some((n - 1, score)), Some(current))
                } else {
                    (
                        best,
                        match second {
                            None => Some(score),
                            Some(other) => if score.below(other) {
                                Some(score)
                            } else {
                                Some(other)
                            },
                        },
                    )
                },
            }
        }
    }
}

/// The parent of a fragment among those considered: the nearest, if no other is almost as near.
pub open spec fn chosen_of(fs: Seq<FragmentModel>, script: int, shallow: bool) -> Option<int> {
    match nearest_upto(fs, script, fs.len() as int, shallow) {
        (Some((parent, score)), None) => Some(parent),
        (Some((parent, score)), Some(second)) => if score.well_below(second) {
            Some(parent)
        } else {
            None
        },
        _ => None,
    }
}

/// The parent of a fragment; a shallow one only where nothing else is near.
pub open spec fn owner_of(fs: Seq<FragmentModel>, script: int) -> Option<int> {
    if nearest_upto(fs, script, fs.len() as int, false).0 is Some {
        chosen_of(fs, script, false)
    } else {
        chosen_of(fs, script, true)
    }
}

/// The fragment at the end of the chain of parents.
pub open spec fn root_of(fs: Seq<FragmentModel>, i: int) -> int
    decreases i32::MAX - fs[i].metrics.font_size,
{
    match owner_of(fs, i) {
        Some(p) => if fs[p].metrics.font_size > fs[i].metrics.font_size {
            root_of(fs, p)
        } else {
            i
        },
        None => i,
    }
}

/// Whether fragment `j` is a script at the end of whose chain stands `i`.
pub open spec fn hangs_on(fs: Seq<FragmentModel>, j: int, i: int) -> bool {
    owner_of(fs, j) is Some && root_of(fs, j) == i
}

/// The runs of `i` followed by those of its scripts among the first `n` fragments.
pub open spec fn gathered(fs: Seq<FragmentModel>, i: int, n: int) -> Seq<TextItem>
    decreases n,
{
    if n <= 0 {
        fs[i].items
    } else if hangs_on(fs, n - 1, i) {
        gathered(fs, i, n - 1) + fs[n - 1].items
    } else {
        gathered(fs, i, n - 1)
    }
}

/// A fragment that gained scripts: its extent grows, its baseline and font stay.
pub open spec fn enriched(f: FragmentModel, items: Seq<TextItem>, page_width: int) -> FragmentModel {
    let rebuilt = fragment_of(items, page_width);
    FragmentModel {
        baseline: f.baseline,
        metrics: LineMetrics {
            baseline: f.baseline,
            font_size: f.metrics.font_size,
            font_size_estimated: f.metrics.font_size_estimated,
            ..rebuilt.metrics
        },
        ..rebuilt
    }
}

/// Whether some fragment hangs on `i`.
pub open spec fn has_scripts(fs: Seq<FragmentModel>, i: int) -> bool {
    exists|j: int| 0 <= j < fs.len() && #[trigger] hangs_on(fs, j, i)
}

/// The first `n` fragments that are no scripts, each with its scripts.
pub open spec fn settled_upto(fs: Seq<FragmentModel>, n: int, page_width: int) -> Seq<FragmentModel>
    decreases n,
{
    if n <= 0 {
        Seq::empty()
    } else {
        let before = settled_upto(fs, n - 1, page_width);
        let i = n - 1;
        if owner_of(fs, i) is Some {
            before
        } else if has_scripts(fs, i) {
            before.push(enriched(fs[i], gathered(fs, i, fs.len() as int), page_width))
        } else {
            before.push(fs[i])
        }
    }
}

/// The fragments with every unambiguous script moved to its parent.
pub open spec fn with_scripts(fs: Seq<FragmentModel>, page_width: int) -> Seq<FragmentModel> {
    let whole = joined(fs, page_width);
    let parts = split_upto(whole, whole.len() as int, page_width);
    settled_upto(parts, parts.len() as int, page_width)
}

/// Why the pieces of indices cannot be joined, if they cannot.
pub open spec fn joined_fault(fs: Seq<FragmentModel>, page_width: int) -> Option<LineError>
    decreases fs.len(),
{
    match pieces_from(fs, 0, page_width) {
        Some((left, right)) => if 0 <= left < right < fs.len() {
            match fragment_fault(fs[left].items + fs[right].items) {
                Some(e) => Some(e),
                None => joined_fault(merged(fs, left, right, page_width), page_width),
            }
        } else {
            None
        },
        None => None,
    }
}

/// Why the bands of scripts among the first `n` fragments cannot be taken apart, if they cannot.
pub open spec fn split_fault(fs: Seq<FragmentModel>, n: int, page_width: int) -> Option<LineError>
    decreases n,
{
    if n <= 0 {
        None
    } else {
        match split_fault(fs, n - 1, page_width) {
            Some(e) => Some(e),
            None => if splits(fs[n - 1], fs, page_width) {
                runs_fault(fs[n - 1].items, fs[n - 1].items.len() as int)
            } else {
                None
            },
        }
    }
}

/// Why the first `n` fragments cannot take up their scripts, if they cannot.
pub open spec fn settled_fault(fs: Seq<FragmentModel>, n: int) -> Option<LineError>
    decreases n,
{
    if n <= 0 {
        None
    } else {
        match settled_fault(fs, n - 1) {
            Some(e) => Some(e),
            None => if owner_of(fs, n - 1) is None && has_scripts(fs, n - 1) {
                fragment_fault(gathered(fs, n - 1, fs.len() as int))
            } else {
                None
            },
        }
    }
}

/// Why scripts cannot be moved to their parents, if they cannot: runs without an extent would
/// have to make a fragment.
pub open spec fn scripts_fault(fs: Seq<FragmentModel>, page_width: int) -> Option<LineError> {
    match joined_fault(fs, page_width) {
        Some(e) => Some(e),
        None => {
            let whole = joined(fs, page_width);
            match split_fault(whole, whole.len() as int, page_width) {
                Some(e) => Some(e),
                None => {
                    let parts = split_upto(whole, whole.len() as int, page_width);
                    settled_fault(parts, parts.len() as int)
                },
            }
        },
    }
}

/// Whether a fragment is read along the page.
fn is_upright(f: &LineFragment) -> (yes: bool)
    ensures
        yes == upright(f@),
{
    is_level(f.rotation.angle) && f.direction != WritingDirection::Vertical
}

/// Whether a font size is between 45 and 85 percent of a larger one.
pub fn is_script_sized(size: i32, parent: i32) -> (yes: bool)
    ensures
        yes == script_sized(size as int, parent as int),
{
    let s: i64 = 100 * (size as i64);
    parent > 0 && 45 * (parent as i64) <= s && s <= 85 * (parent as i64)
}

/// Twice the height on which a fragment rests.
fn rest_height2(f: &LineFragment) -> (y2: i64)
    ensures
        y2 == rest_y2(f@),
        -0x1_0000_0000 <= y2 <= 0x1_0000_0000,
{
    let mut best: Option<i64> = None;
    let mut i: usize = 0;
    while i < f.items.len()
        invariant
            i <= f.items@.len(),
            match best {
                None => stated_baseline(f.items@, i as int) is None,
                Some(y2) => stated_baseline(f.items@, i as int) == Some(y2 as int)
                    && -0x1_0000_0000 <= y2 <= 0x1_0000_0000,
            },
        decreases f.items@.len() - i,
    {
        match f.items[i].baseline {
            None => {},
            Some(line) => {
                let here: i64 = line.start.y as i64 + line.end.y as i64;
                best = match best {
                    None => Some(here),
                    Some(y2) => if y2 <= here {
                        Some(y2)
                    } else {
                        Some(here)
                    },
                };
            },
        }
        i = i + 1;
    }
    match best {
        Some(y2) => y2,
        None => 2 * (f.baseline.start.y as i64),
    }
}

/// Whether a run is nothing but a character that joins the parts of a compound index.
fn is_joint_run(item: &TextItem) -> (yes: bool)
    ensures
        yes == is_joint(item.raw_text@),
{
    if item.raw_text.ink_count() != 1 {
        return false;
    }
    let all: Vec<char> = item.raw_text.chars();
    let mut k: usize = 0;
    while k < all.len()
        invariant
            all@ == item.raw_text@,
            k <= all@.len(),
            ink(item.raw_text@) == 1,
            forall|j: int| 0 <= j < k ==> !joins_index(#[trigger] all@[j]),
        decreases all@.len() - k,
    {
        let c: char = all[k];
        if c == '+' || c == '-' || c == '\u{2212}' || c == '=' || c == '<' || c == '>' || c == '/'
            || c == '*' {
            assert(joins_index(all@[k as int]));
            return true;
        }
        k = k + 1;
    }
    false
}

/// Whether one of some runs is an operator.
fn holds_joint(items: &Vec<TextItem>) -> (yes: bool)
    ensures
        yes == exists|i: int| 0 <= i < items@.len() && is_joint((#[trigger] items@[i]).raw_text@),
{
    let mut i: usize = 0;
    while i < items.len()
        invariant
            i <= items@.len(),
            forall|j: int| 0 <= j < i ==> !is_joint((#[trigger] items@[j]).raw_text@),
        decreases items@.len() - i,
    {
        if is_joint_run(&items[i]) {
            assert(is_joint(items@[i as int].raw_text@));
            return true;
        }
        i = i + 1;
    }
    false
}

/// Whether a run of a fragment has a measured baseline.
fn is_measured(f: &LineFragment) -> (yes: bool)
    ensures
        yes == (stated_baseline(f.items@, f.items@.len() as int) is Some),
{
    let mut i: usize = 0;
    while i < f.items.len()
        invariant
            i <= f.items@.len(),
            stated_baseline(f.items@, i as int) is None,
        decreases f.items@.len() - i,
    {
        if f.items[i].baseline.is_some() {
            proof {
                lemma_stated(f.items@, i + 1, f.items@.len() as int);
            }
            return true;
        }
        i = i + 1;
    }
    false
}

/// A baseline once stated stays stated.
proof fn lemma_stated(items: Seq<TextItem>, part: int, n: int)
    requires
        part <= n,
        stated_baseline(items, part) is Some,
    ensures
        stated_baseline(items, n) is Some,
    decreases n - part,
{
    if part < n {
        lemma_stated(items, part, n - 1);
    }
}

impl LineFragment {
    /// Scores a short raised or lowered run against a nearby upright parent.
    pub fn script_parent_score(&self, parent: &LineFragment) -> (score: Option<Score>)
        ensures
            score is Some == is_script(self@, parent@),
            score matches Some(s) ==> s == score_of(self@, parent@) && s.wf(),
    {
        self.score_beside(parent, false)
    }

    /// Scores a short run against a nearby upright parent, as a shallow script or as another.
    fn score_beside(&self, parent: &LineFragment, shallow: bool) -> (score: Option<Score>)
        ensures
            score is Some == may_belong(self@, parent@, shallow),
            score matches Some(s) ==> s == score_of(self@, parent@) && s.wf(),
    {
        let size: i64 = parent.metrics.font_size as i64;
        if !is_upright(self) || !is_upright(parent) || self.metrics.font_size_estimated
            || parent.metrics.font_size_estimated || !is_script_sized(
            self.metrics.font_size,
            parent.metrics.font_size,
        ) {
            return None;
        }
        let count: usize = ink_up_to(&self.items, 13);
        let compound: bool = self.items.len() > 1 && holds_joint(&self.items);
        let limit: usize = if compound {
            12
        } else {
            4
        };
        let reach: i64 = if compound {
            3 * size
        } else {
            2 * size
        };
        if count < 1 || count > limit || self.bbox.width() > reach || self.bbox.height()
            > parent.bbox.height() {
            return None;
        }
        let cx2: i64 = self.bbox.center_x2();
        if (parent.direction == WritingDirection::LeftToRight && cx2 < 2 * (parent.bbox.left as i64))
            || (parent.direction == WritingDirection::RightToLeft && cx2 > 2 * (
        parent.bbox.right as i64)) {
            return None;
        }
        let overlap: i64 = self.bbox.vertical_overlap(&parent.bbox);
        let gap: i64 = self.bbox.horizontal_gap(&parent.bbox);
        let shift2: i128 = distance(rest_height2(self), rest_height2(parent));
        let center2: i128 = distance(self.bbox.center_y2(), parent.bbox.center_y2());
        let wide: i128 = size as i128;
        if 5 * overlap < self.bbox.height() || 4 * gap > size || 5 * shift2 > 9 * wide + 200 {
            return None;
        }
        let shifted: bool = if shallow {
            is_measured(self) && is_measured(parent) && 4 * (shift2 + 40) >= wide && 4 * center2
                >= wide
        } else {
            10 * (shift2 + 40) >= 3 * wide && 10 * center2 >= 3 * wide
        };
        if shifted {
            Some(Score { part: center2 as i64 + 2 * gap, whole: 2 * size })
        } else {
            None
        }
    }
}

/// Whether `next` continues `seed`, a script of `parent`.
fn does_continue(seed: &LineFragment, next: &LineFragment, parent: &LineFragment, page_width: i32) -> (yes: bool)
    requires
        is_script(seed@, parent@),
    ensures
        yes == continues(seed@, next@, parent@, page_width as int),
{
    let size: i64 = seed.metrics.font_size as i64;
    let gap: i64 = if parent.direction == WritingDirection::RightToLeft {
        seed.bbox.left as i64 - next.bbox.right as i64
    } else {
        next.bbox.left as i64 - seed.bbox.right as i64
    };
    let size_shift: i128 = distance(size, next.metrics.font_size as i64);
    let line_shift: i128 = distance(seed.baseline.start.y as i64, next.baseline.start.y as i64);
    if 20 * size_shift > size as i128 || 10 * line_shift > size as i128 || 10 * gap < -size || 2
        * gap > size {
        return false;
    }
    proof {
        lemma_runs_ink(seed.items@, 0, seed.items@.len() as int);
        lemma_runs_ink(next.items@, 0, next.items@.len() as int);
        lemma_script_has_runs(seed@, parent@);
    }
    let mut items: Vec<TextItem> = copy_items(&seed.items);
    let mut more: Vec<TextItem> = copy_items(&next.items);
    items.append(&mut more);
    assert(items@ =~= seed.items@ + next.items@);
    let limit: usize = if items.len() > 1 && holds_joint(&items) {
        12
    } else {
        4
    };
    if ink_up_to(&seed.items, 13) + ink_up_to(&next.items, 13) > limit {
        return false;
    }
    match LineFragment::from_items(items, page_width) {
        Err(_) => false,
        Ok(run) => run.script_parent_score(parent).is_some(),
    }
}

/// A script has at least one run.
proof fn lemma_script_has_runs(script: FragmentModel, parent: FragmentModel)
    requires
        is_beside(script, parent),
    ensures
        script.items.len() > 0,
{
    assert(runs_ink(script.items, 0) == 0);
}

/// First continuation of `seed` beside any of its parents.
fn find_continuation(fs: &Vec<LineFragment>, seed: usize, page_width: i32) -> (found: Option<usize>)
    requires
        seed < fs@.len(),
    ensures
        match found {
            None => parent_from(models(fs@), seed as int, 0, page_width as int) is None,
            Some(next) => parent_from(models(fs@), seed as int, 0, page_width as int) == Some(
                next as int,
            ) && next < fs@.len() && next != seed,
        },
{
    let ghost all = models(fs@);
    let mut parent: usize = 0;
    while parent < fs.len()
        invariant
            seed < fs@.len(),
            all == models(fs@),
            parent <= fs@.len(),
            parent_from(all, seed as int, 0, page_width as int) == parent_from(
                all,
                seed as int,
                parent as int,
                page_width as int,
            ),
        decreases fs@.len() - parent,
    {
        if fs[seed].script_parent_score(&fs[parent]).is_some() {
            let mut next: usize = 0;
            while next < fs.len()
                invariant
                    seed < fs@.len(),
                    parent < fs@.len(),
                    all == models(fs@),
                    next <= fs@.len(),
                    is_script(all[seed as int], all[parent as int]),
                    parent_from(all, seed as int, 0, page_width as int) == parent_from(
                        all,
                        seed as int,
                        parent as int,
                        page_width as int,
                    ),
                    next_from(all, seed as int, parent as int, 0, page_width as int) == next_from(
                        all,
                        seed as int,
                        parent as int,
                        next as int,
                        page_width as int,
                    ),
                decreases fs@.len() - next,
            {
                if next != seed && does_continue(&fs[seed], &fs[next], &fs[parent], page_width) {
                    return Some(next);
                }
                next = next + 1;
            }
        }
        parent = parent + 1;
    }
    None
}

/// First two pieces of one index.
fn find_pieces(fs: &Vec<LineFragment>, page_width: i32) -> (found: Option<(usize, usize)>)
    ensures
        match found {
            None => pieces_from(models(fs@), 0, page_width as int) is None,
            Some((left, right)) => pieces_from(models(fs@), 0, page_width as int) == Some(
                (left as int, right as int),
            ) && left < right < fs@.len(),
        },
{
    let ghost all = models(fs@);
    let mut seed: usize = 0;
    while seed < fs.len()
        invariant
            all == models(fs@),
            seed <= fs@.len(),
            pieces_from(all, 0, page_width as int) == pieces_from(
                all,
                seed as int,
                page_width as int,
            ),
        decreases fs@.len() - seed,
    {
        match find_continuation(fs, seed, page_width) {
            Some(next) => {
                if seed < next {
                    return Some((seed, next));
                }
                return Some((next, seed));
            },
            None => {},
        }
        seed = seed + 1;
    }
    None
}

/// The pieces found have runs to read.
proof fn lemma_pieces_have_runs(fs: Seq<FragmentModel>, seed: int, page_width: int)
    requires
        0 <= seed,
        pieces_from(fs, seed, page_width) is Some,
    ensures
        ({
            let (left, right) = pieces_from(fs, seed, page_width)->0;
            0 <= left < right < fs.len() && (fs[left].items + fs[right].items).len() > 0
        }),
    decreases fs.len() - seed,
{
    if parent_from(fs, seed, 0, page_width) is None {
        lemma_pieces_have_runs(fs, seed + 1, page_width);
    } else {
        lemma_parent_found(fs, seed, 0, page_width);
    }
}

/// A seed with a continuation is a script, hence not empty.
proof fn lemma_parent_found(fs: Seq<FragmentModel>, seed: int, parent: int, page_width: int)
    requires
        0 <= seed < fs.len(),
        0 <= parent,
        parent_from(fs, seed, parent, page_width) is Some,
    ensures
        0 <= parent_from(fs, seed, parent, page_width)->0 < fs.len(),
        parent_from(fs, seed, parent, page_width)->0 != seed,
        fs[seed].items.len() > 0,
    decreases fs.len() - parent,
{
    if is_script(fs[seed], fs[parent]) && next_from(fs, seed, parent, 0, page_width) is Some {
        lemma_next_found(fs, seed, parent, 0, page_width);
        lemma_script_has_runs(fs[seed], fs[parent]);
    } else {
        lemma_parent_found(fs, seed, parent + 1, page_width);
    }
}

/// A continuation is another fragment of the list.
proof fn lemma_next_found(fs: Seq<FragmentModel>, seed: int, parent: int, next: int, page_width: int)
    requires
        0 <= next,
        next_from(fs, seed, parent, next, page_width) is Some,
    ensures
        0 <= next_from(fs, seed, parent, next, page_width)->0 < fs.len(),
        next_from(fs, seed, parent, next, page_width)->0 != seed,
    decreases fs.len() - next,
{
    if !(next != seed && continues(fs[seed], fs[next], fs[parent], page_width)) {
        lemma_next_found(fs, seed, parent, next + 1, page_width);
    }
}

/// Joins the pieces of indices that were split into several runs.
fn join_pieces(fragments: Vec<LineFragment>, page_width: i32) -> (made: Result<
    Vec<LineFragment>,
    LineError,
>)
    ensures
        match made {
            Ok(result) => joined_fault(models(fragments@), page_width as int) is None && models(
                result@,
            ) == joined(models(fragments@), page_width as int),
            Err(e) => joined_fault(models(fragments@), page_width as int) == Some(e),
        },
{
    let ghost goal = joined(models(fragments@), page_width as int);
    let ghost fault = joined_fault(models(fragments@), page_width as int);
    let mut fs: Vec<LineFragment> = fragments;
    loop
        invariant
            joined(models(fs@), page_width as int) == goal,
            joined_fault(models(fs@), page_width as int) == fault,
            goal == joined(models(fragments@), page_width as int),
            fault == joined_fault(models(fragments@), page_width as int),
        ensures
            models(fs@) == goal,
            fault is None,
        decreases fs@.len(),
    {
        let ghost before = models(fs@);
        match find_pieces(&fs, page_width) {
            None => {
                break;
            },
            Some((left, right)) => {
                proof {
                    lemma_pieces_have_runs(before, 0, page_width as int);
                }
                let other: LineFragment = fs.remove(right);
                let mut items: Vec<TextItem> = copy_items(&fs[left].items);
                let mut more: Vec<TextItem> = other.items;
                items.append(&mut more);
                assert(items@ =~= before[left as int].items + before[right as int].items);
                match LineFragment::from_items(items, page_width) {
                    Err(e) => {
                        return Err(e);
                    },
                    Ok(run) => {
                        fs.set(left, run);
                    },
                }
                assert(models(fs@) =~= merged(
                    before,
                    left as int,
                    right as int,
                    page_width as int,
                ));
            },
        }
    }
    Ok(fs)
}

/// Whether a fragment is a script of some other.
fn has_any_parent(f: &LineFragment, fs: &Vec<LineFragment>) -> (yes: bool)
    ensures
        yes == has_parent(f@, models(fs@)),
{
    let ghost all = models(fs@);
    let mut p: usize = 0;
    while p < fs.len()
        invariant
            all == models(fs@),
            p <= fs@.len(),
            forall|k: int| 0 <= k < p ==> !is_script(f@, #[trigger] all[k]),
        decreases fs@.len() - p,
    {
        if f.script_parent_score(&fs[p]).is_some() {
            assert(is_script(f@, all[p as int]));
            return true;
        }
        p = p + 1;
    }
    false
}

/// One run as a fragment of its own.
pub fn single(item: &TextItem, page_width: i32) -> (made: Result<LineFragment, LineError>)
    ensures
        match made {
            Ok(f) => run_fault(*item) is None && f@ == fragment_of(seq![*item], page_width as int),
            Err(e) => run_fault(*item) == Some(e),
        },
{
    let mut items: Vec<TextItem> = Vec::new();
    items.push(item.copy());
    assert(items@ =~= seq![*item]);
    proof {
        lemma_single_fault(*item);
    }
    LineFragment::from_items(items, page_width)
}

/// Every run as a fragment of its own.
pub fn list_singles(items: &Vec<TextItem>, page_width: i32) -> (made: Result<
    Vec<LineFragment>,
    LineError,
>)
    ensures
        match made {
            Ok(fs) => runs_fault(items@, items@.len() as int) is None && models(fs@) == singles(
                items@,
                items@.len() as int,
                page_width as int,
            ),
            Err(e) => runs_fault(items@, items@.len() as int) == Some(e),
        },
{
    let mut fs: Vec<LineFragment> = Vec::new();
    let mut n: usize = 0;
    assert(models(fs@) =~= Seq::empty());
    while n < items.len()
        invariant
            n <= items@.len(),
            runs_fault(items@, n as int) is None,
            models(fs@) == singles(items@, n as int, page_width as int),
        decreases items@.len() - n,
    {
        let ghost before = models(fs@);
        match single(&items[n], page_width) {
            Err(e) => {
                proof {
                    lemma_fault_stays(items@, n + 1, items@.len() as int);
                }
                return Err(e);
            },
            Ok(f) => {
                fs.push(f);
                assert(models(fs@) =~= before.push(f@));
            },
        }
        n = n + 1;
    }
    Ok(fs)
}

/// Whether a fragment may hold scripts of `parent` run by run.
fn does_band_fit(f: &LineFragment, parent: &LineFragment, page_width: i32) -> (yes: bool)
    ensures
        yes == band_fits(f@, parent@, page_width as int),
{
    if parent.metrics.font_size_estimated || !is_script_sized(
        f.metrics.font_size,
        parent.metrics.font_size,
    ) || f.bbox.vertical_overlap(&parent.bbox) <= 0 {
        return false;
    }
    let mut i: usize = 0;
    while i < f.items.len()
        invariant
            i <= f.items@.len(),
            !parent@.metrics.font_size_estimated,
            script_sized(f@.metrics.font_size as int, parent@.metrics.font_size as int),
            f@.bbox.overlap_y(parent@.bbox) > 0,
            forall|k: int|
                0 <= k < i ==> !(run_fault(#[trigger] f@.items[k]) is None && is_script(
                    fragment_of(seq![f@.items[k]], page_width as int),
                    parent@,
                )),
        decreases f.items@.len() - i,
    {
        if let Ok(alone) = single(&f.items[i], page_width) {
            if alone.script_parent_score(parent).is_some() {
                assert(run_fault(f@.items[i as int]) is None && is_script(
                    fragment_of(seq![f@.items[i as int]], page_width as int),
                    parent@,
                ));
                return true;
            }
        }
        i = i + 1;
    }
    false
}

/// Whether a band of small runs is reconsidered run by run.
fn does_split(f: &LineFragment, fs: &Vec<LineFragment>, page_width: i32) -> (yes: bool)
    ensures
        yes == splits(f@, models(fs@), page_width as int),
{
    if f.items.len() <= 1 || f.metrics.font_size_estimated || has_any_parent(f, fs) {
        return false;
    }
    let ghost all = models(fs@);
    let mut p: usize = 0;
    while p < fs.len()
        invariant
            all == models(fs@),
            p <= fs@.len(),
            f@.items.len() > 1,
            !f@.metrics.font_size_estimated,
            !has_parent(f@, all),
            forall|k: int| 0 <= k < p ==> !band_fits(f@, #[trigger] all[k], page_width as int),
        decreases fs@.len() - p,
    {
        if does_band_fit(f, &fs[p], page_width) {
            assert(band_fits(f@, all[p as int], page_width as int));
            return true;
        }
        p = p + 1;
    }
    false
}

/// A fault among the first bands stays the first one.
proof fn lemma_split_stops(fs: Seq<FragmentModel>, part: int, n: int, page_width: int)
    requires
        part <= n,
        split_fault(fs, part, page_width) is Some,
    ensures
        split_fault(fs, n, page_width) == split_fault(fs, part, page_width),
    decreases n - part,
{
    if part < n {
        lemma_split_stops(fs, part, n - 1, page_width);
    }
}

/// Takes bands of scripts of several parents apart.
fn split_bands(fs: &Vec<LineFragment>, page_width: i32) -> (made: Result<
    Vec<LineFragment>,
    LineError,
>)
    ensures
        match made {
            Ok(parts) => split_fault(models(fs@), fs@.len() as int, page_width as int) is None
                && models(parts@) == split_upto(models(fs@), fs@.len() as int, page_width as int),
            Err(e) => split_fault(models(fs@), fs@.len() as int, page_width as int) == Some(e),
        },
{
    let ghost all = models(fs@);
    let mut parts: Vec<LineFragment> = Vec::new();
    let mut n: usize = 0;
    assert(models(parts@) =~= Seq::empty());
    while n < fs.len()
        invariant
            all == models(fs@),
            n <= fs@.len(),
            split_fault(all, n as int, page_width as int) is None,
            models(parts@) == split_upto(all, n as int, page_width as int),
        decreases fs@.len() - n,
    {
        let f: &LineFragment = &fs[n];
        let ghost before = models(parts@);
        if does_split(f, fs, page_width) {
            match list_singles(&f.items, page_width) {
                Err(e) => {
                    proof {
                        lemma_split_stops(all, n + 1, all.len() as int, page_width as int);
                    }
                    return Err(e);
                },
                Ok(mut more) => {
                    let ghost here = models(more@);
                    parts.append(&mut more);
                    assert(models(parts@) =~= before + here);
                },
            }
        } else {
            parts.push(f.copy());
            assert(models(parts@) =~= before.push(f@));
        }
        n = n + 1;
    }
    Ok(parts)
}

/// What the nearest parent is known to be.
proof fn lemma_nearest(fs: Seq<FragmentModel>, script: int, n: int, shallow: bool)
    requires
        0 <= n <= fs.len(),
    ensures
        nearest_upto(fs, script, n, shallow).0 matches Some((p, _)) ==> 0 <= p < n && p != script
            && may_belong(fs[script], fs[p], shallow),
        nearest_upto(fs, script, n, shallow).0 is None ==> nearest_upto(
            fs,
            script,
            n,
            shallow,
        ).1 is None,
    decreases n,
{
    if n > 0 {
        lemma_nearest(fs, script, n - 1, shallow);
    }
}

/// A parent is another fragment with a larger font.
pub proof fn lemma_owner(fs: Seq<FragmentModel>, i: int)
    requires
        owner_of(fs, i) is Some,
    ensures
        0 <= owner_of(fs, i)->0 < fs.len(),
        owner_of(fs, i)->0 != i,
        is_beside(fs[i], fs[owner_of(fs, i)->0]),
        fs[owner_of(fs, i)->0].metrics.font_size > fs[i].metrics.font_size,
{
    lemma_nearest(fs, i, fs.len() as int, false);
    lemma_nearest(fs, i, fs.len() as int, true);
}

/// A chain of parents ends at a fragment that has none.
proof fn lemma_root(fs: Seq<FragmentModel>, i: int)
    requires
        0 <= i < fs.len(),
    ensures
        0 <= root_of(fs, i) < fs.len(),
        owner_of(fs, root_of(fs, i)) is None,
    decreases i32::MAX - fs[i].metrics.font_size,
{
    if owner_of(fs, i) is Some {
        lemma_owner(fs, i);
        lemma_root(fs, owner_of(fs, i)->0);
    }
}

/// The parent of a fragment, if one is unambiguous.
pub fn find_owner(fs: &Vec<LineFragment>, script: usize) -> (owner: Option<usize>)
    requires
        script < fs@.len(),
    ensures
        match owner {
            None => owner_of(models(fs@), script as int) is None,
            Some(p) => owner_of(models(fs@), script as int) == Some(p as int) && p < fs@.len(),
        },
{
    match find_chosen(fs, script, false) {
        Some(chosen) => chosen,
        None => match find_chosen(fs, script, true) {
            Some(chosen) => chosen,
            None => None,
        },
    }
}

/// The parent of a fragment among those considered; `None` where there is none at all.
fn find_chosen(fs: &Vec<LineFragment>, script: usize, shallow: bool) -> (found: Option<Option<usize>>)
    requires
        script < fs@.len(),
    ensures
        found is Some == (nearest_upto(models(fs@), script as int, fs@.len() as int, shallow).0
            is Some),
        match found {
            None => chosen_of(models(fs@), script as int, shallow) is None,
            Some(None) => chosen_of(models(fs@), script as int, shallow) is None,
            Some(Some(p)) => chosen_of(models(fs@), script as int, shallow) == Some(p as int) && p
                < fs@.len(),
        },
{
    let ghost all = models(fs@);
    let mut best: Option<(usize, Score)> = None;
    let mut second: Option<Score> = None;
    let mut n: usize = 0;
    while n < fs.len()
        invariant
            script < fs@.len(),
            all == models(fs@),
            n <= fs@.len(),
            match best {
                None => nearest_upto(all, script as int, n as int, shallow).0 is None,
                Some((p, s)) => nearest_upto(all, script as int, n as int, shallow).0 == Some(
                    (p as int, s),
                ) && p < fs@.len() && s.wf(),
            },
            second == nearest_upto(all, script as int, n as int, shallow).1,
            second matches Some(s) ==> s.wf(),
        decreases fs@.len() - n,
    {
        if n != script {
            match fs[script].score_beside(&fs[n], shallow) {
                None => {},
                Some(score) => {
                    match best {
                        None => {
                            proof {
                                lemma_nearest(all, script as int, n as int, shallow);
                            }
                            best = Some((n, score));
                        },
                        Some((p, current)) => {
                            if score.is_below(&current) {
                                second = Some(current);
                                best = Some((n, score));
                            } else {
                                match second {
                                    None => {
                                        second = Some(score);
                                    },
                                    Some(other) => {
                                        if score.is_below(&other) {
                                            second = Some(score);
                                        }
                                    },
                                }
                            }
                        },
                    }
                },
            }
        }
        n = n + 1;
    }
    match best {
        None => None,
        Some((p, score)) => Some(
            match second {
                None => Some(p),
                Some(other) => if score.is_well_below(&other) {
                    Some(p)
                } else {
                    None
                },
            },
        ),
    }
}

/// Whether a list of parents belongs to these fragments.
spec fn are_owners(owners: Seq<Option<usize>>, fs: Seq<FragmentModel>, n: int) -> bool {
    &&& owners.len() == n
    &&& forall|i: int|
        0 <= i < n ==> match #[trigger] owners[i] {
            None => owner_of(fs, i) is None,
            Some(p) => owner_of(fs, i) == Some(p as int),
        }
}

/// The fragment at the end of the chain of parents.
fn find_root(fs: &Vec<LineFragment>, owners: &Vec<Option<usize>>, i: usize) -> (root: usize)
    requires
        i < fs@.len(),
        are_owners(owners@, models(fs@), fs@.len() as int),
    ensures
        root == root_of(models(fs@), i as int),
{
    let ghost all = models(fs@);
    let mut at: usize = i;
    loop
        invariant
            at < fs@.len(),
            all == models(fs@),
            are_owners(owners@, all, fs@.len() as int),
            root_of(all, i as int) == root_of(all, at as int),
        ensures
            at == root_of(all, i as int),
        decreases i32::MAX - all[at as int].metrics.font_size,
    {
        match owners[at] {
            None => {
                break;
            },
            Some(p) => {
                proof {
                    lemma_owner(all, at as int);
                }
                at = p;
            },
        }
    }
    at
}

/// A fault among the first fragments stays the first one.
proof fn lemma_settled_stops(fs: Seq<FragmentModel>, part: int, n: int)
    requires
        part <= n,
        settled_fault(fs, part) is Some,
    ensures
        settled_fault(fs, n) == settled_fault(fs, part),
    decreases n - part,
{
    if part < n {
        lemma_settled_stops(fs, part, n - 1);
    }
}

/// Moves every script to the fragment it hangs on.
fn settle(fs: &Vec<LineFragment>, page_width: i32) -> (made: Result<Vec<LineFragment>, LineError>)
    ensures
        match made {
            Ok(result) => settled_fault(models(fs@), fs@.len() as int) is None && models(result@)
                == settled_upto(models(fs@), fs@.len() as int, page_width as int),
            Err(e) => settled_fault(models(fs@), fs@.len() as int) == Some(e),
        },
{
    let ghost all = models(fs@);
    let count: usize = fs.len();
    let mut owners: Vec<Option<usize>> = Vec::new();
    let mut k: usize = 0;
    while k < count
        invariant
            all == models(fs@),
            k <= count == fs@.len(),
            are_owners(owners@, all, k as int),
        decreases count - k,
    {
        owners.push(find_owner(fs, k));
        k = k + 1;
    }
    let mut roots: Vec<usize> = Vec::new();
    k = 0;
    while k < count
        invariant
            all == models(fs@),
            k <= count == fs@.len(),
            are_owners(owners@, all, count as int),
            roots@.len() == k,
            forall|j: int| 0 <= j < k ==> #[trigger] roots@[j] == root_of(all, j),
        decreases count - k,
    {
        roots.push(find_root(fs, &owners, k));
        k = k + 1;
    }
    let mut result: Vec<LineFragment> = Vec::new();
    let mut i: usize = 0;
    assert(models(result@) =~= Seq::empty());
    while i < count
        invariant
            all == models(fs@),
            i <= count == fs@.len(),
            are_owners(owners@, all, count as int),
            roots@.len() == count,
            forall|j: int| 0 <= j < count ==> #[trigger] roots@[j] == root_of(all, j),
            settled_fault(all, i as int) is None,
            models(result@) == settled_upto(all, i as int, page_width as int),
        decreases count - i,
    {
        let ghost sofar = models(result@);
        if owners[i].is_none() {
            let mut items: Vec<TextItem> = copy_items(&fs[i].items);
            let mut changed: bool = false;
            let mut j: usize = 0;
            while j < count
                invariant
                    all == models(fs@),
                    i < count == fs@.len(),
                    j <= count,
                    are_owners(owners@, all, count as int),
                    roots@.len() == count,
                    forall|j: int| 0 <= j < count ==> #[trigger] roots@[j] == root_of(all, j),
                    items@ == gathered(all, i as int, j as int),
                    changed == exists|q: int| 0 <= q < j && #[trigger] hangs_on(all, q, i as int),
                    changed ==> items@.len() > 0,
                decreases count - j,
            {
                if owners[j].is_some() && roots[j] == i {
                    assert(hangs_on(all, j as int, i as int));
                    proof {
                        lemma_owner(all, j as int);
                        lemma_script_has_runs(all[j as int], all[owner_of(all, j as int)->0]);
                    }
                    let mut more: Vec<TextItem> = copy_items(&fs[j].items);
                    items.append(&mut more);
                    changed = true;
                }
                j = j + 1;
            }
            if changed {
                assert(has_scripts(all, i as int));
                let rebuilt: LineFragment = match LineFragment::from_items(items, page_width) {
                    Err(e) => {
                        proof {
                            lemma_settled_stops(all, i + 1, count as int);
                        }
                        return Err(e);
                    },
                    Ok(rebuilt) => rebuilt,
                };
                let f: &LineFragment = &fs[i];
                let metrics: LineMetrics = LineMetrics {
                    font_size: f.metrics.font_size,
                    font_size_estimated: f.metrics.font_size_estimated,
                    baseline: f.baseline,
                    bold_ratio: rebuilt.metrics.bold_ratio,
                    italic_ratio: rebuilt.metrics.italic_ratio,
                    bbox: rebuilt.metrics.bbox,
                    anchor: rebuilt.metrics.anchor,
                    indent: rebuilt.metrics.indent,
                };
                result.push(
                    LineFragment {
                        items: rebuilt.items,
                        bbox: rebuilt.bbox,
                        baseline: f.baseline,
                        direction: rebuilt.direction,
                        metrics,
                        rotation: rebuilt.rotation,
                    },
                );
                assert(models(result@) =~= sofar.push(
                    enriched(
                        all[i as int],
                        gathered(all, i as int, count as int),
                        page_width as int,
                    ),
                ));
            } else {
                assert(!has_scripts(all, i as int));
                result.push(fs[i].copy());
                assert(models(result@) =~= sofar.push(all[i as int]));
            }
        }
        i = i + 1;
    }
    Ok(result)
}

impl LineFragment {
    /// Moves scripts, including nested indices, to the text they belong to. Runs without an
    /// extent are refused where they would have to make a fragment.
    pub fn attach_scripts(fragments: Vec<LineFragment>, page_width: i32) -> (made: Result<
        Vec<LineFragment>,
        LineError,
    >)
        ensures
            match made {
                Ok(result) => scripts_fault(models(fragments@), page_width as int) is None
                    && models(result@) == with_scripts(models(fragments@), page_width as int),
                Err(e) => scripts_fault(models(fragments@), page_width as int) == Some(e),
            },
    {
        let whole: Vec<LineFragment> = match join_pieces(fragments, page_width) {
            Err(e) => {
                return Err(e);
            },
            Ok(whole) => whole,
        };
        let parts: Vec<LineFragment> = match split_bands(&whole, page_width) {
            Err(e) => {
                return Err(e);
            },
            Ok(parts) => parts,
        };
        assert(models(whole@).len() == whole@.len() && models(parts@).len() == parts@.len());
        settle(&parts, page_width)
    }
}

/// The runs of two lists together.
proof fn lemma_concat_runs(a: Seq<TextItem>, b: Seq<TextItem>)
    ensures
        (a + b).to_multiset() == a.to_multiset().add(b.to_multiset()),
{
    vstd::seq_lib::lemma_multiset_commutative(a, b);
}

/// Joining pieces keeps every run.
proof fn lemma_joined_keeps(fs: Seq<FragmentModel>, page_width: int)
    ensures
        owned(joined(fs, page_width)) == owned(fs),
    decreases fs.len(),
{
    match pieces_from(fs, 0, page_width) {
        Some((left, right)) => if 0 <= left < right < fs.len() {
            let items = fs[left].items + fs[right].items;
            let run = fragment_of(items, page_width);
            let less = fs.remove(right);
            let next = merged(fs, left, right, page_width);
            arranging_keeps_runs(items);
            lemma_concat_runs(fs[left].items, fs[right].items);
            lemma_owned_remove(fs, right);
            lemma_owned_update(less, left, run);
            assert(less[left] == fs[left]);
            assert(run.items.to_multiset() == items.to_multiset());
            assert(owned(next).add(fs[left].items.to_multiset()) =~= owned(fs).add(
                fs[left].items.to_multiset(),
            ));
            assert(owned(next) =~= owned(fs)) by {
                assert forall|x: TextItem| owned(next).count(x) == owned(fs).count(x) by {
                    assert(owned(next).add(fs[left].items.to_multiset()).count(x) == owned(fs).add(
                        fs[left].items.to_multiset(),
                    ).count(x));
                }
            }
            lemma_joined_keeps(next, page_width);
        },
        None => {},
    }
}

/// Runs taken one by one are the runs.
pub proof fn lemma_singles_keep(items: Seq<TextItem>, n: int, page_width: int)
    requires
        0 <= n <= items.len(),
    ensures
        owned(singles(items, n, page_width)) == items.take(n).to_multiset(),
    decreases n,
{
    broadcast use vstd::seq_lib::group_to_multiset_ensures;

    if n > 0 {
        lemma_singles_keep(items, n - 1, page_width);
        let one = seq![items[n - 1]];
        arranging_keeps_runs(one);
        lemma_owned_push(singles(items, n - 1, page_width), fragment_of(one, page_width));
        assert(items.take(n) =~= items.take(n - 1) + one);
        lemma_concat_runs(items.take(n - 1), one);
    } else {
        assert(items.take(0) =~= Seq::<TextItem>::empty());
        assert(items.take(0).to_multiset() =~= owned(singles(items, 0, page_width)));
    }
}

/// Taking bands apart keeps every run.
proof fn lemma_split_keeps(fs: Seq<FragmentModel>, n: int, page_width: int)
    requires
        0 <= n <= fs.len(),
    ensures
        owned(split_upto(fs, n, page_width)) == owned_upto(fs, n),
    decreases n,
{
    if n > 0 {
        lemma_split_keeps(fs, n - 1, page_width);
        let before = split_upto(fs, n - 1, page_width);
        let f = fs[n - 1];
        if splits(f, fs, page_width) {
            lemma_singles_keep(f.items, f.items.len() as int, page_width);
            assert(f.items.take(f.items.len() as int) =~= f.items);
            lemma_owned_concat(before, singles(f.items, f.items.len() as int, page_width));
        } else {
            lemma_owned_push(before, f);
        }
    }
}

/// Runs gathered from the first `n` fragments by those of the first `m` that are
/// no scripts.
spec fn gathered_total(fs: Seq<FragmentModel>, m: int, n: int) -> vstd::multiset::Multiset<TextItem>
    decreases m,
{
    if m <= 0 {
        vstd::multiset::Multiset::empty()
    } else if owner_of(fs, m - 1) is Some {
        gathered_total(fs, m - 1, n)
    } else {
        gathered_total(fs, m - 1, n).add(gathered(fs, m - 1, n).to_multiset())
    }
}

/// One more fragment is gathered exactly when it hangs on one of the first `m`.
proof fn lemma_gathered_step(fs: Seq<FragmentModel>, m: int, n: int)
    requires
        0 <= m <= fs.len(),
        0 < n <= fs.len(),
    ensures
        gathered_total(fs, m, n) == if owner_of(fs, n - 1) is Some && root_of(fs, n - 1) < m {
            gathered_total(fs, m, n - 1).add(fs[n - 1].items.to_multiset())
        } else {
            gathered_total(fs, m, n - 1)
        },
    decreases m,
{
    lemma_root(fs, n - 1);
    if m > 0 {
        lemma_gathered_step(fs, m - 1, n);
        lemma_concat_runs(gathered(fs, m - 1, n - 1), fs[n - 1].items);
        if owner_of(fs, n - 1) is Some && root_of(fs, n - 1) < m {
            assert(gathered_total(fs, m, n) =~= gathered_total(fs, m, n - 1).add(
                fs[n - 1].items.to_multiset(),
            ));
        } else {
            assert(gathered_total(fs, m, n) =~= gathered_total(fs, m, n - 1));
        }
    }
}

/// Runs of the first `m` fragments that are no scripts.
spec fn own_total(fs: Seq<FragmentModel>, m: int, scripts: bool) -> vstd::multiset::Multiset<TextItem>
    decreases m,
{
    if m <= 0 {
        vstd::multiset::Multiset::empty()
    } else if (owner_of(fs, m - 1) is Some) == scripts {
        own_total(fs, m - 1, scripts).add(fs[m - 1].items.to_multiset())
    } else {
        own_total(fs, m - 1, scripts)
    }
}

/// Runs are those of scripts and those of the others.
proof fn lemma_own_total(fs: Seq<FragmentModel>, m: int)
    requires
        0 <= m <= fs.len(),
    ensures
        owned_upto(fs, m) == own_total(fs, m, false).add(own_total(fs, m, true)),
    decreases m,
{
    if m > 0 {
        lemma_own_total(fs, m - 1);
    }
    assert(owned_upto(fs, m) =~= own_total(fs, m, false).add(own_total(fs, m, true)));
}

/// Before any script is gathered, there are only the others.
proof fn lemma_gathered_none(fs: Seq<FragmentModel>, m: int)
    requires
        0 <= m <= fs.len(),
    ensures
        gathered_total(fs, m, 0) == own_total(fs, m, false),
    decreases m,
{
    if m > 0 {
        lemma_gathered_none(fs, m - 1);
    }
}

/// Every script is gathered once.
proof fn lemma_gathered_all(fs: Seq<FragmentModel>, n: int)
    requires
        0 <= n <= fs.len(),
    ensures
        gathered_total(fs, fs.len() as int, n) == own_total(fs, fs.len() as int, false).add(
            own_total(fs, n, true),
        ),
    decreases n,
{
    if n > 0 {
        lemma_gathered_all(fs, n - 1);
        lemma_gathered_step(fs, fs.len() as int, n);
        lemma_root(fs, n - 1);
    } else {
        lemma_gathered_none(fs, fs.len() as int);
    }
    assert(gathered_total(fs, fs.len() as int, n) =~= own_total(fs, fs.len() as int, false).add(
        own_total(fs, n, true),
    ));
}

/// Without scripts nothing is gathered.
proof fn lemma_gathered_alone(fs: Seq<FragmentModel>, i: int, n: int)
    requires
        0 <= n <= fs.len(),
        !has_scripts(fs, i),
    ensures
        gathered(fs, i, n) == fs[i].items,
    decreases n,
{
    if n > 0 {
        lemma_gathered_alone(fs, i, n - 1);
        assert(!hangs_on(fs, n - 1, i));
    }
}

/// Settled fragments own what was gathered.
proof fn lemma_settled_owns(fs: Seq<FragmentModel>, m: int, page_width: int)
    requires
        0 <= m <= fs.len(),
    ensures
        owned(settled_upto(fs, m, page_width)) == gathered_total(fs, m, fs.len() as int),
    decreases m,
{
    if m > 0 {
        lemma_settled_owns(fs, m - 1, page_width);
        let i = m - 1;
        let before = settled_upto(fs, i, page_width);
        if owner_of(fs, i) is None {
            let items = gathered(fs, i, fs.len() as int);
            if has_scripts(fs, i) {
                arranging_keeps_runs(items);
                lemma_owned_push(before, enriched(fs[i], items, page_width));
            } else {
                lemma_gathered_alone(fs, i, fs.len() as int);
                lemma_owned_push(before, fs[i]);
            }
        }
    }
}

/// Attaching scripts keeps every run exactly once.
pub proof fn attaching_keeps_runs(fs: Seq<FragmentModel>, page_width: int)
    ensures
        owned(with_scripts(fs, page_width)) == owned(fs),
{
    let whole = joined(fs, page_width);
    let parts = split_upto(whole, whole.len() as int, page_width);
    lemma_joined_keeps(fs, page_width);
    lemma_split_keeps(whole, whole.len() as int, page_width);
    lemma_settled_owns(parts, parts.len() as int, page_width);
    lemma_gathered_all(parts, parts.len() as int);
    lemma_own_total(parts, parts.len() as int);
}

/// Whether every fragment has a run.
pub open spec fn all_have_runs(fs: Seq<FragmentModel>) -> bool {
    forall|i: int| 0 <= i < fs.len() ==> (#[trigger] fs[i]).items.len() > 0
}

/// Joining pieces leaves no fragment empty.
proof fn lemma_joined_filled(fs: Seq<FragmentModel>, page_width: int)
    requires
        all_have_runs(fs),
    ensures
        all_have_runs(joined(fs, page_width)),
    decreases fs.len(),
{
    match pieces_from(fs, 0, page_width) {
        Some((left, right)) => if 0 <= left < right < fs.len() {
            arranging_keeps_runs(fs[left].items + fs[right].items);
            let next = merged(fs, left, right, page_width);
            assert forall|i: int| 0 <= i < next.len() implies (#[trigger] next[i]).items.len()
                > 0 by {
                if i != left {
                    assert(next[i] == fs.remove(right)[i]);
                }
            }
            lemma_joined_filled(next, page_width);
        },
        None => {},
    }
}

/// Single runs are no empty fragments.
proof fn lemma_singles_filled(items: Seq<TextItem>, n: int, page_width: int)
    requires
        0 <= n <= items.len(),
    ensures
        all_have_runs(singles(items, n, page_width)),
    decreases n,
{
    if n > 0 {
        lemma_singles_filled(items, n - 1, page_width);
        arranging_keeps_runs(seq![items[n - 1]]);
    }
}

/// Taking bands apart leaves no fragment empty.
proof fn lemma_split_filled(fs: Seq<FragmentModel>, n: int, page_width: int)
    requires
        0 <= n <= fs.len(),
        all_have_runs(fs),
    ensures
        all_have_runs(split_upto(fs, n, page_width)),
    decreases n,
{
    if n > 0 {
        lemma_split_filled(fs, n - 1, page_width);
        lemma_singles_filled(fs[n - 1].items, fs[n - 1].items.len() as int, page_width);
    }
}

/// Gathering never loses the own runs.
proof fn lemma_gathered_grows(fs: Seq<FragmentModel>, i: int, n: int)
    ensures
        gathered(fs, i, n).len() >= fs[i].items.len(),
    decreases n,
{
    if n > 0 {
        lemma_gathered_grows(fs, i, n - 1);
    }
}

/// Settling leaves no fragment empty.
proof fn lemma_settled_filled(fs: Seq<FragmentModel>, n: int, page_width: int)
    requires
        0 <= n <= fs.len(),
        all_have_runs(fs),
    ensures
        all_have_runs(settled_upto(fs, n, page_width)),
    decreases n,
{
    if n > 0 {
        lemma_settled_filled(fs, n - 1, page_width);
        lemma_gathered_grows(fs, n - 1, fs.len() as int);
        arranging_keeps_runs(gathered(fs, n - 1, fs.len() as int));
    }
}

/// Whether every run of every fragment has an extent.
pub open spec fn all_sound(fs: Seq<FragmentModel>) -> bool {
    forall|i: int| 0 <= i < fs.len() ==> runs_sound((#[trigger] fs[i]).items)
}

/// Whether every run has an extent.
pub open spec fn runs_sound(items: Seq<TextItem>) -> bool {
    forall|k: int| 0 <= k < items.len() ==> (#[trigger] items[k]).bbox.valid()
}

/// Arranging keeps the extents of runs.
proof fn lemma_arranged_sound(items: Seq<TextItem>)
    requires
        runs_sound(items),
    ensures
        runs_sound(arranged(items)),
        items.len() > 0 ==> fragment_fault(items) is None,
{
    broadcast use vstd::seq_lib::group_to_multiset_ensures;

    arranging_keeps_runs(items);
    let same = arranged(items);
    assert forall|k: int| 0 <= k < same.len() implies (#[trigger] same[k]).bbox.valid() by {
        assert(same.contains(same[k]));
        assert(items.to_multiset().count(same[k]) > 0);
        assert(items.contains(same[k]));
        let i = items.index_of(same[k]);
        assert(items[i].bbox.valid());
    }
}

/// Joining pieces of sound runs never fails and keeps them sound.
proof fn lemma_joined_sound(fs: Seq<FragmentModel>, page_width: int)
    requires
        all_sound(fs),
    ensures
        joined_fault(fs, page_width) is None,
        all_sound(joined(fs, page_width)),
    decreases fs.len(),
{
    match pieces_from(fs, 0, page_width) {
        Some((left, right)) => if 0 <= left < right < fs.len() {
            lemma_pieces_have_runs(fs, 0, page_width);
            let items = fs[left].items + fs[right].items;
            assert(runs_sound(fs[left].items) && runs_sound(fs[right].items));
            lemma_arranged_sound(items);
            let next = merged(fs, left, right, page_width);
            assert forall|i: int| 0 <= i < next.len() implies runs_sound(
                (#[trigger] next[i]).items,
            ) by {
                if i != left {
                    assert(next[i] == fs.remove(right)[i]);
                    let k = if i < right {
                        i
                    } else {
                        i + 1
                    };
                    assert(next[i] == fs[k]);
                }
            }
            lemma_joined_sound(next, page_width);
        },
        None => {},
    }
}

/// Single runs are as sound as the runs.
pub proof fn lemma_singles_sound(items: Seq<TextItem>, n: int, page_width: int)
    requires
        0 <= n <= items.len(),
        forall|i: int| 0 <= i < n ==> (#[trigger] items[i]).bbox.valid(),
    ensures
        all_sound(singles(items, n, page_width)),
    decreases n,
{
    if n > 0 {
        lemma_singles_sound(items, n - 1, page_width);
        lemma_single_fault(items[n - 1]);
    }
}

/// Taking bands of sound runs apart never fails and keeps them sound.
proof fn lemma_split_sound(fs: Seq<FragmentModel>, n: int, page_width: int)
    requires
        0 <= n <= fs.len(),
        all_sound(fs),
    ensures
        split_fault(fs, n, page_width) is None,
        all_sound(split_upto(fs, n, page_width)),
    decreases n,
{
    if n > 0 {
        lemma_split_sound(fs, n - 1, page_width);
        let f = fs[n - 1];
        let m = f.items.len() as int;
        assert(runs_sound(f.items));
        lemma_sound_runs(f.items, m);
        lemma_singles_sound(f.items, m, page_width);
        let before = split_upto(fs, n - 1, page_width);
        let after = split_upto(fs, n, page_width);
        assert forall|i: int| 0 <= i < after.len() implies runs_sound((#[trigger] after[i]).items) by {
            if i < before.len() {
                assert(after[i] == before[i]);
            } else if splits(f, fs, page_width) {
                assert(after[i] == singles(f.items, m, page_width)[i - before.len()]);
            }
        }
    }
}

/// Gathered runs are sound.
proof fn lemma_gathered_sound(fs: Seq<FragmentModel>, i: int, n: int)
    requires
        all_sound(fs),
        0 <= i < fs.len(),
        n <= fs.len(),
    ensures
        runs_sound(gathered(fs, i, n)),
    decreases n,
{
    assert(runs_sound(fs[i].items));
    if n > 0 {
        lemma_gathered_sound(fs, i, n - 1);
        assert(runs_sound(fs[n - 1].items));
    }
}

/// Settling sound fragments never fails.
proof fn lemma_settled_sound(fs: Seq<FragmentModel>, n: int)
    requires
        0 <= n <= fs.len(),
        all_sound(fs),
    ensures
        settled_fault(fs, n) is None,
    decreases n,
{
    if n > 0 {
        lemma_settled_sound(fs, n - 1);
        let i = n - 1;
        if owner_of(fs, i) is None && has_scripts(fs, i) {
            let j = choose|j: int| 0 <= j < fs.len() && #[trigger] hangs_on(fs, j, i);
            lemma_owner(fs, j);
            lemma_script_has_runs(fs[j], fs[owner_of(fs, j)->0]);
            lemma_gathered_holds(fs, i, j, fs.len() as int);
            lemma_gathered_sound(fs, i, fs.len() as int);
            lemma_arranged_sound(gathered(fs, i, fs.len() as int));
        }
    }
}

/// What hangs on a fragment is gathered by it.
proof fn lemma_gathered_holds(fs: Seq<FragmentModel>, i: int, j: int, n: int)
    requires
        0 <= j < n <= fs.len(),
        hangs_on(fs, j, i),
    ensures
        gathered(fs, i, n).len() >= fs[j].items.len(),
    decreases n,
{
    if j < n - 1 {
        lemma_gathered_holds(fs, i, j, n - 1);
    }
}

/// Scripts of runs that all have extents are moved to their parents without fail.
pub proof fn sound_runs_are_attached(fs: Seq<FragmentModel>, page_width: int)
    requires
        all_sound(fs),
    ensures
        scripts_fault(fs, page_width) is None,
{
    let whole = joined(fs, page_width);
    let parts = split_upto(whole, whole.len() as int, page_width);
    lemma_joined_sound(fs, page_width);
    lemma_split_sound(whole, whole.len() as int, page_width);
    lemma_settled_sound(parts, parts.len() as int);
}

/// Attaching scripts leaves no fragment empty.
pub proof fn attaching_leaves_none_empty(fs: Seq<FragmentModel>, page_width: int)
    requires
        all_have_runs(fs),
    ensures
        all_have_runs(with_scripts(fs, page_width)),
{
    let whole = joined(fs, page_width);
    let parts = split_upto(whole, whole.len() as int, page_width);
    lemma_joined_filled(fs, page_width);
    lemma_split_filled(whole, whole.len() as int, page_width);
    lemma_settled_filled(parts, parts.len() as int, page_width);
}

} // verus!
