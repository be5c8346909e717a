//! Blanks between recognized words.

use vstd::math::{abs, min};
use vstd::prelude::*;

use crate::chars::{alphanumeric, push_text};
use crate::geometry::distance;
use crate::line::axes::{is_parallel, parallel, Frame, TextAxes};
use crate::line::bidi::{
    detect_direction, ltr_letters, ltr_upto, rtl_letters, rtl_upto, snapped,
};
use crate::rope::Rope;
use crate::sorting::{is_ordered, sort, sorting_orders_and_keeps, Order, Sorter};
use crate::types::{
    fact_models, note, FactModel, RepairAction, Rotation, TextItem, WritingDirection,
};

verus! {

/// Whether a character belongs to a script that is written without blanks.
pub open spec fn is_unspaced(c: char) -> bool {
    let u = c as u32;
    (0x2E80 <= u <= 0xA4CF) || (0xAC00 <= u <= 0xD7AF) || (0xF900 <= u <= 0xFAFF) || (0x20000 <= u
        <= 0x323AF)
}

/// Whether a character belongs to a word that is set off by blanks.
pub open spec fn is_word(c: char) -> bool {
    alphanumeric(c) && !is_unspaced(c)
}

/// Whether a character may close a word.
pub open spec fn is_closing(c: char) -> bool {
    c == ',' || c == '.' || c == ':' || c == ';' || c == '!' || c == '?' || c == ')' || c == ']'
        || c == '}' || c == '"' || c == '\'' || c == '…'
}

/// Whether a text starts with a word.
pub open spec fn starts_word(text: Seq<char>) -> bool {
    text.len() > 0 && is_word(text[0])
}

/// Whether the first `n` characters end with a word, closing marks aside.
pub open spec fn ends_word_upto(text: Seq<char>, n: int) -> bool
    decreases n,
{
    if n <= 0 {
        false
    } else if is_closing(text[n - 1]) {
        ends_word_upto(text, n - 1)
    } else {
        is_word(text[n - 1])
    }
}

/// Whether a text ends with a word, closing marks aside.
pub open spec fn ends_word(text: Seq<char>) -> bool {
    ends_word_upto(text, text.len() as int)
}

/// Whether a frame has a positive extent both ways.
pub open spec fn real_frame(f: (int, int, int, int)) -> bool {
    f.0 < f.2 && f.1 < f.3
}

/// Whether two frames on one line are as far apart as words are.
pub open spec fn word_gap(
    left: (int, int, int, int),
    right: (int, int, int, int),
    rtl: bool,
) -> bool {
    let height = min(left.3 - left.1, right.3 - right.1);
    let gap = if rtl {
        left.0 - right.2
    } else {
        right.0 - left.2
    };
    &&& 10 * abs(left.3 - right.3) < 3 * height
    &&& 20 * gap > 3 * height
    &&& 4 * gap < 5 * height
}

/// Whether a fact is read from right to left.
pub open spec fn reads_left(fact: FactModel) -> bool {
    let degrees = snapped(fact.rotation.angle as int);
    let n = fact.raw_text.len() as int;
    degrees != 90 && degrees != 270 && rtl_upto(fact.raw_text, n) > ltr_upto(fact.raw_text, n)
}

/// Whether a fact stands before another one as the word before it.
pub open spec fn word_before(left: FactModel, right: FactModel) -> bool {
    let axes = TextAxes { rotation: right.rotation };
    &&& ends_word(left.raw_text)
    &&& left.id != right.id
    &&& parallel(left.rotation.angle as int, right.rotation.angle as int)
    &&& real_frame(axes.frame_of(left.bbox))
    &&& word_gap(axes.frame_of(left.bbox), axes.frame_of(right.bbox), reads_left(right))
}

/// Whether a blank belongs before a fact.
pub open spec fn needs_blank(facts: Seq<FactModel>, right: FactModel) -> bool {
    &&& starts_word(right.raw_text)
    &&& real_frame((TextAxes { rotation: right.rotation }).frame_of(right.bbox))
    &&& exists|i: int| 0 <= i < facts.len() && word_before(#[trigger] facts[i], right)
}

/// A fact with a blank before it.
pub open spec fn with_blank(fact: FactModel) -> FactModel {
    FactModel {
        raw_text: seq![' '] + fact.raw_text,
        repair_actions: fact.repair_actions.push(RepairAction::OcrSpacing),
        ..fact
    }
}

/// A fact with a blank before it where one belongs there.
pub open spec fn spaced_fact(facts: Seq<FactModel>, fact: FactModel) -> FactModel {
    if needs_blank(facts, fact) {
        with_blank(fact)
    } else {
        fact
    }
}

/// Facts with blanks between words; every decision is made on the given texts.
pub open spec fn spaced_words(facts: Seq<FactModel>) -> Seq<FactModel> {
    Seq::new(facts.len(), |i: int| spaced_fact(facts, facts[i]))
}

/// Whether a fact is read from right to left.
pub fn is_rtl(item: &TextItem) -> (yes: bool)
    ensures
        yes == reads_left(item@),
{
    let mut alone: Vec<TextItem> = Vec::new();
    alone.push(item.copy());
    proof {
        assert(alone@ =~= seq![*item]);
        reveal_with_fuel(rtl_letters, 2);
        reveal_with_fuel(ltr_letters, 2);
    }
    match detect_direction(&alone, item.rotation.angle) {
        WritingDirection::RightToLeft => true,
        _ => false,
    }
}

/// Whether a character belongs to a word that is set off by blanks.
fn word(c: char) -> (yes: bool)
    ensures
        yes == is_word(c),
{
    let u: u32 = c as u32;
    c.is_alphanumeric() && !((0x2E80 <= u && u <= 0xA4CF) || (0xAC00 <= u && u <= 0xD7AF) || (
    0xF900 <= u && u <= 0xFAFF) || (0x20000 <= u && u <= 0x323AF))
}

/// Word boundaries of one fact.
#[derive(Debug, Clone, Copy, PartialEq, Eq, Structural)]
struct Word {
    starts_word: bool,
    ends_word: bool,
}

impl Word {
    /// Caches character decisions while preserving explicit spaces and unspaced scripts.
    fn from(text: &Rope) -> (word_facts: Word)
        ensures
            word_facts.starts_word == starts_word(text@),
            word_facts.ends_word == ends_word(text@),
    {
        let all: Vec<char> = text.chars();
        let starts: bool = all.len() > 0 && word(all[0]);
        let mut n: usize = all.len();
        while n > 0
            invariant
                all@ == text@,
                n <= all@.len(),
                ends_word(text@) == ends_word_upto(text@, n as int),
                starts == starts_word(text@),
            decreases n,
        {
            let c: char = all[n - 1];
            let closing: bool = c == ',' || c == '.' || c == ':' || c == ';' || c == '!' || c == '?'
                || c == ')' || c == ']' || c == '}' || c == '"' || c == '\'' || c == '…';
            if !closing {
                return Word { starts_word: starts, ends_word: word(c) };
            }
            n = n - 1;
        }
        Word { starts_word: starts, ends_word: false }
    }
}

/// The place of a fact that ends a word, in some frame.
#[derive(Debug, Clone, Copy, PartialEq, Eq, Structural)]
pub struct Row {
    pub frame: Frame,
    pub index: usize,
}

/// Rows by their bottom edge.
pub struct RowOrder;

impl Order<Row> for RowOrder {
    open spec fn lt(&self, a: Row, b: Row) -> bool {
        a.frame.bottom < b.frame.bottom
    }

    proof fn is_strict_weak(&self, a: Row, b: Row, c: Row) {
    }
}

impl Sorter<Row> for RowOrder {
    fn precedes(&self, a: &Row, b: &Row) -> (yes: bool) {
        a.frame.bottom < b.frame.bottom
    }
}

/// The corners of a frame.
pub open spec fn corners(f: Frame) -> (int, int, int, int) {
    (f.left as int, f.top as int, f.right as int, f.bottom as int)
}

/// Whether a row is the place of a fact that ends a word.
pub open spec fn is_row(facts: Seq<FactModel>, rotation: Rotation, row: Row) -> bool {
    &&& row.index < facts.len()
    &&& ends_word(facts[row.index as int].raw_text)
    &&& corners(row.frame) == (TextAxes { rotation }).frame_of(facts[row.index as int].bbox)
    &&& real_frame(corners(row.frame))
    &&& -0x8_0000_0000 <= row.frame.left <= 0x8_0000_0000
    &&& -0x8_0000_0000 <= row.frame.top <= 0x8_0000_0000
    &&& -0x8_0000_0000 <= row.frame.right <= 0x8_0000_0000
    &&& -0x8_0000_0000 <= row.frame.bottom <= 0x8_0000_0000
}

/// Facts that end a word, in one frame, sorted by bottom edge.
struct Rows {
    rotation: Rotation,
    rows: Vec<Row>,
}

impl Rows {
    /// The rows are exactly the places of the facts that end a word.
    spec fn wf(self, facts: Seq<FactModel>) -> bool {
        &&& is_ordered(self.rows@, RowOrder)
        &&& forall|k: int|
            0 <= k < self.rows@.len() ==> is_row(facts, self.rotation, #[trigger] self.rows@[k])
        &&& forall|i: int|
            #![trigger facts[i]]
            0 <= i < facts.len() && ends_word(facts[i].raw_text) && real_frame(
                (TextAxes { rotation: self.rotation }).frame_of(facts[i].bbox),
            ) ==> exists|k: int| 0 <= k < self.rows@.len() && (#[trigger] self.rows@[k]).index == i
    }

    /// Projects every fact that ends a word into one frame.
    fn new(items: &Vec<TextItem>, words: &Vec<Word>, rotation: Rotation) -> (rows: Rows)
        requires
            words@.len() == fact_models(items@).len(),
            forall|i: int|
                0 <= i < words@.len() ==> (#[trigger] words@[i]).ends_word == ends_word(
                    fact_models(items@)[i].raw_text,
                ),
        ensures
            rows.rotation == rotation,
            rows.wf(fact_models(items@)),
    {
        let axes: TextAxes = TextAxes::from(rotation);
        let mut rows: Vec<Row> = Vec::new();
        let mut i: usize = 0;
        while i < items.len()
            invariant
                words@.len() == fact_models(items@).len(),
                forall|k: int|
                    0 <= k < words@.len() ==> (#[trigger] words@[k]).ends_word == ends_word(
                        fact_models(items@)[k].raw_text,
                    ),
                axes.rotation == rotation,
                i <= fact_models(items@).len(),
                forall|k: int|
                    0 <= k < rows@.len() ==> is_row(fact_models(items@), rotation, #[trigger] rows@[k]),
                forall|j: int|
                    #![trigger fact_models(items@)[j]]
                    0 <= j < i && ends_word(fact_models(items@)[j].raw_text) && real_frame(
                        axes.frame_of(fact_models(items@)[j].bbox),
                    ) ==> exists|k: int| 0 <= k < rows@.len() && (#[trigger] rows@[k]).index == j,
            decreases fact_models(items@).len() - i,
        {
            let ghost before = rows@;
            assert(words@[i as int].ends_word == ends_word(fact_models(items@)[i as int].raw_text));
            if words[i].ends_word {
                if let Ok(frame) = axes.project_bbox(items[i].bbox) {
                    rows.push(Row { frame, index: i });
                    assert(rows@[before.len() as int].index == i);
                }
            }
            assert forall|j: int|
                #![trigger fact_models(items@)[j]]
                0 <= j < i + 1 && ends_word(fact_models(items@)[j].raw_text) && real_frame(
                    axes.frame_of(fact_models(items@)[j].bbox),
                ) implies exists|k: int| 0 <= k < rows@.len() && (#[trigger] rows@[k]).index
                == j by {
                if j < i {
                    let k = choose|k: int|
                        0 <= k < before.len() && (#[trigger] before[k]).index == j;
                    assert(rows@[k] == before[k]);
                }
            }
            i = i + 1;
        }
        let ghost all = rows@;
        let ghost facts = fact_models(items@);
        let rows: Vec<Row> = sort(rows, &RowOrder);
        proof {
            sorting_orders_and_keeps(all, RowOrder);
            lemma_same_members(all, rows@);
            assert forall|k: int| 0 <= k < rows@.len() implies is_row(
                facts,
                rotation,
                #[trigger] rows@[k],
            ) by {
                assert(rows@.contains(rows@[k]));
                let m = all.index_of(rows@[k]);
                assert(is_row(facts, rotation, all[m]));
            }
            assert forall|j: int|
                #![trigger facts[j]]
                0 <= j < facts.len() && ends_word(facts[j].raw_text) && real_frame(
                    (TextAxes { rotation }).frame_of(facts[j].bbox),
                ) implies exists|k: int| 0 <= k < rows@.len() && (#[trigger] rows@[k]).index
                == j by {
                assert(axes == (TextAxes { rotation }));
                let m = choose|k: int| 0 <= k < all.len() && (#[trigger] all[k]).index == j;
                assert(all.contains(all[m]));
                let k = rows@.index_of(all[m]);
                assert(rows@[k].index == j);
            }
        }
        let result = Rows { rotation, rows };
        assert(is_ordered(result.rows@, RowOrder));
        assert(result.wf(facts));
        result
    }

    /// The first row at least as low as a tenth of a height.
    fn first_from(&self, tenth: i128) -> (begin: usize)
        requires
            is_ordered(self.rows@, RowOrder),
        ensures
            begin <= self.rows@.len(),
            forall|k: int|
                0 <= k < begin ==> 10 * (#[trigger] self.rows@[k]).frame.bottom < tenth,
            forall|k: int|
                begin <= k < self.rows@.len() ==> 10 * (#[trigger] self.rows@[k]).frame.bottom
                    >= tenth,
    {
        let mut low: usize = 0;
        let mut high: usize = self.rows.len();
        while low < high
            invariant
                is_ordered(self.rows@, RowOrder),
                low <= high <= self.rows@.len(),
                forall|k: int|
                    0 <= k < low ==> 10 * (#[trigger] self.rows@[k]).frame.bottom < tenth,
                forall|k: int|
                    high <= k < self.rows@.len() ==> 10 * (#[trigger] self.rows@[k]).frame.bottom
                        >= tenth,
            decreases high - low,
        {
            let middle: usize = low + (high - low) / 2;
            if 10 * (self.rows[middle].frame.bottom as i128) < tenth {
                assert forall|k: int| 0 <= k < middle + 1 implies 10 * (
                #[trigger] self.rows@[k]).frame.bottom < tenth by {
                    if k < middle {
                        assert(!RowOrder.lt(self.rows@[middle as int], self.rows@[k]));
                    }
                }
                low = middle + 1;
            } else {
                assert forall|k: int| middle <= k < self.rows@.len() implies 10 * (
                #[trigger] self.rows@[k]).frame.bottom >= tenth by {
                    if k > middle {
                        assert(!RowOrder.lt(self.rows@[k], self.rows@[middle as int]));
                    }
                }
                high = middle;
            }
        }
        low
    }

    /// Whether a row holds the word before a fact; only rows near its baseline are looked at.
    fn any_before(
        &self,
        items: &Vec<TextItem>,
        right: usize,
        right_frame: Frame,
        rtl: bool,
    ) -> (yes: bool)
        requires
            self.wf(fact_models(items@)),
            right < fact_models(items@).len(),
            self.rotation == fact_models(items@)[right as int].rotation,
            corners(right_frame) == (TextAxes { rotation: self.rotation }).frame_of(
                fact_models(items@)[right as int].bbox,
            ),
            -0x8_0000_0000 <= right_frame.left < right_frame.right <= 0x8_0000_0000,
            -0x8_0000_0000 <= right_frame.top < right_frame.bottom <= 0x8_0000_0000,
            rtl == reads_left(fact_models(items@)[right as int]),
        ensures
            yes == exists|i: int|
                0 <= i < fact_models(items@).len() && word_before(#[trigger] fact_models(items@)[i], fact_models(items@)[right as int]),
    {
        let height: i128 = right_frame.height();
        let lowest: i128 = 10 * (right_frame.bottom as i128) - 3 * height;
        let highest: i128 = 10 * (right_frame.bottom as i128) + 3 * height;
        let begin: usize = self.first_from(lowest);
        let mut k: usize = begin;
        while k < self.rows.len() && 10 * (self.rows[k].frame.bottom as i128) <= highest
            invariant
                self.wf(fact_models(items@)),
                right < fact_models(items@).len(),
                self.rotation == fact_models(items@)[right as int].rotation,
                corners(right_frame) == (TextAxes { rotation: self.rotation }).frame_of(
                    fact_models(items@)[right as int].bbox,
                ),
                -0x8_0000_0000 <= right_frame.left < right_frame.right <= 0x8_0000_0000,
                -0x8_0000_0000 <= right_frame.top < right_frame.bottom <= 0x8_0000_0000,
                rtl == reads_left(fact_models(items@)[right as int]),
                begin <= k <= self.rows@.len(),
                forall|m: int|
                    begin <= m < k ==> !word_before(
                        fact_models(items@)[(#[trigger] self.rows@[m]).index as int],
                        fact_models(items@)[right as int],
                    ),
            decreases self.rows@.len() - k,
        {
            let row: Row = self.rows[k];
            assert(is_row(fact_models(items@), self.rotation, self.rows@[k as int]));
            if can_precede(&items[row.index], &items[right]) && adjacent(
                &row.frame,
                &right_frame,
                rtl,
            ) {
                assert(word_before(fact_models(items@)[row.index as int], fact_models(items@)[right as int]));
                return true;
            }
            k = k + 1;
        }
        proof {
            assert forall|i: int| 0 <= i < fact_models(items@).len() implies !word_before(
                #[trigger] fact_models(items@)[i],
                fact_models(items@)[right as int],
            ) by {
                if word_before(fact_models(items@)[i], fact_models(items@)[right as int]) {
                    let m = choose|m: int|
                        0 <= m < self.rows@.len() && (#[trigger] self.rows@[m]).index == i;
                    assert(is_row(fact_models(items@), self.rotation, self.rows@[m]));
                    if m >= k && k < self.rows@.len() {
                        if m > k {
                            assert(!RowOrder.lt(self.rows@[m], self.rows@[k as int]));
                        }
                    }
                }
            }
        }
        false
    }
}

/// Sequences with equal multisets have the same members.
proof fn lemma_same_members(a: Seq<Row>, b: Seq<Row>)
    requires
        a.to_multiset() == b.to_multiset(),
    ensures
        forall|x: Row| #![auto] a.contains(x) <==> b.contains(x),
{
    broadcast use vstd::seq_lib::group_to_multiset_ensures;

    assert forall|x: Row| #![auto] a.contains(x) <==> b.contains(x) by {
        assert(a.contains(x) <==> a.to_multiset().count(x) > 0);
        assert(b.contains(x) <==> b.to_multiset().count(x) > 0);
    }
}

/// Whether two facts are different and parallel.
fn can_precede(left: &TextItem, right: &TextItem) -> (yes: bool)
    ensures
        yes == (left.id@ != right.id@ && parallel(
            left.rotation.angle as int,
            right.rotation.angle as int,
        )),
{
    !crate::chars::str_same(left.id.as_str(), right.id.as_str()) && is_parallel(
        left.rotation.angle,
        right.rotation.angle,
    )
}

/// Whether two frames on one line are as far apart as words are.
fn adjacent(left: &Frame, right: &Frame, rtl: bool) -> (yes: bool)
    requires
        -0x8_0000_0000 <= left.left <= 0x8_0000_0000,
        -0x8_0000_0000 <= left.right <= 0x8_0000_0000,
        -0x8_0000_0000 <= right.left <= 0x8_0000_0000,
        -0x8_0000_0000 <= right.right <= 0x8_0000_0000,
    ensures
        yes == word_gap(corners(*left), corners(*right), rtl),
{
    let a: i128 = left.height();
    let b: i128 = right.height();
    let height: i128 = if a < b {
        a
    } else {
        b
    };
    let gap: i128 = if rtl {
        left.left as i128 - right.right as i128
    } else {
        right.left as i128 - left.right as i128
    };
    10 * distance(left.bottom, right.bottom) < 3 * height && 20 * gap > 3 * height && 4 * gap < 5
        * height
}

/// Word boundaries of all facts.
fn words_of(items: &Vec<TextItem>) -> (words: Vec<Word>)
    ensures
        words@.len() == fact_models(items@).len(),
        forall|i: int|
            0 <= i < words@.len() ==> (#[trigger] words@[i]).starts_word == starts_word(
                fact_models(items@)[i].raw_text,
            ) && words@[i].ends_word == ends_word(fact_models(items@)[i].raw_text),
{
    let mut words: Vec<Word> = Vec::new();
    let mut i: usize = 0;
    while i < items.len()
        invariant
            i <= fact_models(items@).len(),
            words@.len() == i,
            forall|k: int|
                0 <= k < i ==> (#[trigger] words@[k]).starts_word == starts_word(
                    fact_models(items@)[k].raw_text,
                ) && words@[k].ends_word == ends_word(fact_models(items@)[k].raw_text),
        decreases fact_models(items@).len() - i,
    {
        words.push(Word::from(&items[i].raw_text));
        i = i + 1;
    }
    words
}

/// The cache for a rotation, which is built on first use.
fn rows_for(
    caches: &mut Vec<Rows>,
    items: &Vec<TextItem>,
    words: &Vec<Word>,
    rotation: Rotation,
) -> (at: usize)
    requires
        words@.len() == fact_models(items@).len(),
        forall|i: int|
            0 <= i < words@.len() ==> (#[trigger] words@[i]).ends_word == ends_word(
                fact_models(items@)[i].raw_text,
            ),
        forall|k: int| 0 <= k < old(caches)@.len() ==> (#[trigger] old(caches)@[k]).wf(fact_models(items@)),
    ensures
        at < final(caches)@.len(),
        final(caches)@[at as int].rotation == rotation,
        forall|k: int| 0 <= k < final(caches)@.len() ==> (#[trigger] final(caches)@[k]).wf(fact_models(items@)),
{
    let mut k: usize = 0;
    while k < caches.len()
        invariant
            forall|m: int| 0 <= m < caches@.len() ==> (#[trigger] caches@[m]).wf(fact_models(items@)),
        decreases caches@.len() - k,
    {
        if caches[k].rotation == rotation {
            return k;
        }
        k = k + 1;
    }
    let rows: Rows = Rows::new(items, words, rotation);
    caches.push(rows);
    caches.len() - 1
}

/// Whether a blank belongs before a fact.
fn wants_blank(
    caches: &mut Vec<Rows>,
    items: &Vec<TextItem>,
    words: &Vec<Word>,
    right: usize,
) -> (yes: bool)
    requires
        right < fact_models(items@).len(),
        words@.len() == fact_models(items@).len(),
        forall|i: int|
            0 <= i < words@.len() ==> (#[trigger] words@[i]).starts_word == starts_word(
                fact_models(items@)[i].raw_text,
            ) && words@[i].ends_word == ends_word(fact_models(items@)[i].raw_text),
        forall|k: int| 0 <= k < old(caches)@.len() ==> (#[trigger] old(caches)@[k]).wf(fact_models(items@)),
    ensures
        yes == needs_blank(fact_models(items@), fact_models(items@)[right as int]),
        forall|k: int| 0 <= k < final(caches)@.len() ==> (#[trigger] final(caches)@[k]).wf(fact_models(items@)),
{
    assert(words@[right as int].starts_word == starts_word(fact_models(items@)[right as int].raw_text));
    if !words[right].starts_word {
        return false;
    }
    let item: &TextItem = &items[right];
    let axes: TextAxes = TextAxes::from(item.rotation);
    let frame: Frame = match axes.project_bbox(item.bbox) {
        Ok(frame) => frame,
        Err(_) => {
            return false;
        },
    };
    let rtl: bool = is_rtl(item);
    let at: usize = rows_for(caches, items, words, item.rotation);
    caches[at].any_before(items, right, frame, rtl)
}

/// Puts blanks between recognized words; every decision is made on the given
/// texts, so a new blank never hides a later word boundary.
pub fn space_words(items: &Vec<TextItem>) -> (spaced: Vec<TextItem>)
    ensures
        fact_models(spaced@) == spaced_words(fact_models(items@)),
{
    let words: Vec<Word> = words_of(items);
    let mut caches: Vec<Rows> = Vec::new();
    let mut spaced: Vec<TextItem> = Vec::new();
    let mut i: usize = 0;
    while i < items.len()
        invariant
            i <= fact_models(items@).len(),
            words@.len() == fact_models(items@).len(),
            forall|k: int|
                0 <= k < words@.len() ==> (#[trigger] words@[k]).starts_word == starts_word(
                    fact_models(items@)[k].raw_text,
                ) && words@[k].ends_word == ends_word(fact_models(items@)[k].raw_text),
            forall|k: int| 0 <= k < caches@.len() ==> (#[trigger] caches@[k]).wf(fact_models(items@)),
            spaced@.len() == i,
            forall|k: int|
                0 <= k < i ==> (#[trigger] spaced@[k])@ == spaced_fact(fact_models(items@), fact_models(items@)[k]),
        decreases fact_models(items@).len() - i,
    {
        let mut item: TextItem = items[i].copy();
        if wants_blank(&mut caches, items, &words, i) {
            let mut blank: String = String::new();
            push_text(&mut blank, " ");
            proof {
                reveal_strlit(" ");
                assert(blank@ =~= seq![' ']);
            }
            item.raw_text = Rope::join(Rope::new(blank), item.raw_text);
            item.repair_actions = note(&item.repair_actions, RepairAction::OcrSpacing);
            assert(item@ =~= with_blank(fact_models(items@)[i as int]));
        }
        spaced.push(item);
        i = i + 1;
    }
    assert(fact_models(spaced@) =~= spaced_words(fact_models(items@)));
    spaced
}

/// Spacing changes nothing but texts, and puts at most one blank before each.
pub proof fn spacing_only_adds_blanks(facts: Seq<FactModel>, i: int)
    requires
        0 <= i < facts.len(),
    ensures
        spaced_words(facts).len() == facts.len(),
        spaced_words(facts)[i] == facts[i] || spaced_words(facts)[i] == with_blank(facts[i]),
{
}

} // verus!
