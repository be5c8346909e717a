//! Where a blank is put between recognized words.

use vstd::prelude::*;

use super::spacing::{
    ends_word, ends_word_upto, needs_blank, spaced_words, starts_word, word_before,
};
use crate::chars::alphanumeric;
use crate::line::axis_laws::{frames_turn_with_their_text, scripts_from_the_right};
use crate::line::bidi::{ltr_upto, rtl_upto};
use crate::types::{FactModel, RepairAction};

verus! {

/// Whether a character is a letter or a digit of a script that sets words off by blanks: none of
/// the ranges of Chinese, Japanese, Yi and Korean.
pub open spec fn spells_words(c: char) -> bool {
    alphanumeric(c) && !('\u{2E80}' <= c && c <= '\u{A4CF}') && !('\u{AC00}' <= c && c
        <= '\u{D7AF}') && !('\u{F900}' <= c && c <= '\u{FAFF}') && !('\u{20000}' <= c && c
        <= '\u{323AF}')
}

proof fn lemma_word(c: char)
    ensures
        super::spacing::is_word(c) == spells_words(c),
{
}

/// Whether a fact is upright, has an extent and is read from left to right.
pub open spec fn is_plain_word(fact: FactModel) -> bool {
    &&& fact.rotation.angle == 0 && fact.rotation.cosine == 1_000_000_000 && fact.rotation.sine == 0
    &&& fact.bbox.left < fact.bbox.right && fact.bbox.top < fact.bbox.bottom
    &&& forall|k: int|
        0 <= k < fact.raw_text.len() ==> !('\u{590}' <= #[trigger] fact.raw_text[k]
            && fact.raw_text[k] <= '\u{8FF}') && !('\u{FB1D}' <= fact.raw_text[k]
            && fact.raw_text[k] <= '\u{FDFF}') && !('\u{FE70}' <= fact.raw_text[k]
            && fact.raw_text[k] <= '\u{FEFF}')
}

/// Whether a plain fact ends a word's width before another on the same line: their bottoms differ
/// by less than three tenths of the lower height, and between them is more than fifteen
/// hundredths and less than five quarters of it.
pub open spec fn stands_apart(left: FactModel, right: FactModel) -> bool {
    let high = if left.bbox.bottom - left.bbox.top < right.bbox.bottom - right.bbox.top {
        left.bbox.bottom - left.bbox.top
    } else {
        right.bbox.bottom - right.bbox.top
    };
    let gap = right.bbox.left - left.bbox.right;
    let drop = left.bbox.bottom - right.bbox.bottom;
    &&& 10 * drop < 3 * high && 10 * drop > -(3 * high)
    &&& 100 * gap > 15 * high
    &&& 100 * gap < 125 * high
}

proof fn lemma_no_leftward(s: Seq<char>, n: int)
    requires
        0 <= n <= s.len(),
        forall|k: int|
            0 <= k < s.len() ==> !('\u{590}' <= #[trigger] s[k] && s[k] <= '\u{8FF}') && !(
            '\u{FB1D}' <= s[k] && s[k] <= '\u{FDFF}') && !('\u{FE70}' <= s[k] && s[k]
                <= '\u{FEFF}'),
    ensures
        rtl_upto(s, n) == 0,
        ltr_upto(s, n) >= 0,
    decreases n,
{
    if n > 0 {
        lemma_no_leftward(s, n - 1);
        scripts_from_the_right(s[n - 1]);
    }
}

proof fn lemma_plain(left: FactModel, right: FactModel)
    requires
        is_plain_word(left),
        is_plain_word(right),
    ensures
        word_before(left, right) <==> ends_word(left.raw_text) && left.id != right.id
            && stands_apart(left, right),
        super::spacing::real_frame(
            (crate::line::axes::TextAxes { rotation: right.rotation }).frame_of(right.bbox),
        ),
{
    let p = crate::geometry::Point { x: 0, y: 0 };
    frames_turn_with_their_text(right.rotation, right.bbox, p);
    frames_turn_with_their_text(right.rotation, left.bbox, p);
    lemma_no_leftward(right.raw_text, right.raw_text.len() as int);
}

/// A word is set off by a blank from a word that ends a word's width before it, and from nothing
/// else. A fact without such a neighbour stays as it is.
pub proof fn words_are_set_off_by_gaps(facts: Seq<FactModel>, j: int)
    requires
        0 <= j < facts.len(),
        forall|i: int| 0 <= i < facts.len() ==> is_plain_word(#[trigger] facts[i]),
    ensures
        ({
            let right = facts[j];
            let parted = right.raw_text.len() > 0 && spells_words(right.raw_text[0]) && exists|
                i: int,
            |
                0 <= i < facts.len() && ends_word((#[trigger] facts[i]).raw_text) && facts[i].id
                    != right.id && stands_apart(facts[i], right);
            let found = spaced_words(facts)[j];
            &&& parted ==> found.raw_text == seq![' '] + right.raw_text && found.repair_actions
                == right.repair_actions.push(RepairAction::OcrSpacing)
            &&& !parted ==> found == right
        }),
{
    let right = facts[j];
    assert forall|i: int| 0 <= i < facts.len() implies (word_before(#[trigger] facts[i], right)
        <==> ends_word(facts[i].raw_text) && facts[i].id != right.id && stands_apart(
        facts[i],
        right,
    )) by {
        lemma_plain(facts[i], right);
    }
    lemma_plain(right, right);
    if right.raw_text.len() > 0 {
        lemma_word(right.raw_text[0]);
    }
    assert(starts_word(right.raw_text) <==> right.raw_text.len() > 0 && spells_words(
        right.raw_text[0],
    ));
    if needs_blank(facts, right) {
        let i = choose|i: int| 0 <= i < facts.len() && word_before(#[trigger] facts[i], right);
        assert(ends_word(facts[i].raw_text));
    }
}

/// A text ends with a word where its last character spells words; marks that close a word are
/// passed over.
pub proof fn closing_marks_end_no_word(text: Seq<char>, c: char)
    ensures
        c == ',' || c == '.' || c == ':' || c == ';' || c == '!' || c == '?' || c == ')' || c == ']'
            || c == '}' || c == '"' || c == '\'' || c == '…' ==> ends_word(text.push(c))
            == ends_word(text),
        !(c == ',' || c == '.' || c == ':' || c == ';' || c == '!' || c == '?' || c == ')' || c
            == ']' || c == '}' || c == '"' || c == '\'' || c == '…') ==> ends_word(text.push(c))
            == spells_words(c),
        !ends_word(Seq::<char>::empty()),
{
    lemma_word(c);
    lemma_ends(text, text.push(c), text.len() as int);
}

proof fn lemma_ends(s: Seq<char>, t: Seq<char>, n: int)
    requires
        0 <= n <= s.len(),
        n <= t.len(),
        forall|k: int| 0 <= k < n ==> s[k] == t[k],
    ensures
        ends_word_upto(s, n) == ends_word_upto(t, n),
    decreases n,
{
    if n > 0 {
        lemma_ends(s, t, n - 1);
    }
}

} // verus!
