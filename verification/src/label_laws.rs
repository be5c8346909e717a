//! Which labels behave alike, and what tables of characters say.

use vstd::prelude::*;

use crate::chars::is_space;
use crate::label_policy::{policy_of, LabelPolicy};
use crate::layout::LayoutLabel;
use crate::text_laws::trimming_takes_only_blanks;
use crate::text_rules::{letters_from, mark_from, Ligature};

verus! {

/// A label has the behaviour of its kind, and no other: prose, titles, algorithms, figures,
/// formulas, page furniture, tables, references and labels that are not known.
pub proof fn labels_decide_policies(label: LayoutLabel)
    ensures
        policy_of(label) == LabelPolicy::FlowText <==> label is Abstract || label is AsideText
            || label is Content || label is Footnote || label is ReferenceContent || label is Text
            || label is VerticalText || label is VisionFootnote,
        policy_of(label) == LabelPolicy::Title <==> label is DocTitle || label is FigureTitle
            || label is ParagraphTitle,
        policy_of(label) == LabelPolicy::Algorithm <==> label is Algorithm,
        policy_of(label) == LabelPolicy::Atomic <==> label is Chart || label is FooterImage
            || label is HeaderImage || label is Image || label is Seal || label is Watermark,
        policy_of(label) == LabelPolicy::Formula <==> label is DisplayFormula
            || label is FormulaNumber || label is InlineFormula,
        policy_of(label) == LabelPolicy::Chrome <==> label is Footer || label is Header
            || label is Number,
        policy_of(label) == LabelPolicy::VisualOnly <==> label is Reference,
        policy_of(label) == LabelPolicy::Structured <==> label is Table,
        policy_of(label) == LabelPolicy::Unknown <==> label is Unknown,
{
}

/// A line of an algorithm keeps its indentation, and a line of any other block does not.
pub proof fn only_algorithms_keep_indentation(policy: LabelPolicy, text: Seq<char>)
    ensures
        policy == LabelPolicy::Algorithm ==> policy.line_text_of(text) == text.take(
            policy.line_text_of(text).len() as int,
        ),
        policy != LabelPolicy::Algorithm && policy.line_text_of(text).len() > 0 ==> !is_space(
            policy.line_text_of(text)[0],
        ),
        policy.line_text_of(text).len() <= text.len(),
        policy != LabelPolicy::Algorithm && policy.line_text_of(text).len() > 0 ==> !is_space(
            policy.line_text_of(text).last(),
        ),
{
    let cut = trimming_takes_only_blanks(text);
}

/// A table of marks gives a mark what its first entry for it says, and leaves any other as it is.
pub proof fn marks_follow_their_first_entry(table: Seq<(char, char)>, c: char, from: int)
    requires
        0 <= from <= table.len(),
    ensures
        forall|i: int|
            from <= i < table.len() && (#[trigger] table[i]).0 == c && (forall|k: int|
                from <= k < i ==> (#[trigger] table[k]).0 != c) ==> mark_from(table, c, from)
                == table[i].1,
        (forall|i: int| from <= i < table.len() ==> (#[trigger] table[i]).0 != c) ==> mark_from(
            table,
            c,
            from,
        ) == c,
    decreases table.len() - from,
{
    if from < table.len() {
        marks_follow_their_first_entry(table, c, from + 1);
    }
}

/// A table of ligatures gives a ligature the letters of its first entry for it, and any other
/// character none.
pub proof fn ligatures_follow_their_first_entry(table: Seq<Ligature>, c: char, from: int)
    requires
        0 <= from <= table.len(),
    ensures
        forall|i: int|
            from <= i < table.len() && (#[trigger] table[i]).character == c && (forall|k: int|
                from <= k < i ==> (#[trigger] table[k]).character != c) ==> letters_from(
                table,
                c,
                from,
            ) == Some(table[i].letters@),
        (forall|i: int| from <= i < table.len() ==> (#[trigger] table[i]).character != c)
            ==> letters_from(table, c, from) is None,
    decreases table.len() - from,
{
    if from < table.len() {
        ligatures_follow_their_first_entry(table, c, from + 1);
    }
}

} // verus!
