//! Structural behaviour that follows from a layout label.

use vstd::prelude::*;

use crate::chars::{trim, trim_end, trim_end_of, trim_of};
use crate::layout::LayoutLabel;

verus! {

/// Structural behaviour selected from a model label without replacing that label.
#[derive(Debug, Clone, Copy, PartialEq, Eq, Structural)]
pub enum LabelPolicy {
    FlowText,
    Title,
    Algorithm,
    Atomic,
    Formula,
    Chrome,
    Structured,
    /// Annotation geometry without text ownership or participation in body composition.
    VisualOnly,
    Unknown,
}

/// The policy of a label.
pub open spec fn policy_of(label: LayoutLabel) -> LabelPolicy {
    match label {
        LayoutLabel::Abstract
        | LayoutLabel::AsideText
        | LayoutLabel::Content
        | LayoutLabel::Footnote
        | LayoutLabel::ReferenceContent
        | LayoutLabel::Text
        | LayoutLabel::VerticalText
        | LayoutLabel::VisionFootnote => LabelPolicy::FlowText,
        LayoutLabel::DocTitle
        | LayoutLabel::FigureTitle
        | LayoutLabel::ParagraphTitle => LabelPolicy::Title,
        LayoutLabel::Algorithm => LabelPolicy::Algorithm,
        LayoutLabel::Chart
        | LayoutLabel::FooterImage
        | LayoutLabel::HeaderImage
        | LayoutLabel::Image
        | LayoutLabel::Seal
        | LayoutLabel::Watermark => LabelPolicy::Atomic,
        LayoutLabel::DisplayFormula
        | LayoutLabel::FormulaNumber
        | LayoutLabel::InlineFormula => LabelPolicy::Formula,
        LayoutLabel::Footer | LayoutLabel::Header | LayoutLabel::Number => LabelPolicy::Chrome,
        LayoutLabel::Reference => LabelPolicy::VisualOnly,
        LayoutLabel::Table => LabelPolicy::Structured,
        LayoutLabel::Unknown(_) => LabelPolicy::Unknown,
    }
}

impl LabelPolicy {
    /// The policy of a label.
    pub fn of(label: &LayoutLabel) -> (policy: LabelPolicy)
        ensures
            policy == policy_of(*label),
    {
        match label {
            LayoutLabel::Abstract
            | LayoutLabel::AsideText
            | LayoutLabel::Content
            | LayoutLabel::Footnote
            | LayoutLabel::ReferenceContent
            | LayoutLabel::Text
            | LayoutLabel::VerticalText
            | LayoutLabel::VisionFootnote => LabelPolicy::FlowText,
            LayoutLabel::DocTitle
            | LayoutLabel::FigureTitle
            | LayoutLabel::ParagraphTitle => LabelPolicy::Title,
            LayoutLabel::Algorithm => LabelPolicy::Algorithm,
            LayoutLabel::Chart
            | LayoutLabel::FooterImage
            | LayoutLabel::HeaderImage
            | LayoutLabel::Image
            | LayoutLabel::Seal
            | LayoutLabel::Watermark => LabelPolicy::Atomic,
            LayoutLabel::DisplayFormula
            | LayoutLabel::FormulaNumber
            | LayoutLabel::InlineFormula => LabelPolicy::Formula,
            LayoutLabel::Footer | LayoutLabel::Header | LayoutLabel::Number => LabelPolicy::Chrome,
            LayoutLabel::Reference => LabelPolicy::VisualOnly,
            LayoutLabel::Table => LabelPolicy::Structured,
            LayoutLabel::Unknown(_) => LabelPolicy::Unknown,
        }
    }

    /// Whether canonical block text retains physical line breaks.
    pub fn preserves_line_breaks(self) -> (yes: bool)
        ensures
            yes == (self == LabelPolicy::Algorithm),
    {
        matches!(self, LabelPolicy::Algorithm)
    }

    /// Whether canonical block text may join an encoded line-end hyphen.
    pub fn joins_encoded_hyphens(self) -> (yes: bool)
        ensures
            yes == (self == LabelPolicy::FlowText || self == LabelPolicy::Title),
    {
        matches!(self, LabelPolicy::FlowText | LabelPolicy::Title)
    }

    /// What of a physical line enters the canonical block text.
    pub open spec fn line_text_of(self, text: Seq<char>) -> Seq<char> {
        if self == LabelPolicy::Algorithm {
            trim_end_of(text)
        } else {
            trim_of(text)
        }
    }

    /// Trims one physical line according to its canonical block text policy.
    pub fn line_text<'a>(self, text: &'a str) -> (trimmed: &'a str)
        ensures
            trimmed@ == self.line_text_of(text@),
    {
        if self.preserves_line_breaks() {
            trim_end(text)
        } else {
            trim(text)
        }
    }
}

} // verus!
