//! Detections of the layout model.

use vstd::prelude::*;

use crate::geometry::Bbox;
use crate::types::WHOLE;

verus! {

/// What the layout model says a region is.
#[derive(Debug)]
pub enum LayoutLabel {
    Abstract,
    Algorithm,
    AsideText,
    Chart,
    Content,
    DisplayFormula,
    DocTitle,
    FigureTitle,
    Footer,
    FooterImage,
    Footnote,
    FormulaNumber,
    Header,
    HeaderImage,
    Image,
    InlineFormula,
    Number,
    ParagraphTitle,
    Reference,
    ReferenceContent,
    Seal,
    Table,
    Text,
    VerticalText,
    VisionFootnote,
    Watermark,
    Unknown(String),
}

impl LayoutLabel {
    /// An equal label.
    pub fn copy(&self) -> (copy: LayoutLabel)
        ensures
            copy == *self,
    {
        match self {
            LayoutLabel::Abstract => LayoutLabel::Abstract,
            LayoutLabel::Algorithm => LayoutLabel::Algorithm,
            LayoutLabel::AsideText => LayoutLabel::AsideText,
            LayoutLabel::Chart => LayoutLabel::Chart,
            LayoutLabel::Content => LayoutLabel::Content,
            LayoutLabel::DisplayFormula => LayoutLabel::DisplayFormula,
            LayoutLabel::DocTitle => LayoutLabel::DocTitle,
            LayoutLabel::FigureTitle => LayoutLabel::FigureTitle,
            LayoutLabel::Footer => LayoutLabel::Footer,
            LayoutLabel::FooterImage => LayoutLabel::FooterImage,
            LayoutLabel::Footnote => LayoutLabel::Footnote,
            LayoutLabel::FormulaNumber => LayoutLabel::FormulaNumber,
            LayoutLabel::Header => LayoutLabel::Header,
            LayoutLabel::HeaderImage => LayoutLabel::HeaderImage,
            LayoutLabel::Image => LayoutLabel::Image,
            LayoutLabel::InlineFormula => LayoutLabel::InlineFormula,
            LayoutLabel::Number => LayoutLabel::Number,
            LayoutLabel::ParagraphTitle => LayoutLabel::ParagraphTitle,
            LayoutLabel::Reference => LayoutLabel::Reference,
            LayoutLabel::ReferenceContent => LayoutLabel::ReferenceContent,
            LayoutLabel::Seal => LayoutLabel::Seal,
            LayoutLabel::Table => LayoutLabel::Table,
            LayoutLabel::Text => LayoutLabel::Text,
            LayoutLabel::VerticalText => LayoutLabel::VerticalText,
            LayoutLabel::VisionFootnote => LayoutLabel::VisionFootnote,
            LayoutLabel::Watermark => LayoutLabel::Watermark,
            LayoutLabel::Unknown(name) => LayoutLabel::Unknown(name.clone()),
        }
    }
}

/// Number of classes the layout model knows.
pub const CLASS_COUNT: i64 = 25;

/// Whether the layout model knows a class index.
pub open spec fn known_class(class_id: int) -> bool {
    0 <= class_id < CLASS_COUNT
}

/// How the outline of a detection was found.
#[derive(Debug, Clone, Copy, PartialEq, Eq, Structural)]
pub enum GeometrySource {
    ModelBox,
    ModelPolygon,
}

/// One row of the layout model's answer.
///
/// `confidence` is in millionths; a value outside `0..=1_000_000` stands for a
/// number that is no probability. `outline` is the box around a polygon and
/// twice the polygon's area, where the model gave one.
#[derive(Debug)]
pub struct LayoutDetection {
    pub source_detection_index: u32,
    pub raw_label: String,
    pub class_id: i64,
    pub label: LayoutLabel,
    pub confidence: i64,
    pub bbox: Bbox,
    pub outline: Option<Outline>,
    pub geometry_source: GeometrySource,
    pub model_order: i64,
}

/// What is known of a polygon without its corners.
#[derive(Debug, Clone, Copy, PartialEq, Eq, Structural)]
pub struct Outline {
    pub bbox: Bbox,
    pub area: i128,
}

/// Whether a confidence is a probability.
pub open spec fn is_probability(confidence: int) -> bool {
    0 <= confidence <= WHOLE
}

impl LayoutDetection {
    /// An equal detection.
    pub fn copy(&self) -> (copy: LayoutDetection)
        ensures
            copy == *self,
    {
        LayoutDetection {
            source_detection_index: self.source_detection_index,
            raw_label: self.raw_label.clone(),
            class_id: self.class_id,
            label: self.label.copy(),
            confidence: self.confidence,
            bbox: self.bbox,
            outline: self.outline,
            geometry_source: self.geometry_source,
            model_order: self.model_order,
        }
    }
}

} // verus!
