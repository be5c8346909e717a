//! Blocks and lines of a page.

use vstd::prelude::*;

use crate::chars::{push_decimal, push_text, text_of_decimal};
use crate::fusion::region::RegionPath;
use crate::geometry::{Baseline, Bbox};
use crate::layout::LayoutLabel;
use crate::types::{Rotation, TextItem, WritingDirection};

verus! {

/// Stable identity of one block.
#[derive(Debug)]
pub struct BlockId {
    pub text: String,
}

impl View for BlockId {
    type V = Seq<char>;

    open spec fn view(&self) -> Seq<char> {
        self.text@
    }
}

/// Spelling of the identity of a segment of a detected region.
pub open spec fn model_block_id(page: nat, region: nat, segment: nat) -> Seq<char> {
    "p"@ + text_of_decimal(page) + ":b:m"@ + text_of_decimal(region) + ":s"@ + text_of_decimal(
        segment,
    )
}

/// Spelling of the identity of a segment of a fallback region.
pub open spec fn fallback_block_id(page: nat, path: RegionPath, segment: nat) -> Seq<char> {
    "p"@ + text_of_decimal(page) + ":b:f"@ + path.text() + ":s"@ + text_of_decimal(segment)
}

impl BlockId {
    /// The identity of a segment of a detected region.
    pub fn model(page_number: u32, region: u32, segment: u32) -> (id: BlockId)
        ensures
            id@ == model_block_id(page_number as nat, region as nat, segment as nat),
    {
        let mut text: String = String::new();
        push_text(&mut text, "p");
        push_decimal(&mut text, page_number as u64);
        push_text(&mut text, ":b:m");
        push_decimal(&mut text, region as u64);
        push_text(&mut text, ":s");
        push_decimal(&mut text, segment as u64);
        assert(text@ =~= model_block_id(page_number as nat, region as nat, segment as nat));
        BlockId { text }
    }

    /// The identity of a segment of a fallback region.
    pub fn fallback(page_number: u32, path: &RegionPath, segment: u32) -> (id: BlockId)
        ensures
            id@ == fallback_block_id(page_number as nat, *path, segment as nat),
    {
        let mut text: String = String::new();
        push_text(&mut text, "p");
        push_decimal(&mut text, page_number as u64);
        push_text(&mut text, ":b:f");
        path.write_to(&mut text);
        push_text(&mut text, ":s");
        push_decimal(&mut text, segment as u64);
        assert(text@ =~= fallback_block_id(page_number as nat, *path, segment as nat));
        BlockId { text }
    }

    /// The spelling.
    pub fn as_str(&self) -> (text: &str)
        ensures
            text@ == self@,
    {
        self.text.as_str()
    }

    /// An equal identity.
    pub fn copy(&self) -> (copy: BlockId)
        ensures
            copy == *self,
    {
        BlockId { text: self.text.clone() }
    }
}

/// Stable identity of one line.
#[derive(Debug)]
pub struct LineId {
    pub text: String,
}

impl View for LineId {
    type V = Seq<char>;

    open spec fn view(&self) -> Seq<char> {
        self.text@
    }
}

/// Spelling of the identity of a line of a block.
pub open spec fn line_id_of(block: Seq<char>, index: nat) -> Seq<char> {
    block + ":l"@ + text_of_decimal(index)
}

impl LineId {
    /// The identity of a line of a block.
    pub fn new(block: &BlockId, index: u32) -> (id: LineId)
        ensures
            id@ == line_id_of(block@, index as nat),
    {
        let mut text: String = String::new();
        push_text(&mut text, block.as_str());
        push_text(&mut text, ":l");
        push_decimal(&mut text, index as u64);
        assert(text@ =~= line_id_of(block@, index as nat));
        LineId { text }
    }

    /// The spelling.
    pub fn as_str(&self) -> (text: &str)
        ensures
            text@ == self@,
    {
        self.text.as_str()
    }

    /// An equal identity.
    pub fn copy(&self) -> (copy: LineId)
        ensures
            copy == *self,
    {
        LineId { text: self.text.clone() }
    }
}

/// One physical line of a block.
#[derive(Debug)]
pub struct Line {
    pub id: LineId,
    pub text: String,
    pub bbox: Bbox,
    pub direction: WritingDirection,
    pub rotation: Rotation,
    pub baseline: Option<Baseline>,
    pub text_items: Vec<TextItem>,
    /// Number of annotated ranges of the line.
    pub inline_spans: usize,
}

/// Where the label of a block comes from.
#[derive(Debug, Clone, Copy, PartialEq, Eq, Structural)]
pub enum LabelSource {
    Model,
    Fallback,
    Heuristic,
    Pdf,
}

/// Format of an image file.
#[derive(Debug, Clone, Copy, PartialEq, Eq, Structural)]
pub enum FigureMediaType {
    Jpeg,
    Png,
    Jp2,
    Jpx,
}

/// Where the pixels of a figure come from.
#[derive(Debug, Clone, Copy, PartialEq, Eq, Structural)]
pub enum FigureSource {
    Embedded,
    Raster,
}

/// How a figure is handed over.
#[derive(Debug)]
pub enum FigureDelivery {
    Inline { data_base64: String },
    File { path: String },
}

/// The image of a figure.
#[derive(Debug)]
pub struct FigureImage {
    pub source: FigureSource,
    pub media_type: FigureMediaType,
    pub width: u32,
    pub height: u32,
    pub delivery: FigureDelivery,
}

/// One decision about a block, with named details.
#[derive(Debug)]
pub struct Evidence {
    pub kind: String,
    pub details: Vec<(String, String)>,
}

/// What a decision says.
#[verifier::ext_equal]
pub struct EvidenceModel {
    pub kind: Seq<char>,
    pub details: Seq<(Seq<char>, Seq<char>)>,
}

impl View for Evidence {
    type V = EvidenceModel;

    open spec fn view(&self) -> EvidenceModel {
        EvidenceModel {
            kind: self.kind@,
            details: Seq::new(
                self.details@.len(),
                |i: int| (self.details@[i].0@, self.details@[i].1@),
            ),
        }
    }
}

/// What a list of decisions says.
pub open spec fn evidence_models(list: Seq<Evidence>) -> Seq<EvidenceModel> {
    Seq::new(list.len(), |i: int| list[i]@)
}

/// One content layout of a page.
///
/// `confidence` is in millionths.
#[derive(Debug)]
pub struct Block {
    pub id: BlockId,
    pub label: LayoutLabel,
    pub text: String,
    pub label_source: LabelSource,
    pub bbox: Bbox,
    pub confidence: Option<u32>,
    pub model_region_id: Option<String>,
    pub model_order: Option<i64>,
    pub fallback_region_id: Option<String>,
    pub lines: Vec<Line>,
    pub final_order: u32,
    pub figure_bounds: Option<Bbox>,
    pub embedded_image_index: Option<u32>,
    /// What was decided about the block, in the order of the decisions.
    pub evidence: Vec<Evidence>,
    pub image: Option<FigureImage>,
}

impl Block {
    /// A block of which only identity, label and place are known.
    pub fn new(id: BlockId, label: LayoutLabel, label_source: LabelSource, bbox: Bbox) -> (block:
        Block)
        ensures
            block.id == id,
            block.label == label,
            block.text@.len() == 0,
            block.label_source == label_source,
            block.bbox == bbox,
            block.confidence is None,
            block.model_region_id is None,
            block.model_order is None,
            block.fallback_region_id is None,
            block.lines@.len() == 0,
            block.final_order == 0,
            block.figure_bounds is None,
            block.embedded_image_index is None,
            block.evidence@.len() == 0,
            block.image is None,
    {
        Block {
            id,
            label,
            text: String::new(),
            label_source,
            bbox,
            confidence: None,
            model_region_id: None,
            model_order: None,
            fallback_region_id: None,
            lines: Vec::new(),
            final_order: 0,
            figure_bounds: None,
            embedded_image_index: None,
            evidence: Vec::new(),
            image: None,
        }
    }

    /// Whether the block stands outside the body of the page.
    pub open spec fn detached(self) -> bool {
        self.label is Watermark || self.label is Reference
    }

    /// Whether the block stands outside the body of the page.
    pub fn is_detached(&self) -> (yes: bool)
        ensures
            yes == self.detached(),
    {
        match self.label {
            LayoutLabel::Watermark | LayoutLabel::Reference => true,
            _ => false,
        }
    }
}

} // verus!
