//! Recognized text for regions without usable native text.

pub mod coverage;
pub mod index;
pub mod matching;
pub mod merge;
pub mod merge_laws;
pub mod overlap;
pub mod overlap_laws;
pub mod plan;
pub mod plan_laws;
pub mod spacing;
pub mod spacing_laws;

use vstd::prelude::*;

use crate::chars::{push_decimal, push_text, text_of_decimal};
use crate::geometry::Bbox;
use crate::types::{Quad, Rotation};

verus! {

/// Observable OCR availability for one requested page or missing region.
#[derive(Debug, Clone, Copy, PartialEq, Eq, Structural)]
pub enum OcrContentStatus {
    Recognized,
    Unavailable,
    Failed,
}

/// When text is recognized.
#[derive(Debug, Clone, Copy, PartialEq, Eq, Structural)]
pub enum OcrPolicy {
    Disabled,
    Always,
    MissingRegions,
}

/// Settings of recognition; the threshold is in millionths.
#[derive(Debug, Clone, Copy, PartialEq, Eq, Structural)]
pub struct OcrConfig {
    pub policy: OcrPolicy,
    pub recognition_threshold: u32,
}

/// The four corners of a recognized line, with its measured direction and height.
///
/// The corner order includes the rotation of the crop and its correction.
#[derive(Debug, Clone, Copy, PartialEq, Eq, Structural)]
pub struct OcrQuad {
    pub quad: Quad,
    pub rotation: Rotation,
    pub height: i32,
}

/// One raw fact of an engine, before it has an identity.
///
/// `confidence` is in millionths; a value outside `0..=1_000_000` stands for a
/// number that is no probability. `outline` is the box around a polygon.
#[derive(Debug)]
pub struct OcrTextItem {
    pub text: String,
    pub bbox: Bbox,
    pub outline: Option<Bbox>,
    pub quad: Option<OcrQuad>,
    pub confidence: i64,
}

/// Raw deterministic response of an engine.
#[derive(Debug)]
pub struct OcrResult {
    pub items: Vec<OcrTextItem>,
}

/// How the recognition of a page ended.
#[derive(Debug)]
pub enum OcrCompletion {
    Succeeded { result: OcrResult },
    Unavailable,
    NotRequested,
    Failed { message: String },
}

/// Stable boundary errors returned by custom OCR engines or result validation.
#[derive(Debug)]
pub enum OcrError {
    /// The external engine failed without changing existing native/layout facts.
    Engine { message: String },
    /// One raw OCR result contains unusable text, confidence, or geometry.
    InvalidResult { index: usize, reason: String },
}

impl OcrError {
    /// Human-readable reason.
    pub open spec fn text(self) -> Seq<char> {
        match self {
            OcrError::Engine { message } => "OCR engine failed: "@ + message@,
            OcrError::InvalidResult { index, reason } => "invalid OCR result "@ + text_of_decimal(
                index as nat,
            ) + ": "@ + reason@,
        }
    }

    /// Human-readable reason.
    pub fn message(&self) -> (text: String)
        ensures
            text@ == self.text(),
    {
        let mut text: String = String::new();
        match self {
            OcrError::Engine { message } => {
                push_text(&mut text, "OCR engine failed: ");
                push_text(&mut text, message.as_str());
            },
            OcrError::InvalidResult { index, reason } => {
                push_text(&mut text, "invalid OCR result ");
                push_decimal(&mut text, *index as u64);
                push_text(&mut text, ": ");
                push_text(&mut text, reason.as_str());
            },
        }
        assert(text@ =~= self.text());
        text
    }
}

} // verus!
