//! Errors of the library.

use vstd::prelude::*;

use crate::chars::{push_decimal, push_text, text_of_decimal};
use crate::geometry::GeometryError;

verus! {

/// Errors returned when a canonical result violates an ownership or schema invariant.
#[derive(Debug)]
pub enum ValidationError {
    /// One exact node path contains invalid or conflicting data.
    InvalidNode { path: String, reason: String },
}

impl ValidationError {
    /// Human-readable reason.
    pub open spec fn text(self) -> Seq<char> {
        match self {
            ValidationError::InvalidNode { path, reason } => "invalid result node "@ + path@ + ": "@
                + reason@,
        }
    }

    /// Human-readable reason.
    pub fn message(&self) -> (text: String)
        ensures
            text@ == self.text(),
    {
        let mut text: String = String::new();
        match self {
            ValidationError::InvalidNode { path, reason } => {
                push_text(&mut text, "invalid result node ");
                push_text(&mut text, path.as_str());
                push_text(&mut text, ": ");
                push_text(&mut text, reason.as_str());
            },
        }
        assert(text@ =~= self.text());
        text
    }
}

/// Errors produced while converting character facts into text items.
#[derive(Debug, Clone, Copy, PartialEq, Eq, Structural)]
pub enum ExtractError {
    /// A stable extraction index exceeded the public ID representation.
    ExtractionIndexOverflow,
    /// A visible character has no usable geometry.
    MissingCharacterGeometry { index: u32 },
    /// Extracted coordinates make no box.
    Geometry(GeometryError),
}

impl ExtractError {
    /// Human-readable reason.
    pub open spec fn text(self) -> Seq<char> {
        match self {
            ExtractError::ExtractionIndexOverflow => "text extraction index exceeds u32"@,
            ExtractError::MissingCharacterGeometry { index } => "character "@ + text_of_decimal(
                index as nat,
            ) + " has no valid geometry"@,
            ExtractError::Geometry(error) => error.text(),
        }
    }

    /// Human-readable reason.
    pub fn message(&self) -> (text: String)
        ensures
            text@ == self.text(),
    {
        let mut text: String = String::new();
        match self {
            ExtractError::ExtractionIndexOverflow => {
                push_text(&mut text, "text extraction index exceeds u32");
            },
            ExtractError::MissingCharacterGeometry { index } => {
                push_text(&mut text, "character ");
                push_decimal(&mut text, *index as u64);
                push_text(&mut text, " has no valid geometry");
            },
            ExtractError::Geometry(error) => {
                push_text(&mut text, error.message());
            },
        }
        assert(text@ =~= self.text());
        text
    }
}

/// Errors produced while freezing document-wide context from page probes.
#[derive(Debug)]
pub enum ContextError {
    /// A page probe has an invalid page number or geometry.
    InvalidProbe { page_number: u32, reason: String },
    /// More than one probe was supplied for the same page.
    DuplicatePage { page_number: u32 },
    /// The final probe set does not match the declared page count.
    ProbeCount { expected: u32, actual: usize },
}

impl ContextError {
    /// Human-readable reason.
    pub open spec fn text(self) -> Seq<char> {
        match self {
            ContextError::InvalidProbe { page_number, reason } => "invalid page probe "@
                + text_of_decimal(page_number as nat) + ": "@ + reason@,
            ContextError::DuplicatePage { page_number } => "duplicate page probe "@
                + text_of_decimal(page_number as nat),
            ContextError::ProbeCount { expected, actual } =>
            "page probe count mismatch: expected "@ + text_of_decimal(expected as nat) + ", got "@
                + text_of_decimal(actual as nat),
        }
    }

    /// Human-readable reason.
    pub fn message(&self) -> (text: String)
        ensures
            text@ == self.text(),
    {
        let mut text: String = String::new();
        match self {
            ContextError::InvalidProbe { page_number, reason } => {
                push_text(&mut text, "invalid page probe ");
                push_decimal(&mut text, *page_number as u64);
                push_text(&mut text, ": ");
                push_text(&mut text, reason.as_str());
            },
            ContextError::DuplicatePage { page_number } => {
                push_text(&mut text, "duplicate page probe ");
                push_decimal(&mut text, *page_number as u64);
            },
            ContextError::ProbeCount { expected, actual } => {
                push_text(&mut text, "page probe count mismatch: expected ");
                push_decimal(&mut text, *expected as u64);
                push_text(&mut text, ", got ");
                push_decimal(&mut text, *actual as u64);
            },
        }
        assert(text@ =~= self.text());
        text
    }
}

/// Errors produced while grouping text items into conservative line fragments.
#[derive(Debug, Clone, Copy, PartialEq, Eq, Structural)]
pub enum LineError {
    /// Metrics cannot be calculated for an empty line fragment.
    EmptyFragment,
    /// Text geometry became degenerate.
    Geometry(GeometryError),
}

impl LineError {
    /// Human-readable reason.
    pub open spec fn text(self) -> Seq<char> {
        match self {
            LineError::EmptyFragment => "line fragments cannot be empty"@,
            LineError::Geometry(error) => error.text(),
        }
    }

    /// Human-readable reason.
    pub fn message(&self) -> (text: &'static str)
        ensures
            text@ == self.text(),
    {
        match self {
            LineError::EmptyFragment => "line fragments cannot be empty",
            LineError::Geometry(error) => error.message(),
        }
    }
}

/// Errors produced while turning owned fragments into final semantic blocks.
#[derive(Debug, Clone, Copy, PartialEq, Eq, Structural)]
pub enum SemanticError {
    /// A fallback tree referenced a fragment that was already moved or out of range.
    MissingFallbackFragment { index: usize },
    /// Owner-local line reconstruction rejected empty or invalid fragment geometry.
    Line(LineError),
    /// Unioned final content geometry unexpectedly became invalid.
    Geometry(GeometryError),
}

impl SemanticError {
    /// Human-readable reason.
    pub open spec fn text(self) -> Seq<char> {
        match self {
            SemanticError::MissingFallbackFragment { index } =>
            "fallback region referenced unavailable fragment index "@ + text_of_decimal(
                index as nat,
            ),
            SemanticError::Line(error) => error.text(),
            SemanticError::Geometry(error) => error.text(),
        }
    }

    /// Human-readable reason.
    pub fn message(&self) -> (text: String)
        ensures
            text@ == self.text(),
    {
        let mut text: String = String::new();
        match self {
            SemanticError::MissingFallbackFragment { index } => {
                push_text(&mut text, "fallback region referenced unavailable fragment index ");
                push_decimal(&mut text, *index as u64);
            },
            SemanticError::Line(error) => {
                push_text(&mut text, error.message());
            },
            SemanticError::Geometry(error) => {
                push_text(&mut text, error.message());
            },
        }
        assert(text@ =~= self.text());
        text
    }
}

/// Errors produced when page-local order constraints cannot be resolved safely.
#[derive(Debug)]
pub enum OrderError {
    /// An edge references a node that was never registered.
    UnknownBlock { block_id: String },
    /// Only invariant-strength edges remain inside a contradictory cycle.
    InternalOrderConflict,
    /// More than one final block uses the same stable identity.
    DuplicateBlock { block_id: String },
    /// A resolved graph identity could not be recovered from owned blocks.
    MissingBlock { block_id: String },
}

impl OrderError {
    /// Human-readable reason.
    pub open spec fn text(self) -> Seq<char> {
        match self {
            OrderError::UnknownBlock { block_id } => "order edge references unknown block "@
                + block_id@,
            OrderError::InternalOrderConflict =>
            "strong page-order constraints form an irreducible cycle"@,
            OrderError::DuplicateBlock { block_id } => "duplicate block ID "@ + block_id@
                + " during order resolution"@,
            OrderError::MissingBlock { block_id } => "resolved block ID "@ + block_id@
                + " is missing from ownership storage"@,
        }
    }

    /// Human-readable reason.
    pub fn message(&self) -> (text: String)
        ensures
            text@ == self.text(),
    {
        let mut text: String = String::new();
        match self {
            OrderError::UnknownBlock { block_id } => {
                push_text(&mut text, "order edge references unknown block ");
                push_text(&mut text, block_id.as_str());
            },
            OrderError::InternalOrderConflict => {
                push_text(&mut text, "strong page-order constraints form an irreducible cycle");
            },
            OrderError::DuplicateBlock { block_id } => {
                push_text(&mut text, "duplicate block ID ");
                push_text(&mut text, block_id.as_str());
                push_text(&mut text, " during order resolution");
            },
            OrderError::MissingBlock { block_id } => {
                push_text(&mut text, "resolved block ID ");
                push_text(&mut text, block_id.as_str());
                push_text(&mut text, " is missing from ownership storage");
            },
        }
        assert(text@ =~= self.text());
        text
    }
}

/// Errors returned by the pure page-local analysis pipeline.
#[derive(Debug)]
pub enum PageAnalysisError {
    /// Extracted page dimensions, rotation, number, or context membership are invalid.
    InvalidInput { reason: String },
    /// Native facts changed multiplicity while moving through page ownership containers.
    NativeTextConservation { page_number: u32 },
    /// Conservative line assembly failed before ownership fusion.
    Line(LineError),
    /// Semantic block construction failed after ownership assignment.
    Semantic(SemanticError),
    /// Ordering constraints could not be resolved safely.
    Order(OrderError),
    /// The completed page violated a canonical result invariant.
    Validation(ValidationError),
}

impl PageAnalysisError {
    /// Human-readable reason.
    pub open spec fn text(self) -> Seq<char> {
        match self {
            PageAnalysisError::InvalidInput { reason } => "invalid page analysis input: "@
                + reason@,
            PageAnalysisError::NativeTextConservation { page_number } =>
            "native text conservation failed on page "@ + text_of_decimal(page_number as nat),
            PageAnalysisError::Line(error) => error.text(),
            PageAnalysisError::Semantic(error) => error.text(),
            PageAnalysisError::Order(error) => error.text(),
            PageAnalysisError::Validation(error) => error.text(),
        }
    }

    /// Human-readable reason.
    pub fn message(&self) -> (text: String)
        ensures
            text@ == self.text(),
    {
        let mut text: String = String::new();
        match self {
            PageAnalysisError::InvalidInput { reason } => {
                push_text(&mut text, "invalid page analysis input: ");
                push_text(&mut text, reason.as_str());
            },
            PageAnalysisError::NativeTextConservation { page_number } => {
                push_text(&mut text, "native text conservation failed on page ");
                push_decimal(&mut text, *page_number as u64);
            },
            PageAnalysisError::Line(error) => {
                push_text(&mut text, error.message());
            },
            PageAnalysisError::Semantic(error) => {
                push_text(&mut text, error.message().as_str());
            },
            PageAnalysisError::Order(error) => {
                push_text(&mut text, error.message().as_str());
            },
            PageAnalysisError::Validation(error) => {
                push_text(&mut text, error.message().as_str());
            },
        }
        assert(text@ =~= self.text());
        text
    }
}

} // verus!
