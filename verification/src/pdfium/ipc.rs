//! Versioned messages between the server and the isolated PDFium executable.
//!
//! The process that owns PDFium is a state machine: it is handed requests and
//! the results of PDFium calls, and answers with the next thing to do.

use vstd::prelude::*;

use crate::chars::{push_decimal, push_text, str_same, text_of_decimal};

verus! {

/// Image metadata distinguishes encoded files from deferred RGBA pixels.
pub const PROTOCOL_VERSION: u32 = 5;

/// Version of this package.
pub const PACKAGE_VERSION: &'static str = "0.1.0";

/// Name of the worker executable.
pub const WORKER_BINARY: &'static str = "docparse-pdfium-worker";

/// Why an operation on a document failed.
#[derive(Debug)]
pub enum PdfiumRuntimeError {
    /// The two processes no longer agree; the worker cannot go on.
    Transport { message: String },
    /// The document has no such page.
    InvalidPage { page_number: u32, page_count: u32 },
    /// PDFium reported a failure.
    Operation { message: String, fatal: bool },
}

impl PdfiumRuntimeError {
    /// Human-readable reason.
    pub open spec fn text(self) -> Seq<char> {
        match self {
            PdfiumRuntimeError::Transport { message } => message@,
            PdfiumRuntimeError::InvalidPage { page_number, page_count } => "page "@
                + text_of_decimal(page_number as nat) + " is outside 1..="@ + text_of_decimal(
                page_count as nat,
            ),
            PdfiumRuntimeError::Operation { message, fatal } => message@,
        }
    }

    /// Whether the worker has to stop.
    pub open spec fn ends_worker(self) -> bool {
        match self {
            PdfiumRuntimeError::Transport { message } => true,
            PdfiumRuntimeError::InvalidPage { page_number, page_count } => false,
            PdfiumRuntimeError::Operation { message, fatal } => fatal,
        }
    }

    /// Whether this is a transport failure with the given text.
    pub open spec fn is_transport(self, text: Seq<char>) -> bool {
        self is Transport && self.text() == text
    }

    /// A transport failure.
    pub fn transport(text: &str) -> (error: PdfiumRuntimeError)
        ensures
            error.is_transport(text@),
    {
        let mut message: String = String::new();
        push_text(&mut message, text);
        assert(message@ =~= text@);
        PdfiumRuntimeError::Transport { message }
    }

    /// Human-readable reason.
    pub fn message(&self) -> (text: String)
        ensures
            text@ == self.text(),
    {
        match self {
            PdfiumRuntimeError::Transport { message } => message.clone(),
            PdfiumRuntimeError::InvalidPage { page_number, page_count } => {
                let mut text: String = String::new();
                push_text(&mut text, "page ");
                push_decimal(&mut text, *page_number as u64);
                push_text(&mut text, " is outside 1..=");
                push_decimal(&mut text, *page_count as u64);
                assert(text@ =~= self.text());
                text
            },
            PdfiumRuntimeError::Operation { message, fatal } => message.clone(),
        }
    }

    /// Whether the worker has to stop.
    pub fn is_fatal(&self) -> (yes: bool)
        ensures
            yes == self.ends_worker(),
    {
        match self {
            PdfiumRuntimeError::Transport { message } => true,
            PdfiumRuntimeError::InvalidPage { page_number, page_count } => false,
            PdfiumRuntimeError::Operation { message, fatal } => *fatal,
        }
    }
}

/// Small bootstrap line; the endpoint is never part of diagnostic logs.
#[derive(Debug)]
pub struct Hello {
    pub protocol: u32,
    pub version: String,
    pub endpoint: String,
}

impl Hello {
    /// Whether the two processes can talk to each other.
    pub open spec fn is_compatible(self) -> bool {
        &&& self.protocol == PROTOCOL_VERSION
        &&& self.version@ == PACKAGE_VERSION@
        &&& self.endpoint@.len() > 0
    }

    /// The line of this process.
    pub fn new(endpoint: String) -> (hello: Hello)
        ensures
            hello.protocol == PROTOCOL_VERSION,
            hello.version@ == PACKAGE_VERSION@,
            hello.endpoint == endpoint,
    {
        let mut version: String = String::new();
        push_text(&mut version, PACKAGE_VERSION);
        assert(version@ =~= PACKAGE_VERSION@);
        Hello { protocol: PROTOCOL_VERSION, version, endpoint }
    }

    /// Rejects incompatible artifacts before transferring document input.
    pub fn validate(&self) -> (checked: Result<(), PdfiumRuntimeError>)
        ensures
            checked is Ok <==> self.is_compatible(),
            checked matches Err(error) ==> error.is_transport(
                "incompatible PDFium worker handshake"@,
            ),
    {
        if self.protocol != PROTOCOL_VERSION || !str_same(self.version.as_str(), PACKAGE_VERSION)
            || self.endpoint.as_str().unicode_len() == 0 {
            return Err(PdfiumRuntimeError::transport("incompatible PDFium worker handshake"));
        }
        Ok(())
    }
}

} // verus!
