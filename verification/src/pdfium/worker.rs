//! The process that owns PDFium, as a state machine.
//!
//! The process hands in each request it receives and the result of each PDFium
//! call, and is told what to do next. An error ends the process.

use vstd::prelude::*;

use super::ipc::PdfiumRuntimeError;

verus! {

/// How a page is rendered.
#[derive(Debug, Clone, Copy, PartialEq, Eq, Structural)]
pub struct RenderConfig {
    pub dpi: u32,
    pub max_long_edge_pixels: u32,
}

/// Document-affine operations; glyph replies belong to the active scan request.
#[derive(Debug)]
pub enum Command {
    /// Opens the source that travels with the request.
    Open,
    PreScan { page_number: u32, resolve_glyphs: bool },
    Render { page_number: u32, config: RenderConfig },
    GlyphReply { text: Option<String> },
    Close,
    Shutdown,
}

/// Correlation survives document reuse; new processes receive fresh channels.
#[derive(Debug)]
pub struct Request {
    pub lease: u64,
    pub id: u64,
    pub command: Command,
}

/// The document that is open.
#[derive(Debug, Clone, Copy, PartialEq, Eq, Structural)]
pub struct OpenDocument {
    pub lease: u64,
    pub page_count: u32,
    /// Identity of the last request of this document.
    pub last_id: u64,
}

/// What the process is doing.
#[derive(Debug, Clone, Copy, PartialEq, Eq, Structural)]
pub enum Phase {
    /// No document is open.
    Idle,
    /// A document is being opened for this lease and request.
    Opening { lease: u64, id: u64 },
    /// A document is open and no request is running.
    Ready { document: OpenDocument },
    /// The last request of the document is running.
    Working { document: OpenDocument },
    /// The process stops.
    Stopped,
}

/// The process between two events.
#[derive(Debug, Clone, Copy, PartialEq, Eq, Structural)]
pub struct Worker {
    pub last_lease: u64,
    pub phase: Phase,
}

/// What to do with a request.
#[derive(Debug)]
pub enum Step {
    /// Open the source and report how that went.
    Open,
    /// Read the facts of a page and report how that went.
    PreScan { page_number: u32, resolve_glyphs: bool },
    /// Render a page and report how that went.
    Render { page_number: u32, config: RenderConfig },
    /// Reply that the request failed; the document stays open.
    Refuse { lease: u64, id: u64, error: PdfiumRuntimeError },
    /// Release the document, reply that it is closed, and stop where `stop` is set.
    Close { lease: u64, id: u64, stop: bool },
}

/// What a finished operation is answered with.
#[derive(Debug)]
pub enum Answer {
    /// The document is open and has this many pages.
    Opened { page_count: u32 },
    /// The result of the operation.
    Done,
    /// A failure that leaves the process healthy.
    Failure { message: String },
}

impl Worker {
    /// The process at its start, before any document.
    pub fn new() -> (worker: Worker)
        ensures
            worker == (Worker { last_lease: 0, phase: Phase::Idle }),
    {
        Worker { last_lease: 0, phase: Phase::Idle }
    }

    /// Why a request cannot be taken.
    pub open spec fn rejects(self, request: Request) -> Option<Seq<char>> {
        match self.phase {
            Phase::Idle => {
                if request.command is Shutdown || (request.command is Open && request.lease
                    > self.last_lease) {
                    None
                } else {
                    Some("expected a new PDFium document lease"@)
                }
            },
            Phase::Ready { document } => {
                let expected = if request.command is Shutdown { 0 } else { document.lease };
                if request.lease != expected || request.id <= document.last_id {
                    Some("stale PDFium document request"@)
                } else {
                    match request.command {
                        Command::Render { page_number, config } => {
                            if 1 <= page_number <= document.page_count && (config.dpi == 0
                                || config.max_long_edge_pixels == 0) {
                                Some("invalid worker render configuration"@)
                            } else {
                                None
                            }
                        },
                        Command::Open => Some("unexpected command inside PDFium document"@),
                        Command::GlyphReply { text } => Some(
                            "unexpected command inside PDFium document"@,
                        ),
                        _ => None,
                    }
                }
            },
            _ => Some("request while an operation is running"@),
        }
    }

    /// The state after a request that was taken.
    pub open spec fn after(self, request: Request) -> Worker {
        match self.phase {
            Phase::Ready { document } => {
                let newer = OpenDocument { last_id: request.id, ..document };
                let phase = match request.command {
                    Command::Close => Phase::Idle,
                    Command::Shutdown => Phase::Stopped,
                    Command::PreScan { page_number, resolve_glyphs } => if 1 <= page_number
                        <= document.page_count {
                        Phase::Working { document: newer }
                    } else {
                        Phase::Ready { document: newer }
                    },
                    Command::Render { page_number, config } => if 1 <= page_number
                        <= document.page_count {
                        Phase::Working { document: newer }
                    } else {
                        Phase::Ready { document: newer }
                    },
                    _ => self.phase,
                };
                Worker { phase, ..self }
            },
            _ => if request.command is Shutdown {
                Worker { phase: Phase::Stopped, ..self }
            } else {
                Worker {
                    last_lease: request.lease,
                    phase: Phase::Opening { lease: request.lease, id: request.id },
                }
            },
        }
    }

    /// Whether a step is what a request asks for.
    pub open spec fn answers(self, request: Request, step: Step) -> bool {
        match request.command {
            Command::Open => step == Step::Open,
            Command::Close => step == (Step::Close {
                lease: request.lease,
                id: request.id,
                stop: false,
            }),
            Command::Shutdown => step == (Step::Close {
                lease: request.lease,
                id: request.id,
                stop: true,
            }),
            Command::PreScan { page_number, resolve_glyphs } => self.page_step(
                request,
                page_number,
                step,
                Step::PreScan { page_number, resolve_glyphs },
            ),
            Command::Render { page_number, config } => self.page_step(
                request,
                page_number,
                step,
                Step::Render { page_number, config },
            ),
            Command::GlyphReply { text } => false,
        }
    }

    /// A page of the document is worked on; any other page is refused.
    pub open spec fn page_step(self, request: Request, page: u32, step: Step, work: Step) -> bool {
        match self.phase {
            Phase::Ready { document } => if 1 <= page <= document.page_count {
                step == work
            } else {
                step == (Step::Refuse {
                    lease: document.lease,
                    id: request.id,
                    error: PdfiumRuntimeError::InvalidPage {
                        page_number: page,
                        page_count: document.page_count,
                    },
                })
            },
            _ => false,
        }
    }

    /// Takes the next request.
    ///
    /// Shutdown is process-wide and follows any operation on the same channel.
    pub fn receive(&mut self, request: &Request) -> (step: Result<Step, PdfiumRuntimeError>)
        ensures
            step is Err <==> old(self).rejects(*request) is Some,
            step matches Err(error) ==> error.is_transport(old(self).rejects(*request)->0)
                && *final(self) == *old(self),
            step matches Ok(taken) ==> old(self).answers(*request, taken) && *final(self) == old(
                self,
            ).after(*request),
    {
        match self.phase {
            Phase::Idle => match &request.command {
                Command::Shutdown => {
                    self.phase = Phase::Stopped;
                    Ok(Step::Close { lease: request.lease, id: request.id, stop: true })
                },
                Command::Open => {
                    if request.lease > self.last_lease {
                        self.last_lease = request.lease;
                        self.phase = Phase::Opening { lease: request.lease, id: request.id };
                        Ok(Step::Open)
                    } else {
                        Err(PdfiumRuntimeError::transport("expected a new PDFium document lease"))
                    }
                },
                _ => Err(PdfiumRuntimeError::transport("expected a new PDFium document lease")),
            },
            Phase::Ready { document } => self.receive_ready(document, request),
            _ => Err(PdfiumRuntimeError::transport("request while an operation is running")),
        }
    }

    fn receive_ready(&mut self, document: OpenDocument, request: &Request) -> (step: Result<
        Step,
        PdfiumRuntimeError,
    >)
        requires
            old(self).phase == (Phase::Ready { document }),
        ensures
            step is Err <==> old(self).rejects(*request) is Some,
            step matches Err(error) ==> error.is_transport(old(self).rejects(*request)->0)
                && *final(self) == *old(self),
            step matches Ok(taken) ==> old(self).answers(*request, taken) && *final(self) == old(
                self,
            ).after(*request),
    {
        let expected: u64 = match &request.command {
            Command::Shutdown => 0,
            _ => document.lease,
        };
        if request.lease != expected || request.id <= document.last_id {
            return Err(PdfiumRuntimeError::transport("stale PDFium document request"));
        }
        let newer: OpenDocument = OpenDocument {
            lease: document.lease,
            page_count: document.page_count,
            last_id: request.id,
        };
        match &request.command {
            Command::Close => {
                self.phase = Phase::Idle;
                Ok(Step::Close { lease: request.lease, id: request.id, stop: false })
            },
            Command::Shutdown => {
                self.phase = Phase::Stopped;
                Ok(Step::Close { lease: request.lease, id: request.id, stop: true })
            },
            Command::PreScan { page_number, resolve_glyphs } => {
                if 1 <= *page_number && *page_number <= document.page_count {
                    self.phase = Phase::Working { document: newer };
                    Ok(Step::PreScan { page_number: *page_number, resolve_glyphs: *resolve_glyphs })
                } else {
                    self.phase = Phase::Ready { document: newer };
                    Ok(refuse(&document, request.id, *page_number))
                }
            },
            Command::Render { page_number, config } => {
                if !(1 <= *page_number && *page_number <= document.page_count) {
                    self.phase = Phase::Ready { document: newer };
                    Ok(refuse(&document, request.id, *page_number))
                } else if config.dpi == 0 || config.max_long_edge_pixels == 0 {
                    Err(PdfiumRuntimeError::transport("invalid worker render configuration"))
                } else {
                    self.phase = Phase::Working { document: newer };
                    Ok(Step::Render { page_number: *page_number, config: *config })
                }
            },
            _ => Err(PdfiumRuntimeError::transport("unexpected command inside PDFium document")),
        }
    }

    /// Reports how opening went: the page count that PDFium states, or why it failed.
    ///
    /// A document without pages is rejected with the text `empty`. A rejected
    /// document does not imply that the process is unhealthy.
    pub fn opened(&mut self, result: Result<i32, String>, empty: String) -> (reply: (
        u64,
        u64,
        Answer,
    ))
        requires
            old(self).phase is Opening,
        ensures
            final(self).last_lease == old(self).last_lease,
            reply.0 == old(self).phase->Opening_lease,
            reply.1 == old(self).phase->Opening_id,
            match result {
                Err(message) => reply.2 == (Answer::Failure { message }) && final(self).phase
                    == Phase::Idle,
                Ok(count) => if count > 0 {
                    reply.2 == (Answer::Opened { page_count: count as u32 }) && final(self).phase
                        == (Phase::Ready {
                        document: OpenDocument {
                            lease: reply.0,
                            page_count: count as u32,
                            last_id: reply.1,
                        },
                    })
                } else {
                    reply.2 == (Answer::Failure { message: empty }) && final(self).phase
                        == Phase::Idle
                },
            },
    {
        let (lease, id): (u64, u64) = match self.phase {
            Phase::Opening { lease, id } => (lease, id),
            _ => (0, 0),
        };
        match result {
            Err(message) => {
                self.phase = Phase::Idle;
                (lease, id, Answer::Failure { message })
            },
            Ok(count) => {
                if count > 0 {
                    let page_count: u32 = count as u32;
                    self.phase = Phase::Ready {
                        document: OpenDocument { lease, page_count, last_id: id },
                    };
                    (lease, id, Answer::Opened { page_count })
                } else {
                    self.phase = Phase::Idle;
                    (lease, id, Answer::Failure { message: empty })
                }
            },
        }
    }

    /// Reports how an operation on a page went, with the glyph requests it made.
    ///
    /// A failed glyph request invalidates the whole scan. A fatal failure ends
    /// the process; any other failure is answered and the document stays open.
    pub fn finished(
        &mut self,
        result: Result<(), PdfiumRuntimeError>,
        glyphs: &GlyphProxy,
    ) -> (reply: Result<(u64, u64, Answer), PdfiumRuntimeError>)
        requires
            old(self).phase is Working,
        ensures
            final(self).last_lease == old(self).last_lease,
            reply is Err <==> (glyphs.failure is Some || (result is Err
                && result->Err_0.ends_worker())),
            reply matches Err(error) ==> *final(self) == *old(self) && (if glyphs.failure is Some {
                error.is_transport(glyphs.failure->0@)
            } else {
                error == result->Err_0
            }),
            reply matches Ok(sent) ==> {
                &&& final(self).phase == (Phase::Ready {
                    document: old(self).phase->Working_document,
                })
                &&& sent.0 == old(self).phase->Working_document.lease
                &&& sent.1 == old(self).phase->Working_document.last_id
                &&& match result {
                    Ok(_) => sent.2 == Answer::Done,
                    Err(error) => sent.2 is Failure && sent.2->message@ == error.text(),
                }
            },
    {
        if let Some(failure) = &glyphs.failure {
            return Err(PdfiumRuntimeError::transport(failure.as_str()));
        }
        let answer: Answer = match result {
            Ok(_) => Answer::Done,
            Err(error) => {
                if error.is_fatal() {
                    return Err(error);
                }
                Answer::Failure { message: error.message() }
            },
        };
        let (lease, id): (u64, u64) = match self.phase {
            Phase::Working { document } => {
                self.phase = Phase::Ready { document };
                (document.lease, document.last_id)
            },
            _ => (0, 0),
        };
        Ok((lease, id, answer))
    }
}

/// The refusal of a page that the document does not have.
fn refuse(document: &OpenDocument, id: u64, page_number: u32) -> (step: Step)
    ensures
        step == (Step::Refuse {
            lease: document.lease,
            id,
            error: PdfiumRuntimeError::InvalidPage { page_number, page_count: document.page_count },
        }),
{
    Step::Refuse {
        lease: document.lease,
        id,
        error: PdfiumRuntimeError::InvalidPage { page_number, page_count: document.page_count },
    }
}

/// The glyph requests of one scan; PDFium handles stay inside the process.
#[derive(Debug)]
pub struct GlyphProxy {
    pub lease: u64,
    pub id: u64,
    /// The first transport failure.
    pub failure: Option<String>,
}

impl GlyphProxy {
    /// The proxy of a request, before any glyph.
    pub fn new(lease: u64, id: u64) -> (proxy: GlyphProxy)
        ensures
            proxy == (GlyphProxy { lease, id, failure: None }),
    {
        GlyphProxy { lease, id, failure: None }
    }

    /// Whether another outline may be sent: none is after a failure.
    pub fn may_ask(&self) -> (yes: bool)
        ensures
            yes == (self.failure is None),
    {
        self.failure.is_none()
    }

    /// Whether a request is the answer to an outline of this scan.
    pub open spec fn is_answer(self, request: Request) -> bool {
        &&& request.command is GlyphReply
        &&& request.lease == self.lease
        &&& request.id == self.id
    }

    /// Takes what came back for an outline: a request, or why the channel failed.
    ///
    /// A failed reverse request invalidates the whole scan rather than
    /// dropping recovered text.
    pub fn resolve(&mut self, received: Result<Request, String>) -> (text: Option<String>)
        requires
            old(self).failure is None,
        ensures
            final(self).lease == old(self).lease,
            final(self).id == old(self).id,
            match received {
                Ok(request) => if old(self).is_answer(request) {
                    text == request.command->text && final(self).failure is None
                } else {
                    text is None && final(self).failure is Some && final(self).failure->0@
                        == "invalid glyph reply"@
                },
                Err(message) => text is None && final(self).failure == Some(message),
            },
    {
        match received {
            Err(message) => {
                self.failure = Some(message);
                None
            },
            Ok(request) => {
                if request.lease == self.lease && request.id == self.id {
                    if let Command::GlyphReply { text } = request.command {
                        return text;
                    }
                }
                self.failure = Some(PdfiumRuntimeError::transport("invalid glyph reply").message());
                None
            },
        }
    }
}

/// Requests of a document carry ever larger identities.
pub proof fn request_identities_grow(worker: Worker, request: Request)
    requires
        worker.phase is Ready,
        worker.rejects(request) is None,
        worker.after(request).phase is Ready || worker.after(request).phase is Working,
    ensures
        request.id > worker.phase->Ready_document.last_id,
        match worker.after(request).phase {
            Phase::Ready { document } => document == (OpenDocument {
                last_id: request.id,
                ..worker.phase->Ready_document
            }),
            Phase::Working { document } => document == (OpenDocument {
                last_id: request.id,
                ..worker.phase->Ready_document
            }),
            _ => false,
        },
{
}

/// No lease is opened twice in the life of a process.
pub proof fn leases_grow(worker: Worker, request: Request)
    requires
        worker.rejects(request) is None,
    ensures
        worker.after(request).last_lease >= worker.last_lease,
        request.command is Open ==> worker.after(request).last_lease == request.lease
            && request.lease > worker.last_lease,
{
}

} // verus!
