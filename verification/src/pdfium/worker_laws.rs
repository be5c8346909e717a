//! Which requests a worker takes, and what it does with them.

use vstd::prelude::*;

use crate::pdfium::ipc::{Hello, PdfiumRuntimeError};
use crate::pdfium::worker::{Command, GlyphProxy, Phase, RenderConfig, Request, Step, Worker};

verus! {

/// A worker without a document takes a document of a new lease, or stops; it takes nothing else.
pub proof fn idle_workers_open_new_leases(worker: Worker, request: Request)
    requires
        worker.phase == Phase::Idle,
    ensures
        worker.rejects(request) is None <==> request.command is Shutdown || (
        request.command is Open && request.lease > worker.last_lease),
        request.command is Open && request.lease > worker.last_lease ==> worker.after(request).phase
            == (Phase::Opening { lease: request.lease, id: request.id }) && worker.answers(
            request,
            Step::Open,
        ),
        request.command is Shutdown ==> worker.after(request).phase == Phase::Stopped,
{
}

/// A worker with a document takes requests of its lease alone, each with a larger identity than
/// the last, and the request to stop, which names no lease.
pub proof fn stale_requests_are_rejected(worker: Worker, request: Request)
    requires
        worker.phase is Ready,
    ensures
        ({
            let document = worker.phase->Ready_document;
            &&& request.id <= document.last_id ==> worker.rejects(request) is Some
            &&& !(request.command is Shutdown) && request.lease != document.lease
                ==> worker.rejects(request) is Some
            &&& request.command is Shutdown && request.lease != 0 ==> worker.rejects(
                request,
            ) is Some
            &&& request.command is Open || request.command is GlyphReply ==> worker.rejects(
                request,
            ) is Some
            &&& request.command is Close && request.lease == document.lease && request.id
                > document.last_id ==> worker.rejects(request) is None && worker.after(
                request,
            ).phase == Phase::Idle
            &&& request.command is Shutdown && request.lease == 0 && request.id
                > document.last_id ==> worker.rejects(request) is None && worker.after(
                request,
            ).phase == Phase::Stopped
        }),
{
}

/// A page of the document is worked on, and any other is refused with the document kept open.
pub proof fn only_pages_of_the_document_are_worked_on(
    worker: Worker,
    request: Request,
    page: u32,
    resolve: bool,
    step: Step,
)
    requires
        worker.phase is Ready,
        request.command == (Command::PreScan { page_number: page, resolve_glyphs: resolve }),
        request.lease == worker.phase->Ready_document.lease,
        request.id > worker.phase->Ready_document.last_id,
        worker.answers(request, step),
    ensures
        worker.rejects(request) is None,
        ({
            let document = worker.phase->Ready_document;
            &&& page >= 1 && page <= document.page_count ==> worker.after(request).phase is Working
                && step == (Step::PreScan { page_number: page, resolve_glyphs: resolve })
            &&& page == 0 || page > document.page_count ==> worker.after(request).phase is Ready
                && step is Refuse && step->Refuse_id == request.id && step->Refuse_lease
                == document.lease && step->error == (PdfiumRuntimeError::InvalidPage {
                page_number: page,
                page_count: document.page_count,
            })
        }),
{
}

/// A page is rendered only with a resolution and a size.
pub proof fn pages_are_rendered_at_some_size(
    worker: Worker,
    request: Request,
    page: u32,
    config: RenderConfig,
)
    requires
        worker.phase is Ready,
        request.command == (Command::Render { page_number: page, config }),
        request.lease == worker.phase->Ready_document.lease,
        request.id > worker.phase->Ready_document.last_id,
    ensures
        ({
            let inside = page >= 1 && page <= worker.phase->Ready_document.page_count;
            &&& worker.rejects(request) is Some <==> inside && (config.dpi == 0
                || config.max_long_edge_pixels == 0)
            &&& inside && config.dpi > 0 && config.max_long_edge_pixels > 0 ==> worker.after(
                request,
            ).phase is Working && worker.answers(
                request,
                Step::Render { page_number: page, config },
            )
            &&& !inside ==> worker.after(request).phase is Ready
        }),
{
}

/// A worker takes no request while it opens a document or works on a page, nor once it stopped.
pub proof fn busy_workers_take_no_request(worker: Worker, request: Request)
    requires
        worker.phase is Opening || worker.phase is Working || worker.phase is Stopped,
    ensures
        worker.rejects(request) is Some,
{
}

/// Transport failures stop the worker, pages that are not there do not, and other failures do
/// where they are fatal.
pub proof fn fatal_failures_stop_the_worker(error: PdfiumRuntimeError)
    ensures
        error is Transport ==> error.ends_worker(),
        error is InvalidPage ==> !error.ends_worker(),
        error is Operation ==> (error.ends_worker() <==> error->fatal),
{
}

/// A reply to a glyph is taken only for its lease and request.
pub proof fn glyph_replies_name_their_scan(proxy: GlyphProxy, request: Request)
    ensures
        proxy.is_answer(request) <==> request.command is GlyphReply && request.lease == proxy.lease
            && request.id == proxy.id,
{
}

/// Two processes can talk where both are of one protocol and one version, and the endpoint has a
/// name.
pub proof fn only_equal_versions_talk(a: Hello, b: Hello)
    requires
        a.is_compatible(),
    ensures
        a.endpoint@.len() > 0,
        b.is_compatible() <==> b.protocol == a.protocol && b.version@ == a.version@
            && b.endpoint@.len() > 0,
{
}

} // verus!
