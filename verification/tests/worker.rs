use docparse_core::blocks::FigureMediaType;
use docparse_core::figure::images::{EmbeddedImage, EmbeddedImageFormat};
use docparse_core::figure::raster::RenderedPage;
use docparse_core::geometry::Bbox;
use docparse_core::parser::{
    page_finished, page_started, DocParseError, DocParser, DocParserBuilder, EngineConfig,
    EngineSource, FormulaEngineConfig, FormulaSource, ParseOptions, ParserArtifacts,
};
use docparse_core::pdfium::ipc::{Hello, PdfiumRuntimeError};
use docparse_core::pdfium::raster::Raster;
use docparse_core::pdfium::worker::{
    Answer, Command, GlyphProxy, Phase, RenderConfig, Request, Step, Worker,
};
use docparse_core::progress::ParseProgress;

fn pt(length: f64) -> i32 {
    (length * 10_000.0).round() as i32
}

fn image(format: Option<EmbeddedImageFormat>) -> EmbeddedImage {
    EmbeddedImage {
        bounds: Bbox::new(pt(1.0), pt(2.0), pt(3.0), pt(4.0)).expect("bounds"),
        pixel_width: 2,
        pixel_height: 1,
        format,
        bytes: format.map(|format| match format {
            EmbeddedImageFormat::Rgba => vec![255, 0, 0, 0, 0, 255, 0, 255],
            EmbeddedImageFormat::Encoded(_) => vec![0xff, 0xd8, 0xff, 0xd9],
        }),
    }
}

fn rendered() -> RenderedPage {
    RenderedPage {
        page_number: 1,
        width: 4,
        height: 4,
        pixels: vec![255; 48],
        viewport_width: pt(4.0),
        viewport_height: pt(4.0),
    }
}

/// A raster message preserves original files and pixels.
#[test]
fn image_files_round_trip_with_render_ipc() {
    let images = || {
        vec![
            image(Some(EmbeddedImageFormat::Encoded(FigureMediaType::Jpeg))),
            image(Some(EmbeddedImageFormat::Rgba)),
            image(None),
        ]
    };
    let (page, restored) = Raster::new(rendered(), images()).restore().expect("restore");
    assert_eq!(format!("{restored:?}"), format!("{:?}", images()));
    assert_eq!(page.pixels, vec![255; 48]);
}

/// A raster whose pixels do not fill it is refused.
#[test]
fn short_rasters_are_refused() {
    let mut raster = Raster::new(rendered(), Vec::new());
    raster.pixels.pop();
    assert!(raster.restore().is_err());
}

#[test]
fn handshakes_must_agree() {
    let hello = Hello::new("endpoint".to_owned());
    assert!(hello.validate().is_ok());
    let other = Hello { protocol: hello.protocol + 1, ..Hello::new("endpoint".to_owned()) };
    assert!(other.validate().is_err());
    assert!(Hello::new(String::new()).validate().is_err());
}

fn request(lease: u64, id: u64, command: Command) -> Request {
    Request { lease, id, command }
}

fn opened(pages: i32) -> Worker {
    let mut worker = Worker::new();
    assert!(matches!(worker.receive(&request(1, 1, Command::Open)), Ok(Step::Open)));
    let (lease, id, answer) = worker.opened(Ok(pages), "empty".to_owned());
    assert_eq!((lease, id), (1, 1));
    assert!(matches!(answer, Answer::Opened { page_count } if page_count as i32 == pages));
    worker
}

/// A document is opened, read and closed, one request after the other.
#[test]
fn documents_are_served_in_order() {
    let mut worker = opened(2);
    let scan = Command::PreScan { page_number: 2, resolve_glyphs: true };
    match worker.receive(&request(1, 2, scan)) {
        Ok(Step::PreScan { page_number, resolve_glyphs }) => {
            assert_eq!((page_number, resolve_glyphs), (2, true));
        }
        other => panic!("the page is there: {other:?}"),
    }
    let (lease, id, answer) = worker
        .finished(Ok(()), &GlyphProxy::new(1, 2))
        .expect("the scan went well");
    assert_eq!((lease, id), (1, 2));
    assert!(matches!(answer, Answer::Done));
    let config = RenderConfig { dpi: 144, max_long_edge_pixels: 2000 };
    let render = Command::Render { page_number: 3, config };
    assert!(matches!(
        worker.receive(&request(1, 3, render)),
        Ok(Step::Refuse {
            error: PdfiumRuntimeError::InvalidPage { page_number: 3, page_count: 2 },
            ..
        })
    ));
    assert!(matches!(
        worker.receive(&request(1, 4, Command::Close)),
        Ok(Step::Close { stop: false, .. })
    ));
    assert_eq!(worker.phase, Phase::Idle);
}

/// Stale requests and repeated leases are refused and change nothing.
#[test]
fn stale_requests_are_refused() {
    let mut worker = opened(1);
    let before = worker;
    assert!(worker.receive(&request(1, 1, Command::Close)).is_err());
    assert!(worker.receive(&request(2, 9, Command::Close)).is_err());
    assert!(worker.receive(&request(1, 9, Command::Open)).is_err());
    assert_eq!(worker, before);
    worker.receive(&request(1, 2, Command::Close)).expect("close");
    assert!(worker.receive(&request(1, 3, Command::Open)).is_err());
    assert!(worker.receive(&request(2, 1, Command::Open)).is_ok());
}

#[test]
fn empty_documents_are_rejected() {
    let mut worker = Worker::new();
    worker.receive(&request(1, 1, Command::Open)).expect("open");
    let (_, _, answer) = worker.opened(Ok(0), "no pages".to_owned());
    assert!(matches!(answer, Answer::Failure { message } if message == "no pages"));
    assert_eq!(worker.phase, Phase::Idle);
}

/// A failed glyph request invalidates the whole scan.
#[test]
fn failed_glyph_replies_invalidate_the_scan() {
    let mut worker = opened(1);
    let scan = Command::PreScan { page_number: 1, resolve_glyphs: true };
    worker.receive(&request(1, 2, scan)).expect("scan");
    let mut proxy = GlyphProxy::new(1, 2);
    let reply = Command::GlyphReply { text: Some("✓".to_owned()) };
    assert_eq!(proxy.resolve(Ok(request(1, 2, reply))).as_deref(), Some("✓"));
    assert!(proxy.may_ask());
    let stray = Command::GlyphReply { text: Some("x".to_owned()) };
    assert_eq!(proxy.resolve(Ok(request(1, 3, stray))), None);
    assert!(!proxy.may_ask());
    assert!(worker.finished(Ok(()), &proxy).is_err());
}

/// Failures of one page are answered; fatal ones end the process.
#[test]
fn page_failures_keep_the_document_open() {
    for (fatal, ends) in [(false, false), (true, true)] {
        let mut worker = opened(1);
        let scan = Command::PreScan { page_number: 1, resolve_glyphs: false };
        worker.receive(&request(1, 2, scan)).expect("scan");
        let error = PdfiumRuntimeError::Operation { message: "broken".to_owned(), fatal };
        let outcome = worker.finished(Err(error), &GlyphProxy::new(1, 2));
        assert_eq!(outcome.is_err(), ends);
    }
}

fn config() -> EngineConfig {
    EngineConfig {
        inline_formulas: true,
        display_formulas: true,
        formula_engine: FormulaEngineConfig::Texo,
        tables: true,
        ocr: true,
    }
}

fn artifacts(tsr: bool, texo_formula: bool) -> ParserArtifacts {
    ParserArtifacts { tsr, ocr: true, formula: false, texo_formula }
}

/// Texo artifacts select the Texo loader.
#[test]
fn texo_artifacts_select_the_texo_loader() {
    let parser = DocParserBuilder::new()
        .config(config())
        .artifacts(artifacts(true, true))
        .layout_engine()
        .build()
        .expect("parser");
    assert_eq!(parser.layout, EngineSource::Injected);
    assert_eq!(
        parser.formulas,
        Some(FormulaSource::Texo(EngineSource::Artifacts))
    );
}

/// The remote formula engine needs no artifacts.
#[test]
fn mineru_loads_without_formula_artifacts() {
    let mut remote = config();
    remote.formula_engine = FormulaEngineConfig::Mineru;
    let parser = DocParserBuilder::new()
        .config(remote)
        .artifacts(artifacts(true, false))
        .layout_engine()
        .build()
        .expect("parser");
    assert_eq!(parser.formulas, Some(FormulaSource::Mineru));
}

/// Bytes for an enabled stage must be complete.
#[test]
fn missing_artifacts_are_refused() {
    let refused = DocParserBuilder::new()
        .config(config())
        .artifacts(artifacts(false, true))
        .layout_engine()
        .build();
    assert_eq!(refused, Err(DocParseError::MissingTsrArtifacts));
    assert_eq!(
        DocParserBuilder::new().build(),
        Err(DocParseError::MissingConfiguration)
    );
    let other = DocParserBuilder::new()
        .config(config())
        .artifacts(artifacts(true, false))
        .build();
    assert_eq!(other, Err(DocParseError::MissingFormulaArtifacts));
    let mut both = artifacts(true, true);
    both.formula = true;
    assert_eq!(
        DocParserBuilder::new().config(config()).artifacts(both).build(),
        Err(DocParseError::TwoFormulaArtifacts)
    );
    let mut wrong = artifacts(true, false);
    wrong.formula = true;
    assert_eq!(
        DocParserBuilder::new().config(config()).artifacts(wrong).build(),
        Err(DocParseError::OtherFormulaArtifacts)
    );
    let mut blind = artifacts(true, true);
    blind.ocr = false;
    assert_eq!(
        DocParserBuilder::new().config(config()).artifacts(blind).build(),
        Err(DocParseError::MissingOcrArtifacts)
    );
}

#[test]
fn configured_parsers_load_everything() {
    let parser = DocParser::from_config(config(), true);
    assert!(parser.resolves_glyphs);
    assert!(!DocParser::from_config(config(), false).resolves_glyphs);
    assert_eq!(parser.layout, EngineSource::Configured);
    assert_eq!(parser.tables, Some(EngineSource::Configured));
}

/// What a call states wins over what the parser holds.
#[test]
fn calls_override_table_settings() {
    let none: ParseOptions<u32, u32, u32> = ParseOptions::none();
    assert_eq!(none.table_runtime(&1, Some(&2)), (&1, Some(&2)));
    let own = ParseOptions { table: Some(7), table_engine: Some(8), observer: None::<&u32> };
    assert_eq!(own.table_runtime(&1, Some(&2)), (&7, Some(&8)));
}

/// A standalone page reports completion only where it succeeded.
#[test]
fn standalone_pages_report_progress() {
    assert!(matches!(
        page_started(),
        ParseProgress::Analyzing { completed: 0, total: 1 }
    ));
    assert_eq!(page_finished(true).len(), 2);
    assert!(page_finished(false).is_empty());
}

/// Supplied bytes are refused and used as the builder does it, and injected parts are kept.
#[test]
fn parsers_are_made_from_bytes() {
    assert_eq!(
        DocParser::from_artifacts(config(), artifacts(false, true), true),
        Err(DocParseError::MissingTsrArtifacts)
    );
    let parser = DocParser::from_artifacts(config(), artifacts(true, true), false).expect("parser");
    assert_eq!(parser.layout, EngineSource::Artifacts);
    assert!(!parser.own_provider && !parser.resolves_glyphs);
    let resolving = DocParser::from_artifacts(config(), artifacts(true, true), true);
    assert!(resolving.expect("parser").resolves_glyphs);
    let injected = DocParserBuilder::new()
        .config(config())
        .pdfium_provider()
        .glyph_resolver()
        .build()
        .expect("parser");
    assert!(injected.own_provider && injected.resolves_glyphs);
    assert_eq!(injected.layout, EngineSource::Configured);
}
