use std::collections::BTreeMap;

use docparse_core::blocks::{Block, BlockId, LabelSource, Line, LineId};
use docparse_core::context::builder::{DocumentContext, DocumentContextBuilder};
use docparse_core::context::relations::{DocumentLinker, RelationKind};
use docparse_core::error::ContextError;
use docparse_core::extract::metadata::{ExtractedPage, PageProbe};
use docparse_core::fusion::region::RegionPath;
use docparse_core::geometry::Bbox;
use docparse_core::layout::LayoutLabel;
use docparse_core::numerals::read_number;
use docparse_core::result::PageResult;
use docparse_core::types::{Rotation, WritingDirection};

fn pt(length: f64) -> i32 {
    (length * 10_000.0).round() as i32
}

fn bbox(value: [f64; 4]) -> Bbox {
    Bbox::new(pt(value[0]), pt(value[1]), pt(value[2]), pt(value[3])).expect("valid bbox")
}

/// One page probe with stable font and chrome signals.
fn probe(page_number: u32) -> PageProbe {
    PageProbe {
        page_number,
        width: pt(612.0),
        height: pt(792.0),
        rotation: 0,
        content_bounds: None,
        font_size_histogram: BTreeMap::from([(90, 100), (160, 2)]),
        top_fingerprints: vec!["running header".to_owned()],
        bottom_fingerprints: vec![page_number.to_string()],
        page_number_candidates: vec![page_number.to_string()],
        title_font_sizes: vec![pt(16.0)],
    }
}

fn collected(pages: &[u32]) -> DocumentContext {
    let mut builder = DocumentContextBuilder::new(3);
    for page_number in pages {
        builder
            .push_page(probe(*page_number))
            .expect("probe must be valid");
    }
    builder.build().expect("context must build")
}

/// Shuffled probes produce frozen document-level statistics.
#[test]
fn shuffled_probes_build_expected_context() {
    let context = collected(&[3, 1, 2]);
    assert_eq!(context.page_count, 3);
    assert_eq!(context.body_font_size, Some(i64::from(pt(9.0))));
    assert_eq!(context.repeated_header_fingerprints, vec!["running header"]);
    assert!(context.repeated_footer_fingerprints.is_empty());
    assert_eq!(context.page_number_pattern.as_deref(), Some("sequential-arabic"));
    assert_eq!(context.heading_font_sizes, vec![pt(16.0)]);
}

/// Probe insertion order cannot change the context.
#[test]
fn context_serialization_is_insertion_order_independent() {
    let forward = collected(&[1, 2, 3]);
    let reverse = collected(&[3, 2, 1]);
    assert_eq!(format!("{forward:?}"), format!("{reverse:?}"));
}

#[test]
fn bad_probes_are_refused() {
    let mut builder = DocumentContextBuilder::new(2);
    builder.push_page(probe(1)).expect("first page");
    match builder.push_page(probe(1)) {
        Err(ContextError::DuplicatePage { page_number }) => assert_eq!(page_number, 1),
        other => panic!("a page comes once: {other:?}"),
    }
    match builder.push_page(probe(3)) {
        Err(ContextError::InvalidProbe { page_number, .. }) => assert_eq!(page_number, 3),
        other => panic!("there is no third page: {other:?}"),
    }
    match builder.build() {
        Err(ContextError::ProbeCount { expected, actual }) => assert_eq!((expected, actual), (2, 1)),
        other => panic!("one probe is missing: {other:?}"),
    }
}

/// A page parsed alone keeps its number in its one-page context.
#[test]
fn standalone_pages_have_a_context_of_their_own() {
    let page = ExtractedPage {
        page_number: 41,
        width: pt(612.0),
        height: pt(792.0),
        rotation: 0,
        content_bounds: None,
        text_items: Vec::new(),
    };
    let context = DocumentContext::standalone(&page, "v1".to_owned()).expect("context");
    assert_eq!(context.page_count, 1);
    assert_eq!(
        context.metadata,
        vec![("standalone_page_number".to_owned(), "41".to_owned())]
    );
    assert_eq!(context.model_revision.as_deref(), Some("v1"));
    let empty = ExtractedPage { width: 0, ..page };
    match DocumentContext::standalone(&empty, String::new()) {
        Err(ContextError::InvalidProbe { page_number, .. }) => assert_eq!(page_number, 1),
        other => panic!("a page has a width: {other:?}"),
    }
}

#[test]
fn numbers_are_read_as_they_are_spelled() {
    assert_eq!(read_number("41"), Some(41));
    assert_eq!(read_number("+7"), Some(7));
    assert_eq!(read_number("4294967295"), Some(u32::MAX));
    assert_eq!(read_number("4294967296"), None);
    assert_eq!(read_number(""), None);
    assert_eq!(read_number("-1"), None);
}

/// One page containing a repeated header block.
fn page(page_number: u32) -> PageResult {
    let block_id = BlockId::fallback(page_number, &RegionPath::root(), 0);
    let line = Line {
        id: LineId::new(&block_id, 0),
        text: "Running Header".to_owned(),
        bbox: bbox([10.0, 10.0, 100.0, 20.0]),
        direction: WritingDirection::LeftToRight,
        rotation: Rotation::upright(),
        baseline: None,
        text_items: Vec::new(),
        inline_spans: 0,
    };
    let mut block = Block::new(
        block_id,
        LayoutLabel::Header,
        LabelSource::Fallback,
        bbox([10.0, 10.0, 100.0, 20.0]),
    );
    block.text = "Running Header".to_owned();
    block.lines = vec![line];
    PageResult::new(page_number, pt(612.0), pt(792.0), 0, vec![block])
}

fn headed() -> DocumentContext {
    DocumentContext {
        page_count: 3,
        body_font_size: None,
        repeated_header_fingerprints: vec!["running header".to_owned()],
        repeated_footer_fingerprints: Vec::new(),
        page_number_pattern: None,
        heading_font_sizes: Vec::new(),
        model_revision: None,
        metadata: Vec::new(),
    }
}

/// The linker can be constructed without mutable page access.
#[test]
fn linker_has_a_read_only_boundary() {
    let _linker = DocumentLinker::new();
}

/// Repeated chrome relations are stable and never change pages.
#[test]
fn repeated_headers_produce_non_owning_relations() {
    let pages = vec![page(1), page(2), page(3)];
    let before = format!("{pages:?}");
    let relations = DocumentLinker::new()
        .link(&headed(), &pages)
        .expect("linking must succeed");
    assert_eq!(before, format!("{pages:?}"));
    assert_eq!(relations.relations.len(), 2);
    assert!(relations
        .relations
        .iter()
        .all(|relation| relation.kind == RelationKind::RepeatedChrome));
    let page_pairs: Vec<_> = relations
        .relations
        .iter()
        .map(|relation| (relation.source.page_number, relation.target.page_number))
        .collect();
    assert_eq!(page_pairs, vec![(1, 2), (2, 3)]);
}

/// Relations do not depend on the order in which pages come.
#[test]
fn links_do_not_depend_on_page_order() {
    let forward = DocumentLinker::new()
        .link(&headed(), &vec![page(1), page(2), page(3)])
        .expect("links");
    let reverse = DocumentLinker::new()
        .link(&headed(), &vec![page(3), page(2), page(1)])
        .expect("links");
    assert_eq!(format!("{forward:?}"), format!("{reverse:?}"));
}

/// Both ends of every relation are blocks of the linked pages.
#[test]
fn relations_name_blocks_of_the_pages() {
    let pages = vec![page(2), page(1), page(3)];
    let found = DocumentLinker::new().link(&headed(), &pages).expect("links");
    assert!(!found.relations.is_empty());
    for relation in &found.relations {
        for node in [&relation.source, &relation.target] {
            assert!(pages.iter().any(|page| {
                page.page_number == node.page_number
                    && page.blocks.iter().any(|block| block.id.as_str() == node.block_id.as_str())
            }));
        }
    }
}
