use docparse_core::blocks::{Block, BlockId, LabelSource, Line, LineId};
use docparse_core::config::FusionConfig;
use docparse_core::context::builder::DocumentContext;
use docparse_core::error::{LineError, PageAnalysisError};
use docparse_core::extract::metadata::ExtractedPage;
use docparse_core::fusion::assign::AssignmentEngine;
use docparse_core::fusion::region::RegionPath;
use docparse_core::geometry::{Baseline, Bbox, GeometryError, Point};
use docparse_core::layout::{GeometrySource, LayoutDetection, LayoutLabel};
use docparse_core::line::assemble::ConservativeLineAssembler;
use docparse_core::line::formula::FormulaRegion;
use docparse_core::ocr::{OcrCompletion, OcrPolicy, OcrResult, OcrTextItem};
use docparse_core::page::complete::{list_native_ids, PageTableDraft};
use docparse_core::page::compose::{
    formula_regions, lasting_warnings, table_warning, PageComposition, PageParts,
};
use docparse_core::page::prepare::PageAnalysisDraft;
use docparse_core::page::recognized::{equivalent_text, Overlay};
use docparse_core::result::PageResult;
use docparse_core::rope::Rope;
use docparse_core::types::{
    PageWarning, Rotation, TableRule, TextItem, TextItemId, TextStyle, WritingDirection,
};

fn pt(length: f64) -> i32 {
    (length * 10_000.0).round() as i32
}

fn bbox(value: [f64; 4]) -> Bbox {
    Bbox::new(pt(value[0]), pt(value[1]), pt(value[2]), pt(value[3])).expect("valid bbox")
}

fn item(index: u32, text: &str, bounds: [f64; 4]) -> TextItem {
    let mut made = TextItem::new(
        TextItemId::native(1, index),
        Rope::new(text.to_owned()),
        bbox(bounds),
    );
    made.extraction_order = index;
    made
}

fn measured(index: u32, text: &str, bounds: [f64; 4], size: f64, y: f64) -> TextItem {
    let mut made = item(index, text, bounds);
    let mut style = TextStyle::unknown();
    style.font_size = Some(pt(size));
    made.style = Some(style);
    made.baseline = Some(Baseline {
        start: Point::new(pt(bounds[0]), pt(y)),
        end: Point::new(pt(bounds[2]), pt(y)),
    });
    made
}

/// Three stable native facts.
fn items() -> Vec<TextItem> {
    vec![
        item(0, "left", [10.0, 10.0, 40.0, 20.0]),
        item(1, "right", [60.0, 10.0, 90.0, 20.0]),
        item(2, "lower", [10.0, 60.0, 50.0, 70.0]),
    ]
}

fn extracted(text_items: Vec<TextItem>) -> ExtractedPage {
    ExtractedPage {
        page_number: 1,
        width: pt(100.0),
        height: pt(100.0),
        rotation: 0,
        content_bounds: None,
        text_items,
    }
}

/// One valid text detection.
fn detection(index: u32, bounds: [f64; 4]) -> LayoutDetection {
    LayoutDetection {
        source_detection_index: index,
        raw_label: "text".to_owned(),
        class_id: 22,
        label: LayoutLabel::Text,
        confidence: 900_000,
        bbox: bbox(bounds),
        outline: None,
        geometry_source: GeometrySource::ModelBox,
        model_order: i64::from(index),
    }
}

fn reference(index: u32, bounds: [f64; 4]) -> LayoutDetection {
    let mut made = detection(index, bounds);
    made.label = LayoutLabel::Reference;
    made.raw_label = "reference".to_owned();
    made.class_id = 18;
    made
}

fn compose_on(
    page: Bbox,
    text_items: Vec<TextItem>,
    detections: Vec<LayoutDetection>,
) -> PageComposition {
    PageComposition::new(
        text_items,
        &AssignmentEngine::new(1, page, FusionConfig::default()),
        &detections,
        &Vec::new(),
        OcrPolicy::Disabled,
        OcrCompletion::NotRequested,
        &Vec::new(),
        &Vec::new(),
    )
    .expect("composition")
}

fn compose(text_items: Vec<TextItem>, detections: Vec<LayoutDetection>) -> PageComposition {
    compose_on(bbox([0.0, 0.0, 100.0, 100.0]), text_items, detections)
}

fn owned_ids(composed: &PageComposition) -> Vec<(u32, String)> {
    composed
        .assignment
        .model_seeds
        .iter()
        .flat_map(|seed| {
            seed.fragments.iter().flat_map(|fragment| {
                fragment.items.iter().map(|item| {
                    (seed.detection.source_detection_index, item.id.as_str().to_owned())
                })
            })
        })
        .collect()
}

fn residual_ids(composed: &PageComposition) -> Vec<String> {
    let mut ids: Vec<String> = composed
        .assignment
        .residual
        .iter()
        .flat_map(|fragment| fragment.items.iter().map(|item| item.id.as_str().to_owned()))
        .collect();
    ids.sort();
    ids
}

/// Repeated narrow gutters survive fallback line assembly; ordinary inline gaps are none.
#[test]
fn narrow_columns_remain_separate_without_layout_detections() {
    for (shift, columns) in [(0.0, 2), (8.0, 1)] {
        let mut facts = Vec::new();
        for row in 0..6 {
            let top = 50.0 + f64::from(row) * 12.0;
            for right in [false, true] {
                let (left, end) = if right {
                    (312.0 - shift, 564.0 - shift)
                } else {
                    (48.0, 300.0)
                };
                let name = if right { "RIGHT" } else { "LEFT" };
                let mut fact = item(
                    row * 2 + u32::from(right),
                    &format!("{name} row {row}"),
                    [left, top, end, top + 9.0],
                );
                let mut style = TextStyle::unknown();
                style.font_size = Some(pt(10.0));
                fact.style = Some(style);
                facts.push(fact);
            }
        }
        let composed = compose_on(bbox([0.0, 0.0, 612.0, 792.0]), facts, Vec::new());
        let leaves = composed.fallback.visit_leaves();
        assert_eq!(leaves.len(), columns, "gutter narrowed by {shift}");
        let mut held = 0;
        for (leaf, name) in leaves.iter().zip(["LEFT", "RIGHT"]) {
            let own: Vec<TextItem> = leaf
                .fragment_indices
                .iter()
                .flat_map(|index| {
                    composed.assignment.residual[*index].items.iter().map(TextItem::copy)
                })
                .collect();
            held += own.len();
            let lines = ConservativeLineAssembler
                .fragments_with_formulas(own, &FusionConfig::default(), &Vec::new(), &Vec::new())
                .expect("lines");
            assert_eq!(lines.len(), 6);
            assert!(lines[0].items[0].raw_text.to_text().starts_with(name));
            if columns == 2 {
                assert!(lines
                    .iter()
                    .all(|line| line.bbox.right <= pt(300.0) || line.bbox.left >= pt(312.0)));
            }
        }
        assert_eq!(held, 12);
    }
}

fn texts_of(
    facts: &[TextItem],
    rules: Vec<TableRule>,
    regions: Vec<FormulaRegion>,
    reverse: bool,
) -> Vec<String> {
    let mut input: Vec<TextItem> = facts.iter().map(TextItem::copy).collect();
    if reverse {
        input.reverse();
    }
    let lines = ConservativeLineAssembler
        .fragments_with_formulas(input, &FusionConfig::default(), &rules, &regions)
        .expect("lines");
    let kept: usize = lines.iter().map(|line| line.items.len()).sum();
    assert_eq!(kept, facts.len());
    lines
        .iter()
        .map(|line| {
            line.items
                .iter()
                .map(|item| item.raw_text.to_text())
                .collect::<String>()
        })
        .collect()
}

/// Inline formula regions constrain script ownership before ordinary prose grouping.
#[test]
fn inline_formula_region_keeps_its_script_out_of_neighboring_prose() {
    let facts = vec![
        measured(0, "before ", [0.0, 10.0, 20.0, 20.0], 13.0, 18.0),
        measured(1, "x", [20.0, 10.0, 30.0, 20.0], 10.0, 18.0),
        measured(2, "2", [20.0, 16.0, 24.0, 23.0], 7.0, 22.0),
        measured(3, " after", [40.0, 10.0, 70.0, 20.0], 13.0, 18.0),
    ];
    for reverse in [false, true] {
        let regions = vec![FormulaRegion { bbox: bbox([20.0, 9.0, 30.0, 24.0]), inline: true }];
        assert_eq!(
            texts_of(&facts, Vec::new(), regions, reverse),
            ["before x2 after"]
        );
    }
}

/// Clipping a nested index must not move it past the formula's following operands.
#[test]
fn clipped_formula_scope_preserves_nested_script_ownership() {
    let facts = vec![
        measured(0, "q", [20.0, 50.0, 26.0, 60.0], 10.0, 58.0),
        measured(1, "τ", [26.0, 56.0, 31.0, 63.0], 7.0, 62.0),
        measured(2, "1", [31.0, 61.0, 34.0, 66.0], 5.0, 65.0),
        measured(3, "=", [40.0, 50.0, 46.0, 60.0], 10.0, 58.0),
        measured(4, "x", [52.0, 50.0, 58.0, 60.0], 10.0, 58.0),
    ];
    for inline in [true, false] {
        for bottom in [67.0, 63.0, 58.0] {
            for reverse in [false, true] {
                let regions =
                    vec![FormulaRegion { bbox: bbox([19.0, 49.0, 60.0, bottom]), inline }];
                assert_eq!(
                    texts_of(&facts, Vec::new(), regions, reverse),
                    ["qτ1=x"],
                    "inline {inline}, bottom {bottom}, reverse {reverse}"
                );
            }
        }
    }
}

/// Confirmed display formulas can order a standalone fraction without an external prose anchor.
#[test]
fn display_formula_region_orders_an_unanchored_fraction() {
    let facts = vec![
        measured(0, "a", [20.0, 10.0, 26.0, 17.0], 8.0, 16.0),
        measured(1, "b", [20.0, 24.0, 26.0, 31.0], 8.0, 30.0),
    ];
    let rules = vec![TableRule::Horizontal { y: pt(20.0), left: pt(19.0), right: pt(27.0) }];
    let regions = vec![FormulaRegion { bbox: bbox([18.0, 8.0, 28.0, 33.0]), inline: false }];
    assert_eq!(texts_of(&facts, rules, regions, false), ["ab"]);
}

/// Reference envelopes must not steal partially covered text from bibliography entries.
#[test]
fn reference_is_visual_only_and_children_own_all_text() {
    let mut children = vec![
        detection(1, [5.0, 5.0, 85.0, 25.0]),
        detection(2, [5.0, 55.0, 55.0, 75.0]),
    ];
    for child in &mut children {
        child.label = LayoutLabel::ReferenceContent;
        child.raw_label = "reference_content".to_owned();
        child.class_id = 19;
    }
    let mut detections = vec![reference(0, [0.0, 0.0, 100.0, 100.0])];
    detections[0].confidence = 990_000;
    detections.extend(children);
    let composed = compose(items(), detections);
    assert_eq!(composed.assignment.reference_seeds.len(), 1);
    assert_eq!(
        composed.assignment.reference_seeds[0].bbox,
        bbox([0.0, 0.0, 100.0, 100.0])
    );
    assert_eq!(composed.assignment.model_seeds.len(), 2);
    assert_eq!(
        owned_ids(&composed),
        [
            (1, "p1:t0".to_owned()),
            (1, "p1:t1".to_owned()),
            (2, "p1:t2".to_owned())
        ]
    );
    assert!(composed.assignment.residual.is_empty());
}

fn block(index: u32, label: LayoutLabel, bounds: [f64; 4], facts: Vec<TextItem>) -> Block {
    let id = BlockId::fallback(1, &RegionPath::root().horizontal_child(index), 0);
    let line_id = LineId::new(&id, 0);
    let mut made = Block::new(id, label, LabelSource::Fallback, bbox(bounds));
    if !facts.is_empty() {
        made.text = facts[0].raw_text.to_text();
        made.lines = vec![Line {
            id: line_id,
            text: made.text.clone(),
            bbox: bbox(bounds),
            direction: WritingDirection::LeftToRight,
            rotation: Rotation::upright(),
            baseline: None,
            text_items: facts,
            inline_spans: 0,
        }];
    }
    made
}

fn draft(blocks: Vec<Block>, references: Vec<Block>, expected: &[TextItem]) -> PageTableDraft {
    PageTableDraft {
        page_number: 1,
        width: pt(100.0),
        height: pt(100.0),
        rotation: 0,
        blocks,
        warnings: Vec::new(),
        expected_native_ids: list_native_ids(&expected.iter().map(TextItem::copy).collect()),
        references,
        watermarks: Vec::new(),
        reference_texts: Vec::new(),
        unmatched_formulas: Vec::new(),
        assignment_diagnostics: Vec::new(),
        native_text_coverage: "0.1".to_owned(),
        model_revision: None,
    }
}

fn value<'a>(page: &'a PageResult, key: &str) -> Option<&'a str> {
    page.diagnostics
        .iter()
        .find(|(name, _)| name == key)
        .map(|(_, value)| value.as_str())
}

/// Text under a reference is labelled as its content and the reference stays empty behind it.
#[test]
fn reference_without_children_keeps_fallback_content_separate() {
    let composed = compose(items(), vec![reference(0, [0.0, 0.0, 100.0, 100.0])]);
    assert_eq!(residual_ids(&composed), ["p1:t0", "p1:t1", "p1:t2"]);
    let mut facts = items();
    let expected = items();
    let lower = facts.pop().expect("lower");
    let right = facts.pop().expect("right");
    let left = facts.pop().expect("left");
    let page = draft(
        vec![
            block(0, LayoutLabel::Text, [10.0, 10.0, 40.0, 20.0], vec![left]),
            block(1, LayoutLabel::Text, [60.0, 10.0, 90.0, 20.0], vec![right]),
            block(2, LayoutLabel::Text, [10.0, 60.0, 50.0, 70.0], vec![lower]),
        ],
        vec![block(9, LayoutLabel::Reference, [0.0, 0.0, 100.0, 100.0], Vec::new())],
        &expected,
    )
    .complete()
    .expect("page");
    assert_eq!(page.blocks.len(), 4);
    for (order, found) in page.blocks.iter().enumerate() {
        assert_eq!(found.final_order as usize, order);
    }
    assert!(page.blocks[..3].iter().all(|found| {
        matches!(found.label, LayoutLabel::ReferenceContent)
            && found.label_source == LabelSource::Heuristic
    }));
    assert!(matches!(page.blocks[3].label, LayoutLabel::Reference));
    assert!(page.blocks[3].text.is_empty() && page.blocks[3].lines.is_empty());
}

/// A visual reference never changes which region owns which text.
#[test]
fn reference_cannot_change_content_layout_geometry() {
    let facts = || {
        vec![
            item(0, "left", [10.0, 10.0, 60.0, 20.0]),
            item(1, "right", [10.0, 24.0, 60.0, 34.0]),
        ]
    };
    let body = || {
        vec![
            detection(0, [5.0, 5.0, 65.0, 22.0]),
            detection(1, [5.0, 23.0, 65.0, 40.0]),
        ]
    };
    let before = compose(facts(), body());
    let mut more = body();
    more.push(reference(10, [0.0, 0.0, 100.0, 100.0]));
    let after = compose(facts(), more);
    assert_eq!(owned_ids(&before), owned_ids(&after));
    assert_eq!(
        format!("{:?}", before.assignment.model_seeds),
        format!("{:?}", after.assignment.model_seeds)
    );
}

/// Partial crossings stay separate and are reported once.
#[test]
fn content_layout_preserves_partial_crossings_with_warning() {
    let facts = || {
        vec![
            item(0, "horizontal", [5.0, 5.0, 35.0, 10.0]),
            item(1, "vertical", [5.0, 5.0, 10.0, 35.0]),
            item(2, "inside union", [25.0, 25.0, 30.0, 30.0]),
        ]
    };
    let mut given = facts();
    let third = given.pop().expect("third");
    let second = given.pop().expect("second");
    let first = given.pop().expect("first");
    let page = draft(
        vec![
            block(0, LayoutLabel::Text, [4.0, 4.0, 36.0, 11.0], vec![first]),
            block(1, LayoutLabel::Text, [4.0, 4.0, 11.0, 36.0], vec![second]),
            block(2, LayoutLabel::Text, [24.0, 24.0, 31.0, 31.0], vec![third]),
        ],
        Vec::new(),
        &facts(),
    )
    .complete()
    .expect("partial overlaps are non-fatal");
    assert_eq!(page.blocks.len(), 3);
    assert_eq!(
        page.warnings
            .iter()
            .filter(|warning| warning.code == "ContentLayoutOverlap")
            .count(),
        1
    );
    assert_eq!(
        page.diagnostics
            .iter()
            .filter(|(key, _)| key.starts_with("content.overlap."))
            .count(),
        1
    );
    assert_eq!(value(&page, "native_text_coverage"), Some("0.1"));
}

/// Close but independently detected paragraphs keep their established boundaries.
#[test]
fn content_layout_preserves_separate_model_paragraphs() {
    let composed = compose(
        vec![
            item(0, "Previous paragraph.", [10.0, 10.0, 60.0, 20.0]),
            item(1, "• New paragraph.", [10.0, 24.0, 60.0, 34.0]),
        ],
        vec![
            detection(0, [5.0, 5.0, 65.0, 22.0]),
            detection(1, [5.0, 23.0, 65.0, 40.0]),
        ],
    );
    assert_eq!(
        owned_ids(&composed),
        [(0, "p1:t0".to_owned()), (1, "p1:t1".to_owned())]
    );
    assert!(composed.assignment.residual.is_empty());
}

/// A script joins its parent line while the next paragraph keeps its independent layout.
#[test]
fn content_layout_attaches_script_without_merging_next_line() {
    let facts = || -> Vec<TextItem> {
        [
            (0, "body", [10.0, 10.0, 60.0, 20.0], 10.0),
            (1, "2", [32.0, 16.0, 36.0, 23.0], 7.0),
            (2, "continuation", [10.0, 24.0, 60.0, 34.0], 10.0),
        ]
        .into_iter()
        .map(|(index, text, bounds, size)| {
            let mut fact = item(index, text, bounds);
            let mut style = TextStyle::unknown();
            style.font_size = Some(pt(size));
            fact.style = Some(style);
            fact
        })
        .collect()
    };
    let forward = compose(facts(), vec![detection(0, [10.0, 10.0, 60.0, 16.0])]);
    let mut turned = facts();
    turned.reverse();
    let reverse = compose(turned, vec![detection(0, [10.0, 10.0, 60.0, 16.0])]);
    for composed in [&forward, &reverse] {
        assert_eq!(
            owned_ids(composed),
            [(0, "p1:t0".to_owned()), (0, "p1:t1".to_owned())]
        );
        assert_eq!(residual_ids(composed), ["p1:t2"]);
        let seed = &composed.assignment.model_seeds[0];
        assert_eq!(seed.fragments.len(), 1);
        assert_eq!(seed.fragments[0].bbox, bbox([10.0, 10.0, 60.0, 23.0]));
    }
    assert_eq!(
        format!("{:?}", forward.assignment.model_seeds),
        format!("{:?}", reverse.assignment.model_seeds)
    );
}

/// Watermark annotation rectangles cannot capture ordinary text beneath them.
#[test]
fn watermark_annotation_does_not_claim_overlapping_body_text() {
    let mut facts = items();
    let lower = facts.pop().expect("lower");
    let right = facts.pop().expect("right");
    let left = facts.pop().expect("left");
    let mut annotation = block(9, LayoutLabel::Watermark, [0.0, 0.0, 100.0, 100.0], Vec::new());
    annotation.label_source = LabelSource::Pdf;
    let mut parts = draft(
        vec![
            block(0, LayoutLabel::Text, [10.0, 10.0, 40.0, 20.0], vec![left]),
            block(1, LayoutLabel::Text, [60.0, 10.0, 90.0, 20.0], vec![right]),
            block(2, LayoutLabel::Text, [10.0, 60.0, 50.0, 70.0], vec![lower]),
        ],
        Vec::new(),
        &items(),
    );
    parts.watermarks.push(annotation);
    let page = parts.complete().expect("page");
    let last = page.blocks.last().expect("detached annotation");
    assert!(matches!(last.label, LayoutLabel::Watermark));
    assert_eq!(last.label_source, LabelSource::Pdf);
    assert!(last.text.is_empty() && last.lines.is_empty());
    let held: usize = page
        .blocks
        .iter()
        .flat_map(|found| found.lines.iter().map(|line| line.text_items.len()))
        .sum();
    assert_eq!(held, 3);
}

/// A page that lost or doubled a native fact is refused.
#[test]
fn native_text_must_be_conserved() {
    let lost = draft(
        vec![block(0, LayoutLabel::Text, [10.0, 10.0, 40.0, 20.0], vec![items().remove(0)])],
        Vec::new(),
        &items(),
    )
    .complete();
    assert!(matches!(
        lost,
        Err(PageAnalysisError::NativeTextConservation { page_number: 1 })
    ));
}

/// A content region without text is reported.
#[test]
fn empty_regions_are_reported() {
    let page = draft(
        vec![block(0, LayoutLabel::Text, [10.0, 10.0, 40.0, 20.0], Vec::new())],
        Vec::new(),
        &[],
    )
    .complete()
    .expect("page");
    assert_eq!(page.warnings.len(), 1);
    assert_eq!(page.warnings[0].code, "EmptyModelRegion");
}

/// Confirmed watermarks cannot affect the ordinary model or fallback results.
#[test]
fn confirmed_watermark_cannot_change_body_fusion() {
    let page = bbox([0.0, 0.0, 100.0, 100.0]);
    let detections = || vec![detection(0, [5.0, 5.0, 50.0, 30.0])];
    let mut marked = items();
    let mut overlay = item(3, "DRAFT", [0.0, 0.0, 100.0, 100.0]);
    overlay.watermark = true;
    marked.push(overlay);
    let plain = PageParts::new(&items(), &detections(), &page);
    let parted = PageParts::new(&marked, &detections(), &page);
    assert!(plain.watermark_items.is_empty());
    assert_eq!(parted.watermark_items.len(), 1);
    assert_eq!(parted.watermark_items[0].raw_text.to_text(), "DRAFT");
    assert_eq!(parted.expected_native_ids.len(), 4);
    assert_eq!(
        format!("{:?}", compose(plain.text_items, detections())),
        format!("{:?}", compose(parted.text_items, detections()))
    );
}

/// Recognized duplicates of a known watermark cannot reenter the body.
#[test]
fn ocr_cannot_restore_a_detached_watermark_to_body_flow() {
    let page = bbox([0.0, 0.0, 100.0, 100.0]);
    let fact = |text: &str, bounds: [f64; 4]| OcrTextItem {
        text: text.to_owned(),
        bbox: bbox(bounds),
        outline: None,
        quad: None,
        confidence: 900_000,
    };
    let completion = OcrCompletion::Succeeded {
        result: OcrResult {
            items: vec![
                fact("DRAFT", [0.0, 0.0, 100.0, 100.0]),
                fact("found", [10.0, 82.0, 40.0, 92.0]),
            ],
        },
    };
    let composed = PageComposition::new(
        items(),
        &AssignmentEngine::new(1, page, FusionConfig::default()),
        &vec![detection(0, [0.0, 80.0, 100.0, 100.0])],
        &Vec::new(),
        OcrPolicy::MissingRegions,
        completion,
        &vec![bbox([0.0, 80.0, 100.0, 100.0])],
        &vec![Overlay { text: "DRAFT".to_owned(), bbox: page }],
    )
    .expect("composition");
    let texts: Vec<String> = composed
        .text_items
        .iter()
        .map(|item| item.raw_text.to_text())
        .collect();
    assert_eq!(texts, ["left", "right", "lower", "found"]);
}

/// Full and partial model coverage preserve every native identity once.
#[test]
fn page_pipeline_preserves_native_text_under_partial_coverage() {
    let composed = compose(items(), vec![detection(0, [5.0, 5.0, 50.0, 30.0])]);
    assert_eq!(owned_ids(&composed), [(0, "p1:t0".to_owned())]);
    assert_eq!(residual_ids(&composed), ["p1:t1", "p1:t2"]);
}

/// Input permutations cannot alter ownership.
#[test]
fn page_pipeline_is_permutation_deterministic() {
    let forward = compose(
        items(),
        vec![
            detection(0, [5.0, 5.0, 50.0, 30.0]),
            detection(1, [5.0, 50.0, 55.0, 80.0]),
        ],
    );
    let mut turned = items();
    turned.reverse();
    let reverse = compose(
        turned,
        vec![
            detection(1, [5.0, 50.0, 55.0, 80.0]),
            detection(0, [5.0, 5.0, 50.0, 30.0]),
        ],
    );
    assert_eq!(
        format!("{:?}", forward.assignment.model_seeds),
        format!("{:?}", reverse.assignment.model_seeds)
    );
    assert_eq!(residual_ids(&forward), residual_ids(&reverse));
}

/// A page with no model detections degrades to pure geometry.
#[test]
fn empty_layout_uses_fallback_without_losing_text() {
    let composed = compose(items(), Vec::new());
    assert!(composed.assignment.model_seeds.is_empty());
    assert_eq!(residual_ids(&composed), ["p1:t0", "p1:t1", "p1:t2"]);
    let held: usize = composed
        .fallback
        .visit_leaves()
        .iter()
        .map(|leaf| leaf.fragment_indices.len())
        .sum();
    assert_eq!(held, 3);
}

fn context() -> DocumentContext {
    DocumentContext {
        page_count: 1,
        body_font_size: None,
        repeated_header_fingerprints: Vec::new(),
        repeated_footer_fingerprints: Vec::new(),
        page_number_pattern: None,
        heading_font_sizes: Vec::new(),
        model_revision: None,
        metadata: Vec::new(),
    }
}

/// Regions without native text are suggested, and a page without text as a whole.
#[test]
fn preparation_suggests_missing_regions() {
    let detections = vec![
        detection(0, [5.0, 5.0, 50.0, 30.0]),
        detection(1, [60.0, 60.0, 90.0, 90.0]),
    ];
    let draft =
        PageAnalysisDraft::prepare(extracted(items()), detections, &context(), 100_000)
            .expect("prepare");
    assert_eq!(draft.missing_regions, [bbox([60.0, 60.0, 90.0, 90.0])]);
    let blank =
        PageAnalysisDraft::prepare(extracted(Vec::new()), Vec::new(), &context(), 100_000)
            .expect("prepare");
    assert_eq!(blank.missing_regions, [bbox([0.0, 0.0, 100.0, 100.0])]);
}

/// A page beyond the document is refused unless it stands alone.
#[test]
fn foreign_pages_need_a_context_of_their_own() {
    let mut page = extracted(items());
    page.page_number = 7;
    assert!(PageAnalysisDraft::prepare(page, Vec::new(), &context(), 100_000).is_err());
    let mut page = extracted(items());
    page.page_number = 7;
    let own = DocumentContext::standalone(&page, "v1".to_owned()).expect("context");
    assert!(PageAnalysisDraft::prepare(page, Vec::new(), &own, 100_000).is_ok());
    let mut turned = extracted(items());
    turned.rotation = 45;
    assert!(PageAnalysisDraft::prepare(turned, Vec::new(), &context(), 100_000).is_err());
}

/// Texts are compared without case and blanks.
#[test]
fn equivalent_texts_ignore_case_and_blanks() {
    assert!(equivalent_text("Dra ft", " dRAFT\n"));
    assert!(!equivalent_text("Draft!", "Draft"));
    assert!(!equivalent_text("Draft", "Final"));
}

#[test]
fn page_warnings_are_sifted() {
    let page = bbox([0.0, 0.0, 100.0, 100.0]);
    let kept = lasting_warnings(&vec![
        PageWarning::new("EmptyModelRegion", "semantic", "gone".to_owned()),
        PageWarning::new("Other", "semantic", "kept".to_owned()),
    ]);
    assert_eq!(kept.len(), 1);
    assert_eq!(kept[0].code, "Other");
    let warning = table_warning("p1:b:m0:s0", "no grid");
    assert_eq!(warning.code, "TableStructureUnavailable");
    assert_eq!(warning.message, "table p1:b:m0:s0 retains source lines: no grid");
    let mut formula = detection(0, [10.0, 10.0, 20.0, 20.0]);
    formula.label = LayoutLabel::DisplayFormula;
    let outside = detection(1, [90.0, 90.0, 120.0, 120.0]);
    assert_eq!(formula_regions(&vec![formula, outside], &page).len(), 1);
}

/// A block that becomes bibliography text has the text that it derives under its new label;
/// every other block keeps its own.
#[test]
fn relabelled_blocks_derive_their_text_anew() {
    let mut facts = items();
    let expected = items();
    let lower = facts.pop().expect("lower");
    let right = facts.pop().expect("right");
    let left = facts.pop().expect("left");
    let mut blocks = vec![
        block(0, LayoutLabel::Text, [10.0, 10.0, 40.0, 20.0], vec![left]),
        block(1, LayoutLabel::Text, [60.0, 10.0, 90.0, 20.0], vec![right]),
        block(2, LayoutLabel::Text, [10.0, 60.0, 50.0, 70.0], vec![lower]),
    ];
    for made in &mut blocks {
        made.text = "as plain text".to_owned();
    }
    let ids: Vec<BlockId> = blocks.iter().map(|made| made.id.copy()).collect();
    let mut page = draft(
        blocks,
        vec![block(9, LayoutLabel::Reference, [0.0, 0.0, 100.0, 30.0], Vec::new())],
        &expected,
    );
    page.reference_texts = vec![
        (ids[2].copy(), "not needed".to_owned()),
        (ids[0].copy(), "as bibliography".to_owned()),
    ];
    let page = page.complete().expect("page");
    let text = |id: &BlockId| {
        let found = page.blocks.iter().find(|made| made.id.as_str() == id.as_str());
        let found = found.expect("block");
        (matches!(found.label, LayoutLabel::ReferenceContent), found.text.as_str())
    };
    assert_eq!(text(&ids[0]), (true, "as bibliography"));
    assert_eq!(text(&ids[1]), (true, "as plain text"));
    assert_eq!(text(&ids[2]), (false, "as plain text"));
}

/// A page with a fact without an extent is not composed.
#[test]
fn facts_without_extent_are_not_composed() {
    let page = bbox([0.0, 0.0, 100.0, 100.0]);
    let mut facts = items();
    facts[1].bbox.bottom = facts[1].bbox.top;
    let refused = PageComposition::new(
        facts,
        &AssignmentEngine::new(1, page, FusionConfig::default()),
        &Vec::new(),
        &Vec::new(),
        OcrPolicy::Disabled,
        OcrCompletion::NotRequested,
        &Vec::new(),
        &Vec::new(),
    );
    assert!(matches!(
        refused,
        Err(PageAnalysisError::Line(LineError::Geometry(GeometryError::EmptyHeight)))
    ));
}
