use docparse_core::config::FusionConfig;
use docparse_core::error::LineError;
use docparse_core::fusion::assign::{check_seed, AssignmentEngine, BlockSeed, SeedError};
use docparse_core::fusion::score::{Measure, OutlineMeasures};
use docparse_core::geometry::{Baseline, Bbox, GeometryError, Point};
use docparse_core::layout::{GeometrySource, LayoutDetection, LayoutLabel, Outline};
use docparse_core::line::fragment::LineFragment;
use docparse_core::line::metrics::{LineAnchor, LineMetrics};
use docparse_core::rope::Rope;
use docparse_core::types::{Rotation, TextItem, TextItemId, WritingDirection};

fn pt(length: f64) -> i32 {
    (length * 10_000.0).round() as i32
}

/// One valid box in points.
fn bbox(value: [f64; 4]) -> Bbox {
    Bbox::new(pt(value[0]), pt(value[1]), pt(value[2]), pt(value[3]))
        .expect("test bbox must be valid")
}

/// One layout detection with ranking fields; the confidence is in millionths.
fn detection(
    source_detection_index: u32,
    bounds: [f64; 4],
    confidence: i64,
    model_order: i64,
) -> LayoutDetection {
    LayoutDetection {
        source_detection_index,
        raw_label: "text".to_owned(),
        class_id: 22,
        label: LayoutLabel::Text,
        confidence,
        bbox: bbox(bounds),
        outline: None,
        geometry_source: GeometrySource::ModelBox,
        model_order,
    }
}

fn item(index: u32, bounds: [f64; 4]) -> TextItem {
    TextItem::new(
        TextItemId::native(1, index),
        Rope::new(format!("item-{index}")),
        bbox(bounds),
    )
}

/// One line fragment owning exactly one stable native text item.
fn fragment(index: u32, bounds: [f64; 4]) -> LineFragment {
    let b = bbox(bounds);
    let baseline = Baseline {
        start: Point::new(b.left, b.bottom),
        end: Point::new(b.right, b.bottom),
    };
    LineFragment {
        items: vec![item(index, bounds)],
        bbox: b,
        baseline,
        direction: WritingDirection::LeftToRight,
        metrics: LineMetrics {
            font_size: pt(bounds[3] - bounds[1]),
            font_size_estimated: false,
            bold_ratio: 0,
            italic_ratio: 0,
            bbox: b,
            baseline,
            anchor: LineAnchor::Left,
            indent: b.left,
        },
        rotation: Rotation::upright(),
    }
}

fn page() -> Bbox {
    bbox([0.0, 0.0, 100.0, 100.0])
}

fn seed(detection: LayoutDetection) -> BlockSeed {
    check_seed(1, &detection, &page()).expect("valid detection must become a seed");
    BlockSeed {
        page_number: 1,
        detection,
        fragments: Vec::new(),
        assignment_evidence: Vec::new(),
    }
}

fn engine() -> AssignmentEngine {
    AssignmentEngine::new(1, page(), FusionConfig::default())
}

/// Both eligibility branches include exact configured thresholds.
#[test]
fn eligibility_uses_inclusive_thresholds() {
    let line = fragment(0, [0.0, 0.0, 100.0, 10.0]);
    let regular = seed(detection(0, [0.0, 0.0, 30.0, 10.0], 500_000, 0));
    let centered = seed(detection(1, [45.0, 0.0, 55.0, 10.0], 500_000, 1));
    let config = FusionConfig::default();
    assert!(regular.score(&line, 0, &Vec::new(), &page(), &config).is_some());
    assert!(centered.score(&line, 0, &Vec::new(), &page(), &config).is_some());
    let short = seed(detection(2, [0.0, 0.0, 29.9, 10.0], 500_000, 0));
    assert!(short.score(&line, 0, &Vec::new(), &page(), &config).is_none());
}

/// The weighted score uses exact components.
#[test]
fn score_matches_documented_formula() {
    let line = fragment(0, [0.0, 0.0, 100.0, 10.0]);
    let seed = seed(detection(0, [0.0, 0.0, 50.0, 10.0], 800_000, 0));
    let score = seed
        .score(&line, 0, &Vec::new(), &page(), &FusionConfig::default())
        .expect("half-covered line must be eligible");
    assert_eq!(score.coverage, 500_000_000);
    assert!(score.center_inside);
    assert_eq!(score.baseline_intersection, 500_000_000);
    assert_eq!(score.specificity, 950_000_000);
    // 0.5 * 0.55 + 1.0 * 0.20 + 0.5 * 0.10 + 0.8 * 0.10 + 0.95 * 0.05
    assert_eq!(score.assignment_score, 652_500_000_000_000);
}

/// A measured outline counts instead of the box around it.
#[test]
fn outlines_are_scored_as_measured() {
    let line = fragment(0, [0.0, 0.0, 100.0, 10.0]);
    let mut outlined = detection(7, [0.0, 0.0, 100.0, 10.0], 800_000, 0);
    outlined.outline = Some(Outline {
        bbox: bbox([0.0, 0.0, 100.0, 10.0]),
        area: 2 * 500_000_000_000,
    });
    let measures = vec![OutlineMeasures {
        source_detection_index: 7,
        facts: vec![Measure {
            covered2: 2 * 40_000_000_000,
            center_inside: false,
            baseline: 400_000_000,
        }],
    }];
    let seed = seed(outlined);
    let score = seed
        .score(&line, 0, &measures, &page(), &FusionConfig::default())
        .expect("covered enough");
    assert_eq!(score.coverage, 400_000_000);
    assert_eq!(score.baseline_intersection, 400_000_000);
    assert_eq!(score.specificity, 500_000_000);
    assert!(seed.score(&line, 1, &measures, &page(), &FusionConfig::default()).is_none());
}

/// Invalid geometry, confidence, class, and page bounds are rejected.
#[test]
fn invalid_detections_do_not_create_seeds() {
    let mut invalid_class = detection(0, [0.0, 0.0, 10.0, 10.0], 500_000, 0);
    invalid_class.class_id = 25;
    let invalid_confidence = detection(1, [0.0, 0.0, 10.0, 10.0], -1, 0);
    let outside = detection(2, [110.0, 0.0, 120.0, 10.0], 500_000, 0);
    assert_eq!(
        check_seed(1, &invalid_class, &page()),
        Err(SeedError::InvalidClass { class_id: 25 })
    );
    assert_eq!(
        check_seed(1, &invalid_confidence, &page()),
        Err(SeedError::InvalidConfidence)
    );
    assert_eq!(check_seed(1, &outside, &page()), Err(SeedError::InvalidGeometry));
    let fine = detection(3, [0.0, 0.0, 10.0, 10.0], 500_000, 0);
    assert_eq!(check_seed(0, &fine, &page()), Err(SeedError::InvalidPageNumber));
    assert_eq!(check_seed(1, &fine, &page()), Ok(()));
}

/// Ranking falls through all stable tie-break fields.
#[test]
fn assignment_tie_break_prefers_smaller_model_order() {
    let later = detection(9, [0.0, 0.0, 100.0, 30.0], 800_000, 9);
    let earlier = detection(8, [0.0, 0.0, 100.0, 30.0], 800_000, 2);
    let result = engine().assign(
        &vec![item(0, [10.0, 10.0, 90.0, 20.0])],
        &vec![later, earlier],
        &Vec::new(),
    ).expect("assignment");
    assert_eq!(result.model_seeds.len(), 2);
    let owner = result
        .model_seeds
        .iter()
        .find(|seed| !seed.fragments.is_empty())
        .expect("one seed must own the line");
    assert_eq!(owner.detection.source_detection_index, 8);
}

/// Assignment evidence retains only the number of non-owning candidates.
#[test]
fn assignment_records_alternative_count() {
    let result = engine().assign(
        &vec![item(0, [10.0, 10.0, 90.0, 20.0])],
        &vec![
            detection(0, [0.0, 0.0, 100.0, 30.0], 900_000, 0),
            detection(1, [0.0, 0.0, 100.0, 30.0], 800_000, 1),
            detection(2, [0.0, 0.0, 100.0, 30.0], 700_000, 2),
        ],
        &Vec::new(),
    ).expect("assignment");
    let owner = result
        .model_seeds
        .iter()
        .find(|seed| !seed.assignment_evidence.is_empty())
        .expect("one seed must retain assignment evidence");
    assert_eq!(owner.assignment_evidence[0].alternative_count, 2);
}

/// Inline formulas never compete for primary ownership.
#[test]
fn inline_formula_is_non_owning() {
    let mut formula = detection(0, [10.0, 10.0, 90.0, 20.0], 990_000, 0);
    formula.raw_label = "inline_formula".to_owned();
    formula.class_id = 15;
    formula.label = LayoutLabel::InlineFormula;
    let result = engine().assign(
        &vec![item(0, [10.0, 10.0, 90.0, 20.0])],
        &vec![formula],
        &Vec::new(),
    ).expect("assignment");
    assert_eq!(result.inline_formulas.len(), 1);
    assert_eq!(result.residual.len(), 1);
    assert!(result.model_seeds.is_empty());
}

/// Every input text identity remains in exactly one owner or residual list.
#[test]
fn assignment_preserves_text_identity_multiset() {
    let result = engine().assign(
        &vec![
            item(0, [5.0, 5.0, 40.0, 15.0]),
            item(1, [60.0, 5.0, 95.0, 15.0]),
            item(2, [5.0, 50.0, 40.0, 60.0]),
        ],
        &vec![detection(0, [0.0, 0.0, 50.0, 20.0], 900_000, 0)],
        &Vec::new(),
    ).expect("assignment");
    let mut ids: Vec<_> = result
        .model_seeds
        .iter()
        .flat_map(|seed| seed.fragments.iter())
        .chain(result.residual.iter())
        .flat_map(|fragment| fragment.items.iter())
        .map(|item| item.id.as_str())
        .collect();
    ids.sort_unstable();
    assert_eq!(ids, vec!["p1:t0", "p1:t1", "p1:t2"]);
}

/// A partially covered line cannot pull an outside text fact into a model region.
#[test]
fn assignment_keeps_outside_items_in_residual() {
    let result = engine().assign(
        &vec![
            item(0, [10.0, 10.0, 40.0, 20.0]),
            item(1, [60.0, 10.0, 90.0, 20.0]),
        ],
        &vec![detection(0, [5.0, 5.0, 50.0, 30.0], 900_000, 0)],
        &Vec::new(),
    ).expect("assignment");
    let model_ids: Vec<_> = result.model_seeds[0]
        .fragments
        .iter()
        .flat_map(|fragment| &fragment.items)
        .map(|item| item.id.as_str())
        .collect();
    let residual_ids: Vec<_> = result
        .residual
        .iter()
        .flat_map(|fragment| &fragment.items)
        .map(|item| item.id.as_str())
        .collect();
    assert_eq!(model_ids, vec!["p1:t0"]);
    assert_eq!(residual_ids, vec!["p1:t1"]);
}

/// Refused detections are named once each.
#[test]
fn refused_detections_are_reported() {
    let mut invalid = detection(4, [0.0, 0.0, 10.0, 10.0], 500_000, 0);
    invalid.class_id = 25;
    let result = engine().assign(&Vec::new(), &vec![invalid], &Vec::new()).expect("assignment");
    assert_eq!(result.diagnostics.len(), 1);
    assert!(result.model_seeds.is_empty());
}

/// A fact without an extent is refused, whatever owns it.
#[test]
fn facts_without_extent_are_not_assigned() {
    let mut flat = item(1, [60.0, 10.0, 90.0, 20.0]);
    flat.bbox.right = flat.bbox.left;
    let refused = engine().assign(
        &vec![item(0, [10.0, 10.0, 40.0, 20.0]), flat],
        &Vec::new(),
        &Vec::new(),
    );
    assert_eq!(refused.err(), Some(LineError::Geometry(GeometryError::EmptyWidth)));
}
