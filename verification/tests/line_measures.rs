use docparse_core::blocks::{BlockId, Line, LineId};
use docparse_core::config::FusionConfig;
use docparse_core::geometry::{Baseline, Bbox, Point};
use docparse_core::layout::{GeometrySource, LayoutDetection, LayoutLabel};
use docparse_core::line::assemble::ConservativeLineAssembler;
use docparse_core::line::bidi::{canonical_rotation, detect_direction, is_rtl_character, order_items};
use docparse_core::line::formula::{formula_region, FormulaRegion};
use docparse_core::line::mean::Mean;
use docparse_core::line::metrics::{LineAnchor, LineMetrics};
use docparse_core::rope::Rope;
use docparse_core::types::{
    Rotation, TableRule, TextItem, TextItemId, TextStyle, WritingDirection,
};

fn pt(length: f64) -> i32 {
    (length * 10_000.0).round() as i32
}

fn bbox(b: [f64; 4]) -> Bbox {
    Bbox::new(pt(b[0]), pt(b[1]), pt(b[2]), pt(b[3])).expect("test bbox must be valid")
}

fn turned(angle: f64) -> Rotation {
    let (sine, cosine) = angle.to_radians().sin_cos();
    Rotation {
        angle: (angle * 10_000.0).round() as i32,
        cosine: (cosine * 1e9).round() as i32,
        sine: (sine * 1e9).round() as i32,
    }
}

/// One positioned text item.
fn item(index: u32, text: &str, left: f64) -> TextItem {
    TextItem::new(
        TextItemId::native(1, index),
        Rope::new(text.to_owned()),
        bbox([left, 10.0, left + 20.0, 20.0]),
    )
}

/// One cardinally rotated item at a vertical position.
fn rotated_item(index: u32, text: &str, top: f64, rotation: f64) -> TextItem {
    let mut made = TextItem::new(
        TextItemId::native(1, index),
        Rope::new(text.to_owned()),
        bbox([10.0, top, 30.0, top + 10.0]),
    );
    made.rotation = turned(rotation);
    made
}

fn texts(items: &[TextItem]) -> Vec<String> {
    items.iter().map(|item| item.raw_text.to_text()).collect()
}

/// Strong right-to-left characters determine direction while numbers remain neutral.
#[test]
fn rtl_order_changes_items_without_reversing_text() {
    let items = vec![item(0, "שלום", 100.0), item(1, "123", 70.0)];
    let direction = detect_direction(&items, 0);
    let items = order_items(items, direction);
    assert_eq!(direction, WritingDirection::RightToLeft);
    assert_eq!(texts(&items), ["שלום", "123"]);
}

/// Upright Latin and rotated text select distinct directions.
#[test]
fn ltr_and_vertical_directions_are_detected() {
    let latin = vec![item(0, "abcdefgh", 0.0), item(1, "שלום", 30.0)];
    assert_eq!(detect_direction(&latin, 0), WritingDirection::LeftToRight);
    assert_eq!(detect_direction(&latin, 900_000), WritingDirection::Vertical);
}

/// Text turned by 270 degrees is read from bottom to top.
#[test]
fn rotation_270_orders_items_bottom_to_top() {
    let items = vec![
        rotated_item(2, "2024", 10.0, 270.0),
        rotated_item(0, "arXiv:", 50.0, 270.0),
        rotated_item(1, "2403.01632v4 ", 30.0, 270.0),
    ];
    let direction = detect_direction(&items, 2_700_000);
    let items = order_items(items, direction);
    assert_eq!(direction, WritingDirection::Vertical);
    assert_eq!(texts(&items).concat(), "arXiv:2403.01632v4 2024");
}

/// Text turned by 90 degrees is read from top to bottom.
#[test]
fn rotation_90_orders_items_top_to_bottom() {
    let items = vec![
        rotated_item(2, "bottom", 50.0, 90.0),
        rotated_item(0, "top", 10.0, 90.0),
        rotated_item(1, "middle", 30.0, 90.0),
    ];
    let direction = detect_direction(&items, 900_000);
    let items = order_items(items, direction);
    assert_eq!(direction, WritingDirection::Vertical);
    assert_eq!(texts(&items), vec!["top", "middle", "bottom"]);
}

/// Angles near an axis snap to it, on both sides.
#[test]
fn canonical_rotation_snaps_near_cardinal_angles() {
    assert_eq!(canonical_rotation(885_000), 90);
    assert_eq!(canonical_rotation(2_710_000), 270);
    assert_eq!(canonical_rotation(3_590_000), 0);
    assert_eq!(canonical_rotation(-10_000), 0);
    assert_eq!(canonical_rotation(450_000), 45);
}

#[test]
fn alphabetic_characters_tell_scripts_apart() {
    assert!(is_rtl_character('ש'));
    assert!(!is_rtl_character('a'));
    assert!(!is_rtl_character('1'));
}

fn styled(index: u32, left: f64, font_size: f64, bold: bool) -> TextItem {
    let mut made = item(index, "text", left);
    let mut style = TextStyle::unknown();
    style.font_size = Some(pt(font_size));
    style.bold = bold;
    made.style = Some(style);
    made
}

/// Character-weighted typography and line anchors are deterministic.
#[test]
fn metrics_aggregate_font_and_style() {
    let items = vec![styled(0, 10.0, 10.0, false), styled(1, 35.0, 14.0, true)];
    let metrics = LineMetrics::from_items(&items, pt(100.0)).expect("line metrics must build");
    assert_eq!(metrics.font_size, pt(12.0));
    assert_eq!(metrics.bold_ratio, 500_000);
    assert_eq!(metrics.anchor, LineAnchor::Center);
    assert_eq!(metrics.bbox, bbox([10.0, 10.0, 55.0, 20.0]));
}

#[test]
fn metrics_need_a_run() {
    let error = LineMetrics::from_items(&Vec::new(), pt(100.0)).expect_err("no runs");
    assert_eq!(error.message(), "line fragments cannot be empty");
}

fn glyph(index: u32, text: &str, b: [f64; 4], size: f64, y: f64) -> TextItem {
    let mut made = TextItem::new(
        TextItemId::native(4, index),
        Rope::new(text.to_owned()),
        bbox(b),
    );
    let mut style = TextStyle::unknown();
    style.font_size = Some(pt(size));
    made.style = Some(style);
    made.baseline = Some(Baseline {
        start: Point::new(pt(b[0]), pt(y)),
        end: Point::new(pt(b[2]), pt(y)),
    });
    made
}

/// A neighboring variable's own power is not stolen by a fraction.
#[test]
fn survey_fraction_powers_follow_their_base() {
    let items = vec![
        glyph(0, "=", [15.0, 39.0, 23.0, 49.0], 12.0, 47.0),
        glyph(1, "a", [31.0, 33.0, 38.0, 41.0], 12.0, 40.0),
        glyph(2, "b", [31.0, 46.0, 38.0, 54.0], 12.0, 53.0),
        glyph(3, "c", [43.0, 39.0, 49.0, 49.0], 12.0, 47.0),
        glyph(4, "2", [49.0, 34.0, 53.0, 41.0], 8.0, 40.0),
    ];
    let rules = vec![TableRule::Horizontal { y: pt(44.0), left: pt(30.0), right: pt(40.0) }];
    let regions = vec![FormulaRegion { bbox: bbox([10.0, 25.0, 60.0, 58.0]), inline: false }];
    for reverse in [false, true] {
        let mut input: Vec<TextItem> = items.iter().map(TextItem::copy).collect();
        if reverse {
            input.reverse();
        }
        let lines = ConservativeLineAssembler
            .fragments_with_formulas(input, &FusionConfig::default(), &rules, &regions)
            .expect("assemble");
        let text: String = lines
            .iter()
            .flat_map(|line| line.items.iter().map(|item| item.raw_text.to_text()))
            .collect();
        assert_eq!(text, "=abc2");
        let mut kept: Vec<String> = lines
            .iter()
            .flat_map(|line| line.items.iter().map(|item| format!("{item:?}")))
            .collect();
        kept.sort();
        let mut given: Vec<String> = items.iter().map(|item| format!("{item:?}")).collect();
        given.sort();
        assert_eq!(kept, given);
    }
}

fn detection(label: LayoutLabel, class_id: i64, confidence: i64) -> LayoutDetection {
    LayoutDetection {
        source_detection_index: 0,
        raw_label: String::new(),
        class_id,
        label,
        confidence,
        bbox: bbox([10.0, 10.0, 50.0, 30.0]),
        outline: None,
        geometry_source: GeometrySource::ModelBox,
        model_order: 0,
    }
}

#[test]
fn only_valid_formula_detections_become_regions() {
    let made = FormulaRegion::from_detection(&detection(LayoutLabel::InlineFormula, 0, 900_000));
    assert_eq!(
        made,
        Some(FormulaRegion { bbox: bbox([10.0, 10.0, 50.0, 30.0]), inline: true })
    );
    assert!(FormulaRegion::from_detection(&detection(LayoutLabel::Text, 0, 900_000)).is_none());
    assert!(
        FormulaRegion::from_detection(&detection(LayoutLabel::DisplayFormula, -1, 900_000))
            .is_none()
    );
    assert!(
        FormulaRegion::from_detection(&detection(LayoutLabel::DisplayFormula, 0, 1_000_001))
            .is_none()
    );
}

#[test]
fn runs_belong_to_the_smallest_covering_formula() {
    let regions = vec![
        FormulaRegion { bbox: bbox([0.0, 0.0, 100.0, 50.0]), inline: false },
        FormulaRegion { bbox: bbox([10.0, 5.0, 60.0, 25.0]), inline: true },
    ];
    assert_eq!(formula_region(&item(0, "x", 20.0), &regions), Some(1));
    assert_eq!(formula_region(&item(1, "x", 70.0), &regions), Some(0));
    assert_eq!(formula_region(&item(2, "x", 150.0), &regions), None);
}

fn row(index: u32, text: &str, left: f64, top: f64) -> Line {
    let mut run = item(index, text, left);
    let right = left + 10.0 * text.chars().count() as f64;
    run.bbox = bbox([left, top, right, top + 10.0]);
    Line {
        id: LineId::new(&BlockId::model(1, 0, 0), index),
        text: text.to_owned(),
        bbox: run.bbox,
        direction: WritingDirection::LeftToRight,
        rotation: Rotation::upright(),
        baseline: None,
        text_items: vec![run],
        inline_spans: 0,
    }
}

/// Lines at one height share a row, and columns follow the median character width.
#[test]
fn projection_keeps_rows_and_columns() {
    let lines = vec![
        row(0, "abc", 10.0, 10.0),
        row(1, "de", 70.0, 10.0),
        row(2, "fgh", 30.0, 30.0),
        row(3, "   ", 0.0, 50.0),
    ];
    let rendered: Vec<String> = lines.iter().map(|line| line.text.clone()).collect();
    let shown = Line::project_layout(&lines, &rendered);
    let found: Vec<_> = shown
        .iter()
        .map(|line| (line.new_row, line.spaces, line.text.as_str()))
        .collect();
    assert_eq!(found, vec![(false, 0, "abc"), (false, 3, "de"), (true, 2, "fgh")]);
}

/// Spaces that a text starts with count as columns, trailing blanks are dropped.
#[test]
fn projection_keeps_leading_spaces() {
    let lines = vec![row(0, "abc", 10.0, 10.0)];
    let shown = Line::project_layout(&lines, &vec!["    abc  ".to_owned()]);
    assert_eq!(shown.len(), 1);
    assert_eq!(shown[0].spaces, 4);
    assert_eq!(shown[0].text, "abc");
    assert!(Line::project_layout(&Vec::new(), &Vec::new()).is_empty());
}

/// A weighted mean is that of the whole sum, rounded down once, and does not overflow.
#[test]
fn means_weigh_without_overflow() {
    let values: [(i32, u64); 6] =
        [(7, 3), (-5, 10), (i32::MAX, 1), (i32::MIN, 2), (1, 1), (100_000, 999)];
    let mut mean = Mean::new();
    let (mut sum, mut weight) = (0_i128, 0_i128);
    for (value, count) in values {
        mean.take(value, count);
        sum += i128::from(value) * i128::from(count);
        weight += i128::from(count);
        assert_eq!(i128::from(mean.quotient), sum.div_euclid(weight));
        assert_eq!(mean.weight as i128, weight);
    }
    let mut long = Mean::new();
    for _ in 0..3 {
        long.take(i32::MAX, u64::MAX);
        long.take(i32::MIN, u64::MAX);
    }
    assert_eq!(long.quotient, -1);
    assert_eq!(long.weight, 6 * u128::from(u64::MAX));
}
