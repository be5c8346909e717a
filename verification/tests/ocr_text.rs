use docparse_core::geometry::{Bbox, Point};
use docparse_core::layout::{GeometrySource, LayoutDetection, LayoutLabel};
use docparse_core::line::axes::TextAxes;
use docparse_core::line::bidi::detect_direction;
use docparse_core::ocr::coverage::covered_area;
use docparse_core::ocr::index::TextIndex;
use docparse_core::ocr::merge::OcrMerger;
use docparse_core::ocr::plan::OcrPlan;
use docparse_core::ocr::spacing::space_words;
use docparse_core::ocr::{
    OcrCompletion, OcrConfig, OcrPolicy, OcrQuad, OcrResult, OcrTextItem,
};
use docparse_core::rope::Rope;
use docparse_core::text_rules::TextRules;
use docparse_core::types::{
    PageWarning, Quad, RepairAction, Rotation, TextItem, TextItemId, TextSource, WritingDirection,
};

fn pt(length: f64) -> i32 {
    (length * 10_000.0).round() as i32
}

fn bbox(value: [f64; 4]) -> Bbox {
    Bbox::new(pt(value[0]), pt(value[1]), pt(value[2]), pt(value[3])).expect("box")
}

fn turned(angle: f64) -> Rotation {
    let (sine, cosine) = angle.to_radians().sin_cos();
    Rotation {
        angle: (angle * 10_000.0).round() as i32,
        cosine: (cosine * 1e9).round() as i32,
        sine: (sine * 1e9).round() as i32,
    }
}

fn recognized(index: u32, text: &str, bounds: [f64; 4]) -> TextItem {
    let mut made = TextItem::new(
        TextItemId::ocr(1, index),
        Rope::new(text.to_owned()),
        bbox(bounds),
    );
    made.source = TextSource::Ocr;
    made
}

fn native(index: u32, text: &str, bounds: [f64; 4]) -> TextItem {
    TextItem::new(
        TextItemId::native(1, index),
        Rope::new(text.to_owned()),
        bbox(bounds),
    )
}

fn texts(items: &[TextItem]) -> Vec<String> {
    items.iter().map(|item| item.raw_text.to_text()).collect()
}

fn rules() -> TextRules {
    TextRules { punctuation: Vec::new(), ligatures: Vec::new(), suspicious: Vec::new() }
}

/// The index equals a complete scan for nested, tall, disjoint and edge-touching boxes.
#[test]
fn interval_queries_preserve_all_overlaps() {
    let items: Vec<_> = (0..80)
        .rev()
        .map(|index: u32| {
            let left = f64::from(index % 4) * 25.0;
            let top = f64::from(index) * 10.0;
            let bottom = if index == 0 { 1000.0 } else { top + 15.0 };
            native(index, "text", [left, top, left + 20.0, bottom])
        })
        .collect();
    let index = TextIndex::new(items.iter().map(TextItem::copy).collect());
    assert_eq!(index.len(), 80);
    for bounds in [
        [0.0, 600.0, 100.0, 630.0],
        [20.0, 30.0, 25.0, 50.0],
        [0.0, 995.0, 10.0, 1005.0],
        [100.0, 0.0, 110.0, 1000.0],
    ] {
        let query = bbox(bounds);
        let mut actual: Vec<_> = index
            .overlapping(query)
            .into_iter()
            .map(|position| index.item(position).id.as_str())
            .collect();
        let mut expected: Vec<_> = items
            .iter()
            .filter(|item| item.bbox.intersection_area(&query) > 0)
            .map(|item| item.id.as_str())
            .collect();
        actual.sort_unstable();
        expected.sort_unstable();
        assert_eq!(actual, expected);
    }
}

/// Word gaps become explicit; CJK remains unspaced.
#[test]
fn word_spacing_preserves_cjk_boundaries() {
    let items = vec![
        recognized(0, "Hello", [0.0, 10.0, 20.0, 20.0]),
        recognized(1, "world", [23.0, 10.0, 43.0, 20.0]),
        recognized(2, "中文", [46.0, 10.0, 66.0, 20.0]),
    ];
    let spaced = space_words(&items);
    assert_eq!(texts(&spaced), ["Hello", " world", "中文"]);
    assert_eq!(*spaced[1].repair_actions, vec![RepairAction::OcrSpacing]);
    assert!(spaced[2].repair_actions.is_empty());
}

/// A complete scan, as an independent oracle for the candidate search.
fn reference_spacing(items: &[TextItem]) -> Vec<bool> {
    let word = |c: char| {
        c.is_alphanumeric()
            && !matches!(c as u32,
                0x2e80..=0xa4cf | 0xac00..=0xd7af | 0xf900..=0xfaff | 0x20000..=0x323af)
    };
    items
        .iter()
        .map(|right| {
            if !right.raw_text.to_text().chars().next().is_some_and(word) {
                return false;
            }
            let axes = TextAxes::from(right.rotation);
            let Ok(right_box) = axes.project_bbox(right.bbox) else {
                return false;
            };
            let rtl = detect_direction(&vec![right.copy()], right.rotation.angle)
                == WritingDirection::RightToLeft;
            items.iter().any(|left| {
                let text = left.raw_text.to_text();
                let closing = [
                    ',', '.', ':', ';', '!', '?', ')', ']', '}', '"', '\'', '…',
                ];
                if left.id.as_str() == right.id.as_str()
                    || (left.rotation.angle - right.rotation.angle).abs() > 20_000
                    || !text.trim_end_matches(closing).chars().last().is_some_and(word)
                {
                    return false;
                }
                let Ok(left_box) = axes.project_bbox(left.bbox) else {
                    return false;
                };
                let height = left_box.height().min(right_box.height());
                let gap = i128::from(if rtl {
                    left_box.left - right_box.right
                } else {
                    right_box.left - left_box.right
                });
                let shift = i128::from((left_box.bottom - right_box.bottom).abs());
                10 * shift < 3 * height && 20 * gap > 3 * height && 4 * gap < 5 * height
            })
        })
        .collect()
}

/// Indexing matches a scan for mixed scripts, heights, directions and detector-angle jitter.
#[test]
fn indexed_spacing_matches_reference_scan() {
    for offset in [0.0, 10000.0] {
        let items: Vec<_> = (0..240)
            .map(|index: usize| {
                let base: f64 =
                    [0.0, 90.0, 180.0, 270.0, 0.7, 179.5, 13.0, 359.0][(index / 20) % 8];
                let rotation = if index % 5 == 0 { base + 0.4 } else { base };
                let text = [
                    "word", "after,", "中文", "with ", " space", "שלום", "123", "note)",
                ][index % 8];
                let vertical = (base - 90.0).abs() < 1e-9 || (base - 270.0).abs() < 1e-9;
                let (left, top, width, height) = if vertical {
                    (
                        offset + (index / 20) as f64 * 15.0,
                        offset + (index % 20) as f64 * 17.0,
                        9.0 + (index % 3) as f64,
                        13.0,
                    )
                } else {
                    (
                        offset + (index % 20) as f64 * 17.0,
                        offset + (index / 20) as f64 * 15.0,
                        13.0,
                        9.0 + (index % 3) as f64,
                    )
                };
                let mut made =
                    recognized(index as u32, text, [left, top, left + width, top + height]);
                made.rotation = turned(rotation);
                made
            })
            .collect();
        let expected = reference_spacing(&items);
        let spaced = space_words(&items);
        for ((before, after), spaces) in items.iter().zip(&spaced).zip(&expected) {
            let text = before.raw_text.to_text();
            let wanted = if *spaces { format!(" {text}") } else { text };
            assert_eq!(after.raw_text.to_text(), wanted);
            let mut actions = (*before.repair_actions).clone();
            if *spaces {
                actions.push(RepairAction::OcrSpacing);
            }
            assert_eq!(*after.repair_actions, actions);
        }
        assert!(expected.iter().any(|spaces| *spaces));
    }
}

fn merger(policy: OcrPolicy) -> OcrMerger {
    OcrMerger {
        config: OcrConfig { policy, recognition_threshold: 500_000 },
        page_number: 1,
        page_bbox: bbox([0.0, 0.0, 1000.0, 1000.0]),
        missing_regions: vec![bbox([0.0, 0.0, 1000.0, 1000.0])],
    }
}

fn fact(text: &str, bounds: [f64; 4], confidence: i64) -> OcrTextItem {
    OcrTextItem {
        text: text.to_owned(),
        bbox: bbox(bounds),
        outline: None,
        quad: None,
        confidence,
    }
}

fn succeeded(items: Vec<OcrTextItem>) -> OcrCompletion {
    OcrCompletion::Succeeded { result: OcrResult { items } }
}

fn run(
    policy: OcrPolicy,
    items: Vec<TextItem>,
    unusable: Vec<bool>,
    completion: OcrCompletion,
) -> (Vec<TextItem>, Vec<TextItem>, Vec<PageWarning>) {
    let mut items = items;
    let mut warnings = Vec::new();
    let archived =
        merger(policy).merge(&rules(), &mut items, &unusable, &mut warnings, completion);
    (items, archived, warnings)
}

/// Recognized text that repeats every native fact adds none.
#[test]
fn ocr_perf_text_merge() {
    let bounds = |index: u32| {
        let left = f64::from(index % 20) * 48.0;
        let top = f64::from(index / 20) * 18.0;
        [left, top, left + 36.0, top + 12.0]
    };
    let natives: Vec<_> = (0..100).map(|i| native(i, "example", bounds(i))).collect();
    let facts: Vec<_> = (0..100).map(|i| fact("example", bounds(i), 990_000)).collect();
    let usable = vec![false; natives.len()];
    let (items, archived, warnings) =
        run(OcrPolicy::Always, natives, usable, succeeded(facts));
    assert_eq!(items.len(), 100);
    assert!(archived.is_empty());
    assert!(warnings.is_empty());
}

/// Text that no native fact shows is added, with the measure of its box.
#[test]
fn recognized_text_fills_gaps() {
    let (items, archived, warnings) = run(
        OcrPolicy::Always,
        Vec::new(),
        Vec::new(),
        succeeded(vec![fact(" seen ", [10.0, 10.0, 60.0, 20.0], 900_000)]),
    );
    assert_eq!(texts(&items), ["seen"]);
    assert_eq!(items[0].source, TextSource::Ocr);
    assert_eq!(items[0].confidence, Some(900_000));
    assert_eq!(items[0].font_size(), Some(pt(10.0)));
    assert!(archived.is_empty() && warnings.is_empty());
}

/// A recognized quadrangle gives the baseline and the rotation.
#[test]
fn recognized_corners_give_the_baseline() {
    let corner = |x: f64, y: f64| Point::new(pt(x), pt(y));
    let mut seen = fact("seen", [10.0, 10.0, 60.0, 20.0], 900_000);
    seen.outline = Some(seen.bbox);
    seen.quad = Some(OcrQuad {
        quad: Quad {
            a: corner(10.0, 10.0),
            b: corner(60.0, 10.0),
            c: corner(60.0, 20.0),
            d: corner(10.0, 20.0),
        },
        rotation: turned(0.0),
        height: pt(10.0),
    });
    let (items, _, _) = run(OcrPolicy::Always, Vec::new(), Vec::new(), succeeded(vec![seen]));
    let baseline = items[0].baseline.expect("baseline");
    assert_eq!((baseline.start.x, baseline.start.y), (pt(10.0), pt(20.0)));
    assert_eq!((baseline.end.x, baseline.end.y), (pt(60.0), pt(20.0)));
}

/// An unusable native fact is archived once reliable text covers it.
#[test]
fn covered_unusable_facts_are_archived() {
    let garbled = vec![native(0, "\u{fffd}\u{fffd}", [10.0, 10.0, 60.0, 20.0])];
    let (items, archived, _) = run(
        OcrPolicy::Always,
        garbled,
        vec![true],
        succeeded(vec![fact("seen", [10.0, 10.0, 60.0, 20.0], 900_000)]),
    );
    assert_eq!(texts(&items), ["seen"]);
    assert_eq!(archived.len(), 1);
    assert_eq!(archived[0].id.as_str(), "p1:t0");
}

#[test]
fn invalid_and_missing_results_are_reported() {
    let (items, _, warnings) = run(
        OcrPolicy::Always,
        Vec::new(),
        Vec::new(),
        succeeded(vec![fact("  ", [10.0, 10.0, 60.0, 20.0], 900_000)]),
    );
    assert!(items.is_empty());
    assert_eq!(warnings[0].code, "InvalidOcrResult");
    assert_eq!(warnings[0].message, "ignored OCR result 0");
    let (_, _, warnings) =
        run(OcrPolicy::Always, Vec::new(), Vec::new(), OcrCompletion::Unavailable);
    assert_eq!(warnings[0].code, "OcrUnavailable");
    let (_, _, warnings) = run(
        OcrPolicy::Always,
        Vec::new(),
        Vec::new(),
        OcrCompletion::Failed { message: "engine stopped".to_owned() },
    );
    assert_eq!(warnings[0].code, "OcrFailed");
    assert_eq!(warnings[0].message, "engine stopped");
    let (_, _, warnings) =
        run(OcrPolicy::Disabled, Vec::new(), Vec::new(), OcrCompletion::Unavailable);
    assert!(warnings.is_empty());
}

/// Repeated boxes do not count twice.
#[test]
fn coverage_counts_shared_area_once() {
    let whole = bbox([0.0, 0.0, 10.0, 10.0]);
    let half = bbox([0.0, 0.0, 5.0, 10.0]);
    assert_eq!(covered_area(&whole, &vec![half, half]), half.area());
    assert_eq!(
        covered_area(&whole, &vec![half, bbox([2.0, 0.0, 12.0, 10.0])]),
        whole.area()
    );
}

fn detected(label: LayoutLabel, bounds: [f64; 4]) -> LayoutDetection {
    LayoutDetection {
        source_detection_index: 0,
        raw_label: String::new(),
        class_id: 0,
        label,
        confidence: 900_000,
        bbox: bbox(bounds),
        outline: None,
        geometry_source: GeometrySource::ModelBox,
        model_order: 0,
    }
}

/// Sparse pages are read whole; dense ones only where text is missing.
#[test]
fn plans_cover_what_native_text_leaves_out() {
    let page = bbox([0.0, 0.0, 100.0, 100.0]);
    let few = vec![native(0, "few", [10.0, 10.0, 30.0, 20.0])];
    let none: Vec<LayoutDetection> = Vec::new();
    let plan = OcrPlan::new(&few, &vec![false], &none, page, OcrPolicy::MissingRegions, 100_000);
    assert_eq!(plan.regions, vec![page]);
    let plan = OcrPlan::new(&few, &vec![false], &none, page, OcrPolicy::Disabled, 100_000);
    assert!(plan.regions.is_empty());
    let plan = OcrPlan::new(&few, &vec![false], &none, page, OcrPolicy::Always, 100_000);
    assert_eq!(plan.regions, vec![page]);
    let many = vec![native(0, &"dense text ".repeat(10), [0.0, 0.0, 100.0, 50.0])];
    let plan = OcrPlan::new(
        &many,
        &vec![false],
        &vec![
            detected(LayoutLabel::Text, [10.0, 10.0, 90.0, 40.0]),
            detected(LayoutLabel::Text, [10.0, 60.0, 90.0, 90.0]),
            detected(LayoutLabel::Image, [10.0, 5.0, 20.0, 10.0]),
        ],
        page,
        OcrPolicy::MissingRegions,
        100_000,
    );
    assert_eq!(
        plan.regions,
        vec![bbox([10.0, 5.0, 20.0, 10.0]), bbox([10.0, 60.0, 90.0, 90.0])]
    );
    assert_eq!(plan.native_text_coverage, 500_000);
}
