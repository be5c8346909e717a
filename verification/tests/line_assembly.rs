use docparse_core::config::FusionConfig;
use docparse_core::error::LineError;
use docparse_core::geometry::{Baseline, Bbox, GeometryError, Point};
use docparse_core::line::assemble::{join_script_gaps, ConservativeLineAssembler};
use docparse_core::line::formula::FormulaRegion;
use docparse_core::line::fraction::restore;
use docparse_core::line::fragment::LineFragment;
use docparse_core::line::inline::InlineInput;
use docparse_core::line::metrics::LineMetrics;
use docparse_core::rope::Rope;
use docparse_core::types::{
    Rotation, TableRule, TextItem, TextItemId, TextSource, TextStyle, WritingDirection,
};

/// Units of a length in points.
fn pt(length: f64) -> i32 {
    (length * 10_000.0).round() as i32
}

/// A box in points.
fn bbox(b: [f64; 4]) -> Bbox {
    Bbox::new(pt(b[0]), pt(b[1]), pt(b[2]), pt(b[3])).expect("test bbox must be valid")
}

/// The rotation of an angle in degrees.
fn turned(angle: f64) -> Rotation {
    let (sine, cosine) = angle.to_radians().sin_cos();
    Rotation {
        angle: (angle * 10_000.0).round() as i32,
        cosine: (cosine * 1e9).round() as i32,
        sine: (sine * 1e9).round() as i32,
    }
}

/// Builds one native text item with a stable position and font size.
fn item(index: u32, text: &str, bounds: [f64; 4], font_size: f64) -> TextItem {
    let mut made = TextItem::new(
        TextItemId::native(1, index),
        Rope::new(text.to_owned()),
        bbox(bounds),
    );
    let mut style = TextStyle::unknown();
    style.font_size = Some(pt(font_size));
    made.source = TextSource::Native;
    made.style = Some(style);
    made
}

/// A baseline between two points.
fn line(start: (f64, f64), end: (f64, f64)) -> Baseline {
    Baseline {
        start: Point::new(pt(start.0), pt(start.1)),
        end: Point::new(pt(end.0), pt(end.1)),
    }
}

/// An item that rests at a height.
fn resting(index: u32, text: &str, bounds: [f64; 4], font_size: f64, y: f64) -> TextItem {
    let mut made = item(index, text, bounds, font_size);
    made.baseline = Some(line((bounds[0], y), (bounds[2], y)));
    made
}

fn copies(items: &[TextItem]) -> Vec<TextItem> {
    items.iter().map(TextItem::copy).collect()
}

fn reversed(items: &[TextItem]) -> Vec<TextItem> {
    items.iter().rev().map(TextItem::copy).collect()
}

fn lines(items: Vec<TextItem>) -> Vec<LineFragment> {
    ConservativeLineAssembler
        .fragments(items, &FusionConfig::default())
        .expect("grouping must succeed")
}

fn ruled(items: Vec<TextItem>, rules: Vec<TableRule>) -> Vec<LineFragment> {
    ConservativeLineAssembler
        .fragments_with_rules(items, &FusionConfig::default(), &rules)
        .expect("grouping must succeed")
}

fn text_of(items: &[TextItem]) -> String {
    items.iter().map(|item| item.raw_text.to_text()).collect()
}

fn texts(lines: &[LineFragment]) -> Vec<String> {
    lines.iter().map(|line| text_of(&line.items)).collect()
}

fn ids(items: &[TextItem]) -> Vec<String> {
    items.iter().map(|item| item.id.as_str().to_owned()).collect()
}

fn singles(items: Vec<TextItem>, page_width: f64) -> Vec<LineFragment> {
    items
        .into_iter()
        .map(|item| LineFragment::from_items(vec![item], pt(page_width)).expect("fragment"))
        .collect()
}

fn shown<T: std::fmt::Debug>(value: &T) -> String {
    format!("{value:?}")
}

/// Nearby same-baseline fragments merge while distant columns remain separate.
#[test]
fn conservative_grouping_respects_large_column_gaps() {
    let fragments = lines(vec![
        item(0, "left-a", [10.0, 10.0, 40.0, 20.0], 10.0),
        item(1, "left-b", [43.0, 10.0, 75.0, 20.0], 10.0),
        item(2, "right", [300.0, 10.0, 340.0, 20.0], 10.0),
    ]);
    assert_eq!(fragments.len(), 2);
    assert_eq!(fragments[0].items.len(), 2);
    assert_eq!(fragments[1].items.len(), 1);
}

/// Raised and lowered small glyphs join a parent without moving its baseline or the next row.
#[test]
fn scripts_join_parent_line_and_preserve_body_baseline() {
    for bounds in [[32.0, 7.0, 36.0, 14.0], [32.0, 16.0, 36.0, 23.0]] {
        let inputs = vec![
            item(0, "body", [10.0, 10.0, 60.0, 20.0], 10.0),
            item(1, "2", bounds, 7.0),
            item(2, "next", [10.0, 24.0, 60.0, 34.0], 10.0),
        ];
        let forward = lines(copies(&inputs));
        let reverse = lines(reversed(&inputs));
        assert_eq!(shown(&forward), shown(&reverse));
        assert_eq!(forward.len(), 2);
        assert_eq!(ids(&forward[0].items), vec!["p1:t0", "p1:t1"]);
        assert_eq!(forward[0].baseline.start.y, pt(20.0));
        assert_eq!(forward[0].metrics.font_size, pt(10.0));
    }
}

/// Small type alone does not establish script ownership across baselines, columns or notes.
#[test]
fn small_non_script_text_remains_separate() {
    for (text, bounds, font_size) in [
        ("2", [32.0, 13.0, 36.0, 20.0], 7.0),
        ("2", [73.0, 16.0, 77.0, 23.0], 7.0),
        ("footnote", [32.0, 16.0, 58.0, 23.0], 7.0),
        ("2", [32.0, 16.0, 36.0, 23.0], 10.0),
    ] {
        let found = lines(vec![
            item(0, "body", [10.0, 10.0, 60.0, 20.0], 10.0),
            item(1, text, bounds, font_size),
        ]);
        assert_eq!(found.len(), 2, "independent small text: {text} {bounds:?}");
    }
}

/// Groups oblique spans by their baseline instead of page top, preserving parallel lines.
#[test]
fn scaled_oblique_glyphs_use_physical_font_height() {
    let mut items = Vec::new();
    for (index, x) in [20.0_f64, 40.0].into_iter().enumerate() {
        let mut glyph = item(
            index as u32,
            if index == 0 { "A" } else { "B" },
            [x - 8.0, 100.0 - x - 8.0, x + 38.0, 100.0 - x + 38.0],
            1.0,
        );
        glyph.rotation = turned(315.0);
        glyph.style.as_mut().expect("style").font_height = Some(pt(48.0));
        glyph.baseline = Some(line((x, 100.0 - x), (x + 30.0, 70.0 - x)));
        items.push(glyph);
    }
    let fragments = lines(items);
    assert_eq!(
        fragments.len(),
        1,
        "glyph overlap is relative to displayed size"
    );
    assert_eq!(text_of(&fragments[0].items), "AB");
}

/// Measured equal baselines override misleading glyph bottoms when font sizes differ.
#[test]
fn measured_baselines_prevent_false_script_attachment() {
    let found = lines(vec![
        resting(0, "body", [10.0, 10.0, 60.0, 20.0], 10.0, 20.0),
        resting(1, "2", [32.0, 16.0, 36.0, 23.0], 7.0, 20.0),
    ]);
    assert_eq!(
        found.len(),
        2,
        "a measured baseline has priority over the bbox bottom"
    );
}

/// Nested indices follow original parent relations without absorbing the following row.
#[test]
fn nested_scripts_follow_original_typographic_parent_chain() {
    let sources = vec![
        resting(0, "q", [10.0, 10.0, 15.0, 20.0], 10.0, 18.0),
        resting(1, "τ", [15.0, 6.0, 19.0, 12.0], 7.0, 10.5),
        resting(2, "f", [18.5, 9.0, 22.0, 13.0], 5.0, 11.8),
        resting(3, "0", [14.9, 18.0, 19.0, 24.0], 7.0, 22.0),
        resting(4, "next", [10.0, 30.0, 50.0, 40.0], 10.0, 38.0),
    ];
    let output = LineFragment::attach_scripts(singles(sources, 100.0), pt(100.0)).expect("scripts");
    assert_eq!(
        output.len(),
        2,
        "a nested index must not become an independent line"
    );
    assert_eq!(text_of(&output[0].items), "q0τf");
    assert_eq!(output[0].baseline.start.y, pt(18.0));
    assert_eq!(output[1].items.len(), 1);
}

/// Nested scripts fill an apparent inline gap without joining the following body row.
#[test]
fn script_extents_bridge_fragments_on_the_same_body_baseline() {
    let found = lines(vec![
        resting(0, "q", [10.0, 10.0, 15.0, 20.0], 10.0, 18.0),
        resting(1, "τ", [15.0, 6.0, 19.0, 12.0], 7.0, 10.5),
        resting(2, "f+1", [18.5, 9.0, 28.5, 13.0], 5.0, 11.8),
        resting(3, "0", [14.9, 18.0, 19.0, 24.0], 7.0, 22.0),
        resting(4, ",Λ)", [32.0, 10.0, 48.0, 20.0], 10.0, 18.0),
        resting(5, "next", [10.0, 30.0, 50.0, 40.0], 10.0, 38.0),
    ]);
    assert_eq!(found[0].baseline.end.x, pt(48.0));
    assert_eq!(texts(&found), vec!["q0τf+1,Λ)", "next"]);
}

/// A nearby font-size difference cannot split an unrelated run into separate words.
#[test]
fn unrelated_small_font_run_is_not_split_into_words() {
    let parent = LineFragment::from_items(
        vec![item(0, "body", [0.0, 10.0, 20.0, 20.0], 10.0)],
        pt(200.0),
    )
    .expect("parent");
    let note = LineFragment::from_items(
        vec![
            item(1, "small ", [100.0, 10.0, 115.0, 17.0], 7.0),
            item(2, "note", [116.0, 10.0, 130.0, 17.0], 7.0),
        ],
        pt(200.0),
    )
    .expect("independent note");
    let output = LineFragment::attach_scripts(vec![parent, note], pt(200.0)).expect("scripts");
    assert_eq!(output.len(), 2);
    assert_eq!(output[1].items.len(), 2);
}

/// Unknown typography and equally plausible parents must leave script ownership unresolved.
#[test]
fn scripts_require_known_typography_and_an_unambiguous_parent() {
    let base = item(0, "body", [10.0, 10.0, 60.0, 20.0], 10.0);
    let script = item(1, "2", [32.0, 16.0, 36.0, 23.0], 7.0);
    let mut unknown = script.copy();
    unknown.style = None;
    assert_eq!(lines(vec![base, unknown]).len(), 2);
    let items = vec![
        item(0, "left", [10.0, 10.0, 60.0, 20.0], 10.0),
        script,
        item(2, "right", [11.0, 10.0, 61.0, 20.0], 10.0),
    ];
    let result = LineFragment::attach_scripts(singles(items, 100.0), pt(100.0)).expect("scripts");
    assert_eq!(
        result.len(),
        3,
        "equal candidates must not pick an arbitrary owner"
    );
}

/// Device-grid rounding cannot turn an otherwise valid baseline shift into an orphan.
#[test]
fn rounded_pdfium_origins_do_not_orphan_subscripts() {
    let sources = vec![
        resting(
            0,
            "w",
            [336.16, 125.375, 343.283, 134.222],
            9.962599754333496,
            132.28900146484375,
        ),
        resting(
            1,
            "2",
            [343.292, 128.978, 347.26, 135.136],
            6.973800182342529,
            133.7830047607422,
        ),
        resting(
            2,
            "or",
            [351.083, 125.425, 359.96, 134.222],
            9.962599754333496,
            132.28900146484375,
        ),
    ];
    let output = LineFragment::attach_scripts(singles(sources, 612.0), pt(612.0)).expect("scripts");
    assert_eq!(output.len(), 2);
    assert_eq!(text_of(&output[0].items), "w2");
}

/// A broad body fragment must not compete with the actual intermediate parent of a nested index.
#[test]
fn nested_index_uses_its_glyph_parent_instead_of_the_whole_body_box() {
    let items = vec![
        resting(0, "dmatch(", [220.043, 120.218, 255.223, 130.171], 9.9626, 127.690),
        resting(1, "r.t,", [255.233, 120.776, 268.563, 129.623], 9.9626, 127.690),
        resting(2, "q", [270.227, 120.776, 274.730, 129.623], 9.9626, 127.690),
        resting(3, "τ", [275.049, 118.422, 279.108, 124.615], 6.9738, 123.262),
        resting(4, "1", [278.723, 120.826, 282.110, 125.224], 4.9813, 124.258),
        resting(5, "0", [274.691, 125.541, 278.659, 131.699], 6.9738, 130.346),
        resting(6, ",Λ)", [283.109, 120.218, 302.926, 130.171], 9.9626, 127.690),
    ];
    for input in [copies(&items), reversed(&items)] {
        assert_eq!(texts(&lines(input)), ["dmatch(r.t,q0τ1,Λ)"]);
    }
}

/// A script cannot move a right-hand fragment ahead of its left-hand baseline peer.
#[test]
fn scripts_do_not_reorder_fragments_sharing_a_body_baseline() {
    let found = lines(vec![
        resting(0, "Proof.", [0.0, 10.0, 12.0, 20.0], 10.0, 18.0),
        resting(1, "(a) q", [40.0, 10.0, 65.0, 20.0], 10.0, 18.0),
        resting(2, "2", [65.0, 7.0, 69.0, 14.0], 7.0, 12.0),
        resting(3, "Next", [0.0, 30.0, 40.0, 40.0], 10.0, 38.0),
    ]);
    assert_eq!(texts(&found), vec!["Proof.", "(a) q2", "Next"]);
}

/// An ordinary postfix index belongs to the preceding base, not following punctuation.
#[test]
fn postfix_script_does_not_choose_following_text() {
    let items = vec![
        item(0, "q", [10.0, 10.0, 16.0, 20.0], 10.0),
        item(1, "2", [16.3, 7.0, 20.3, 14.0], 7.0),
        item(2, ")", [21.0, 10.0, 25.0, 20.0], 10.0),
    ];
    let output = LineFragment::attach_scripts(singles(items, 100.0), pt(100.0)).expect("scripts");
    assert_eq!(output.len(), 2);
    assert_eq!(text_of(&output[0].items), "q2");
    assert_eq!(text_of(&output[1].items), ")");
}

/// Groups oblique spans by their baseline instead of page top, preserving parallel lines.
#[test]
fn oblique_spans_use_local_text_coordinates() {
    for rotation in [45, 135, 225, 315] {
        let items = [
            (0, "SLANTED ", (10.0, 110.0), (40.0, 80.0)),
            (1, "TEXT", (45.0, 75.0), (75.0, 45.0)),
            (2, "OTHER", (30.0, 130.0), (60.0, 100.0)),
        ]
        .into_iter()
        .rev()
        .map(|(index, text, (x1, y1), (x2, y2))| {
            let (x1, y1, x2, y2): (f64, f64, f64, f64) = match rotation {
                45 => (x1, 140.0 - y1, x2, 140.0 - y2),
                135 => (y1, x1, y2, x2),
                225 => (140.0 - x1, y1, 140.0 - x2, y2),
                _ => (x1, y1, x2, y2),
            };
            let mut span = item(
                index,
                text,
                [
                    x1.min(x2) - 3.0,
                    y1.min(y2) - 3.0,
                    x1.max(x2) + 3.0,
                    y1.max(y2) + 3.0,
                ],
                10.0,
            );
            span.rotation = turned(f64::from(rotation));
            span.baseline = Some(line((x1, y1), (x2, y2)));
            span
        })
        .collect();
        let fragments = lines(items);
        assert_eq!(fragments.len(), 2);
        let found = fragments
            .iter()
            .find(|fragment| fragment.items.len() == 2)
            .expect("the two collinear spans must share a line");
        assert_eq!(text_of(&found.items), "SLANTED TEXT");
        assert_eq!(found.rotation.angle, rotation * 10_000);
        let delta_x = f64::from(found.baseline.end.x) - f64::from(found.baseline.start.x);
        let delta_y = f64::from(found.baseline.end.y) - f64::from(found.baseline.start.y);
        let actual = delta_y.atan2(delta_x).to_degrees().rem_euclid(360.0);
        assert!((actual - f64::from(rotation)).abs() < 1e-3);
    }
}

fn slanted(index: u32, rotation: f64, start: (f64, f64)) -> TextItem {
    let (sine, cosine) = rotation.to_radians().sin_cos();
    let end = (start.0 + cosine * 28.0, start.1 + sine * 28.0);
    let mut span = item(
        index,
        "word",
        [start.0 - 3.0, start.1 - 3.0, end.0 + 3.0, end.1 + 3.0],
        10.0,
    );
    span.rotation = turned(rotation);
    span.baseline = Some(line(start, end));
    span
}

/// Moving slightly differing spans together cannot change their line membership.
#[test]
fn oblique_grouping_is_translation_invariant() {
    for (shift_x, shift_y) in [(0.0, 0.0), (500.0, 500.0), (500.0, 0.0), (0.0, 500.0)] {
        let items = vec![
            slanted(0, 45.0, (10.0 + shift_x, 10.0 + shift_y)),
            slanted(1, 46.0, (35.0 + shift_x, 35.0 + shift_y)),
        ];
        for input in [copies(&items), reversed(&items)] {
            let groups = lines(input);
            assert_eq!(
                groups.len(),
                1,
                "translation by ({shift_x}, {shift_y}) changed grouping"
            );
            assert_eq!(groups[0].items.len(), 2);
        }
    }
}

/// Angle jitter must not place another parallel line between adjacent source spans.
#[test]
fn oblique_grouping_keeps_parallel_bands_with_angle_jitter() {
    let items = vec![
        slanted(0, 45.0, (510.0, 510.0)),
        slanted(1, 46.0, (535.0, 535.0)),
        slanted(2, 45.0, (510.0, 550.0)),
        slanted(3, 46.0, (535.0, 575.0)),
    ];
    let groups = lines(items);
    assert_eq!(groups.len(), 2);
    let found: Vec<_> = groups.iter().map(|group| ids(&group.items)).collect();
    assert_eq!(found, [vec!["p1:t0", "p1:t1"], vec!["p1:t2", "p1:t3"]]);
}

/// Sub-point jitter of heights does not put a right-hand run first.
#[test]
fn horizontal_band_groups_subpoint_jitter_before_x_ordering() {
    let fragments = lines(vec![
        item(
            0,
            "University of Illinois Urbana-Champaign,",
            [72.0, 136.992, 238.667, 145.142],
            8.9664,
        ),
        item(1, "USA", [241.958, 136.893, 260.814, 145.053], 8.9664),
    ]);
    assert_eq!(fragments.len(), 1);
    let found: Vec<_> = fragments[0]
        .items
        .iter()
        .map(|item| item.raw_text.to_text())
        .collect();
    assert_eq!(
        found,
        vec!["University of Illinois Urbana-Champaign,", "USA"]
    );
}

/// A modest column gutter does not become an inferred cross-column line.
#[test]
fn horizontal_band_preserves_twenty_point_column_gap() {
    let fragments = lines(vec![
        item(0, "left", [10.0, 10.0, 40.0, 20.0], 10.0),
        item(1, "right", [60.0, 10.0, 90.0, 20.0], 10.0),
    ]);
    assert_eq!(fragments.len(), 2);
}

/// An inflated em box cannot absorb a nearby line below it.
#[test]
fn horizontal_band_rejects_inflated_height_collision() {
    let fragments = lines(vec![
        item(0, "heading", [10.0, 435.6, 40.0, 450.5], 10.0),
        item(1, "body", [43.0, 442.0, 75.0, 497.6], 10.0),
    ]);
    assert_eq!(fragments.len(), 2);
}

/// Vertical clustering splits a large gap along the flow.
#[test]
fn vertical_band_splits_gap_beyond_three_item_heights() {
    let mut upper = item(0, "upper", [10.0, 10.0, 30.0, 20.0], 10.0);
    upper.rotation = turned(270.0);
    let mut lower = item(1, "lower", [10.0, 80.0, 30.0, 90.0], 10.0);
    lower.rotation = turned(270.0);
    assert_eq!(lines(vec![upper, lower]).len(), 2);
}

/// Line changes, rotations, and input permutations preserve unique ownership.
#[test]
fn grouping_preserves_every_text_item_once() {
    let mut rotated = item(3, "vertical", [400.0, 10.0, 410.0, 70.0], 10.0);
    rotated.rotation = turned(90.0);
    let fragments = lines(vec![
        item(2, "second", [10.0, 30.0, 50.0, 40.0], 10.0),
        rotated,
        item(0, "first", [10.0, 10.0, 40.0, 20.0], 10.0),
        item(1, "line", [43.0, 10.0, 65.0, 20.0], 10.0),
    ]);
    let count: usize = fragments.iter().map(|fragment| fragment.items.len()).sum();
    assert_eq!(count, 4);
    assert_eq!(
        fragments
            .iter()
            .find(|fragment| fragment.direction == WritingDirection::Vertical)
            .map(|fragment| fragment.items.len()),
        Some(1)
    );
}

/// Tight word boxes retain shallow, measured subscripts instead of moving all indices to the line end.
#[test]
fn tight_math_ink_preserves_shallow_subscript_ownership() {
    let found = lines(vec![
        resting(0, "x", [10.0, 6.45, 14.7, 10.0], 8.0, 10.0),
        resting(1, "1", [15.3, 7.15, 17.6, 11.12], 6.0, 11.12),
        resting(2, "+", [21.0, 5.18, 26.6, 10.82], 8.0, 10.0),
        resting(3, "x", [30.0, 6.45, 34.7, 10.0], 8.0, 10.0),
        resting(4, "2", [35.3, 7.15, 38.1, 11.12], 6.0, 11.12),
    ]);
    assert_eq!(texts(&found), ["x1+x2"]);
}

/// An isolated note or equally plausible operators must not fabricate a limit group.
#[test]
fn detached_limits_require_both_sides_and_unique_ownership() {
    let sources = vec![
        resting(0, "+", [10.0, 10.0, 18.0, 20.0], 10.0, 18.0),
        resting(1, "X", [20.0, 8.0, 34.0, 22.0], 9.5, 8.0),
        resting(2, "N", [24.0, 1.0, 30.0, 7.0], 7.0, 6.0),
        resting(3, "i=1", [20.2, 24.0, 34.0, 30.2], 7.0, 29.0),
    ];
    for ambiguous in [false, true] {
        let mut input = copies(&sources);
        if ambiguous {
            let mut duplicate = input[1].copy();
            duplicate.id = TextItemId::native(1, 4);
            input.push(duplicate);
        } else {
            input.pop();
        }
        let found = ruled(input, Vec::new());
        let upper = found
            .iter()
            .find(|line| line.items.iter().any(|item| item.raw_text.to_text() == "N"))
            .expect("unclaimed upper note");
        assert_eq!(text_of(&upper.items), "N");
    }
}

/// An operator-bearing multi-piece index remains attached as a whole before following body text.
#[test]
fn compound_math_index_stays_before_following_body() {
    let found = lines(vec![
        resting(0, "R", [10.0, 10.0, 16.0, 18.0], 8.0, 18.0),
        resting(1, "Θ", [16.5, 13.2, 21.0, 18.5], 6.0, 19.3),
        resting(2, ",", [22.0, 17.0, 23.0, 19.5], 6.0, 19.3),
        resting(3, "i", [24.0, 13.2, 26.0, 19.5], 6.0, 19.3),
        resting(4, "−", [27.0, 16.0, 31.0, 16.3], 6.0, 19.3),
        resting(5, "j", [32.0, 13.2, 35.0, 19.5], 6.0, 19.3),
        resting(6, "x", [36.0, 12.4, 41.0, 18.0], 8.0, 18.0),
    ]);
    assert_eq!(texts(&found), ["RΘ,i−jx"]);
}

/// Equally plausible neighboring rows cannot move a hanging glyph into either equation.
#[test]
fn ambiguous_hanging_glyph_keeps_its_original_line() {
    let sources = vec![
        resting(0, "A", [0.0, 5.0, 8.0, 15.0], 10.0, 13.0),
        resting(1, "Q", [10.0, 8.0, 15.0, 24.0], 10.0, 8.0),
        resting(2, "B", [17.0, 17.0, 25.0, 27.0], 10.0, 25.0),
    ];
    for input in [copies(&sources), reversed(&sources)] {
        assert_eq!(texts(&ruled(input, Vec::new())), ["Q", "A", "B"]);
    }
}

/// A horizontal rule alone cannot collapse ordinary stacked text into an inline fraction.
#[test]
fn separated_text_rows_do_not_become_fractions() {
    let found = ruled(
        vec![
            resting(0, "first", [10.0, 5.0, 30.0, 12.0], 8.0, 12.0),
            resting(1, "second", [10.0, 18.0, 30.0, 25.0], 8.0, 25.0),
        ],
        vec![TableRule::Horizontal { y: pt(15.0), left: pt(10.0), right: pt(30.0) }],
    );
    assert_eq!(texts(&found), ["first", "second"]);
}

/// Joining already ordered fragments preserves right-to-left flow across a physical line.
#[test]
fn joining_fragments_preserves_right_to_left_order() {
    let fragments = singles(
        vec![
            item(0, "עולם", [10.0, 10.0, 30.0, 20.0], 10.0),
            item(1, "שלום", [40.0, 10.0, 60.0, 20.0], 10.0),
        ],
        100.0,
    );
    let found = join_script_gaps(
        fragments,
        pt(100.0),
        FusionConfig::default().font_tolerance(),
    )
    .expect("body line");
    assert_eq!(texts(&found), ["שלוםעולם"]);
}

/// A run whose box was taken its extent.
fn flat(index: u32, text: &str, bounds: [f64; 4], width: bool) -> TextItem {
    let mut made = item(index, text, bounds, 10.0);
    if width {
        made.bbox.right = made.bbox.left;
    } else {
        made.bbox.bottom = made.bbox.top - 1;
    }
    made
}

/// A run without an area makes no fragment, whether it is upright or not.
#[test]
fn runs_without_area_are_refused() {
    assert_eq!(
        LineFragment::from_items(Vec::new(), pt(100.0)).err(),
        Some(LineError::EmptyFragment)
    );
    assert_eq!(
        LineMetrics::from_items(&Vec::new(), pt(100.0)).err(),
        Some(LineError::EmptyFragment)
    );
    for (width, error) in [
        (true, LineError::Geometry(GeometryError::EmptyWidth)),
        (false, LineError::Geometry(GeometryError::EmptyHeight)),
    ] {
        let made = || flat(0, "A", [10.0, 10.0, 20.0, 20.0], width);
        assert_eq!(LineMetrics::from_items(&vec![made()], pt(100.0)).err(), Some(error));
        assert_eq!(LineFragment::from_items(vec![made()], pt(100.0)).err(), Some(error));
        assert_eq!(
            LineFragment::from_ordered_items(vec![made()], pt(100.0)).err(),
            Some(error)
        );
        let config = FusionConfig::default();
        assert_eq!(
            ConservativeLineAssembler.fragments(vec![made()], &config).err(),
            Some(error)
        );
        assert_eq!(
            ConservativeLineAssembler
                .fragments_with_formulas(
                    vec![item(1, "x", [30.0, 10.0, 35.0, 20.0], 10.0), made()],
                    &config,
                    &Vec::new(),
                    &vec![FormulaRegion { bbox: bbox([0.0, 0.0, 5.0, 5.0]), inline: true }],
                )
                .err(),
            Some(error)
        );
    }
}

/// The joint box of a line grows, so a run without an extent behind one that has an extent does
/// no harm.
#[test]
fn joint_boxes_only_grow() {
    let items = vec![
        item(0, "A", [10.0, 10.0, 20.0, 20.0], 10.0),
        flat(1, "B", [22.0, 10.0, 30.0, 20.0], true),
    ];
    let made = LineFragment::from_ordered_items(items, pt(100.0)).expect("one line");
    assert_eq!(made.bbox, bbox([10.0, 10.0, 22.0, 20.0]));
}

/// A side of a fraction that holds a run without an extent is refused.
#[test]
fn fractions_of_flat_runs_are_refused() {
    let mut flat = resting(1, "a", [31.0, 7.5, 36.0, 13.0], 7.0, 13.0);
    flat.bbox.right = flat.bbox.left;
    let sources = vec![
        resting(0, "y=", [10.0, 10.0, 28.0, 20.0], 10.0, 18.0),
        flat,
        resting(2, "b", [31.0, 16.5, 36.0, 22.0], 7.0, 22.0),
    ];
    let rules = vec![TableRule::Horizontal { y: pt(15.0), left: pt(30.0), right: pt(37.0) }];
    assert_eq!(
        InlineInput::prepare(sources, &rules, false).err(),
        Some(LineError::Geometry(GeometryError::EmptyWidth))
    );
}

/// Texts of the fragments of runs with their scripts.
fn attached(specs: &[(&str, [f64; 4], f64, f64)]) -> Vec<String> {
    let items = specs
        .iter()
        .enumerate()
        .map(|(index, (text, bounds, size, y))| {
            resting(index as u32, text, *bounds, *size, *y)
        })
        .collect();
    texts(&LineFragment::attach_scripts(singles(items, 100.0), pt(100.0)).expect("scripts"))
}

/// Only an index of several pieces with an operator among them may be long; a word with a hyphen
/// is no such index.
#[test]
fn lone_words_with_hyphens_are_no_indices() {
    let base = ("R", [10.0, 10.0, 16.0, 18.0], 8.0, 18.0);
    let word = ("co-op", [16.5, 13.2, 29.0, 18.5], 6.0, 19.3);
    assert_eq!(attached(&[base, word]), ["R", "co-op"]);
    let short = ("a-b", [16.5, 13.2, 29.0, 18.5], 6.0, 19.3);
    assert_eq!(attached(&[base, short]), ["Ra-b"]);
    let pieces = [
        base,
        ("ij", [16.5, 13.2, 21.0, 18.5], 6.0, 19.3),
        ("-", [22.0, 16.0, 24.0, 16.3], 6.0, 19.3),
        ("kl", [25.0, 13.2, 30.0, 18.5], 6.0, 19.3),
    ];
    assert_eq!(attached(&pieces), ["Rij-kl"]);
    let joined = [
        base,
        ("ij", [16.5, 13.2, 21.0, 18.5], 6.0, 19.3),
        ("k-l", [22.0, 13.2, 30.0, 18.5], 6.0, 19.3),
    ];
    assert_eq!(attached(&joined).len(), 2);
}

/// The lines of runs beside a fraction bar own every run once, the fraction as one atom.
#[test]
fn fractions_keep_their_source_facts() {
    let sources = vec![
        resting(0, "y=", [10.0, 10.0, 28.0, 20.0], 10.0, 18.0),
        resting(1, "a", [31.0, 7.5, 36.0, 13.0], 7.0, 13.0),
        resting(2, "b", [31.0, 16.5, 36.0, 22.0], 7.0, 22.0),
        resting(3, "+c", [40.0, 10.0, 56.0, 20.0], 10.0, 18.0),
    ];
    let rules = vec![TableRule::Horizontal { y: pt(15.0), left: pt(30.0), right: pt(37.0) }];
    let found = ruled(copies(&sources), rules);
    assert_eq!(texts(&found), ["y=ab+c"]);
    let mut kept: Vec<String> = found
        .iter()
        .flat_map(|line| line.items.iter().map(shown))
        .collect();
    kept.sort();
    let mut given: Vec<String> = sources.iter().map(shown).collect();
    given.sort();
    assert_eq!(kept, given);
}

/// Line assembly forgets the order in which runs come.
#[test]
fn arrival_order_does_not_matter() {
    let items = vec![
        item(0, "one", [10.0, 10.0, 40.0, 20.0], 10.0),
        item(1, "two", [43.0, 10.0, 75.0, 20.0], 10.0),
        item(2, "three", [10.0, 30.0, 75.0, 40.0], 10.0),
    ];
    assert_eq!(shown(&lines(copies(&items))), shown(&lines(reversed(&items))));
}

/// Whatever fragments the prepared runs are put into, restoring gives back every source fact.
#[test]
fn restoring_gives_back_source_facts() {
    let sources = vec![
        resting(0, "y=", [10.0, 10.0, 28.0, 20.0], 10.0, 18.0),
        resting(1, "a", [31.0, 7.5, 36.0, 13.0], 7.0, 13.0),
        resting(2, "b", [31.0, 16.5, 36.0, 22.0], 7.0, 22.0),
        resting(3, "+c", [40.0, 10.0, 56.0, 20.0], 10.0, 18.0),
    ];
    let rules = vec![TableRule::Horizontal { y: pt(15.0), left: pt(30.0), right: pt(37.0) }];
    let prepared = InlineInput::prepare(copies(&sources), &rules, false).expect("inline input");
    assert!(prepared.items.len() < sources.len());
    let fragments = prepared
        .items
        .iter()
        .rev()
        .map(|item| LineFragment::from_items(vec![item.copy()], pt(100.0)).expect("one run"))
        .collect();
    let mut kept: Vec<String> = restore(prepared.originals, fragments)
        .iter()
        .flat_map(|line| line.items.iter().map(shown))
        .collect();
    kept.sort();
    let mut given: Vec<String> = sources.iter().map(shown).collect();
    given.sort();
    assert_eq!(kept, given);
}
