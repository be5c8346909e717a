use docparse_core::error::ExtractError;
use docparse_core::extract::glyph::{
    mapped_text, Decoding, FontFacts, FontTrust, GlyphCandidates, GlyphNormalizer, GlyphRecord,
    ResolvedGlyph,
};
use docparse_core::extract::metadata::{ExtractedPage, PageProbe};
use docparse_core::extract::page_text::{extract_page_text_items, PageChar, PageLink};
use docparse_core::extract::text::{SegmentBuilder, TextCharFact, TextItemDraft, Typography};
use docparse_core::geometry::{Bbox, Point};
use docparse_core::rope::Rope;
use docparse_core::text_rules::{CodeRange, Ligature, TextRules};
use docparse_core::types::{
    Color, RepairAction, Rotation, TextItem, TextItemId, TextMatrix, UnicodeMappingStatus,
};
use std::sync::Arc;

fn pt(length: f64) -> i32 {
    (length * 10_000.0).round() as i32
}

fn bbox(value: [f64; 4]) -> Bbox {
    Bbox::new(pt(value[0]), pt(value[1]), pt(value[2]), pt(value[3])).expect("valid box")
}

fn turned(angle: f64) -> Rotation {
    let (sine, cosine) = angle.to_radians().sin_cos();
    Rotation {
        angle: (angle * 10_000.0).round() as i32,
        cosine: (cosine * 1e9).round() as i32,
        sine: (sine * 1e9).round() as i32,
    }
}

/// One character fact with a glyph box.
fn fact_in(character: char, bounds: [f64; 4]) -> TextCharFact {
    let mut typography = Typography::unknown();
    typography.font_size = Some(pt(10.0));
    TextCharFact {
        character,
        tail: String::new(),
        repair_actions: Arc::new(Vec::new()),
        bbox: bbox(bounds),
        loose_bbox: bbox(bounds),
        origin: None,
        char_code: u32::from(character),
        generated: false,
        unicode_map_error: false,
        explicit_break: false,
        typography,
    }
}

/// One character fact with a five-point glyph box.
fn fact(character: char, x: f64, y: f64) -> TextCharFact {
    fact_in(character, [x, y, x + 5.0, y + 10.0])
}

/// Pushes facts and returns all final drafts.
fn build(facts: Vec<TextCharFact>) -> Vec<TextItemDraft> {
    let mut builder = SegmentBuilder::new(1);
    for fact in facts {
        builder.push(fact).expect("test facts must be accepted");
    }
    builder.finish().expect("test segments must finish")
}

fn texts(items: &[TextItemDraft]) -> Vec<&str> {
    items.iter().map(|item| item.raw_text.as_str()).collect()
}

/// Explicit newlines and vertical jumps end the current segment.
#[test]
fn explicit_and_geometric_line_breaks_split_segments() {
    let mut newline = fact('\n', 10.0, 0.0);
    newline.explicit_break = true;
    let items = build(vec![
        fact('A', 0.0, 0.0),
        newline,
        fact('B', 0.0, 0.0),
        fact('C', 5.0, 25.0),
    ]);
    assert_eq!(texts(&items), vec!["A", "B", "C"]);
}

/// Backtracking, large gaps, rotations, and style changes split segments.
#[test]
fn discontinuities_split_segments() {
    let mut rotated = fact('D', 30.0, 0.0);
    rotated.typography.rotation = turned(90.0);
    let mut styled = fact('E', 35.0, 0.0);
    styled.typography.rotation = turned(90.0);
    styled.typography.font_flags = Some(32);
    let items = build(vec![
        fact('A', 20.0, 0.0),
        fact('B', 0.0, 0.0),
        fact('C', 25.0, 0.0),
        rotated,
        styled,
    ]);
    assert_eq!(texts(&items), vec!["A", "B", "C", "D", "E"]);
}

/// A visual glyph gap never invents a source-space character.
#[test]
fn visual_gap_does_not_invent_source_space() {
    let items = build(vec![fact('A', 0.0, 0.0), fact('B', 9.0, 0.0)]);
    assert_eq!(items[0].raw_text, "AB");
    assert!(items[0].repair_actions.is_empty());
}

fn slanted(character: char, bounds: [f64; 4], origin: (f64, f64)) -> TextCharFact {
    let mut made = fact_in(character, bounds);
    made.typography.rotation = turned(315.0);
    made.typography.font_size = Some(pt(48.0));
    made.origin = Some(Point::new(pt(origin.0), pt(origin.1)));
    made
}

/// Slanted glyphs stay on their measured baseline despite changes in page-axis box tops.
#[test]
fn oblique_glyphs_follow_the_text_axis() {
    let first = slanted('A', [8.435, 645.337, 55.410, 692.312], (32.737, 692.312));
    let next = || slanted('C', [32.364, 621.782, 78.931, 668.349], (55.376, 669.673));
    let items = build(vec![first, next()]);
    assert_eq!(items.len(), 1);
    assert_eq!(items[0].raw_text, "AC");
    assert_eq!(items[0].typography.rotation.angle, 3_150_000);
    let baseline = items[0].baseline.expect("measured oblique baseline");
    assert!(baseline.end.x > baseline.start.x);
    assert!(baseline.end.y < baseline.start.y);
    // Parallel baselines stay separate even when their rotated page boxes overlap.
    let shift = 30.0 / 2.0_f64.sqrt();
    let parallel = slanted(
        'C',
        [32.364 + shift, 621.782 + shift, 78.931 + shift, 668.349 + shift],
        (55.376 + shift, 669.673 + shift),
    );
    assert_eq!(build(vec![next(), parallel]).len(), 2);
}

/// Source spaces and dot leaders remain literal extraction facts.
#[test]
fn source_spaces_and_dot_leaders_are_preserved() {
    let items = build(vec![
        fact('A', 0.0, 0.0),
        fact(' ', 5.0, 0.0),
        fact('.', 10.0, 0.0),
        fact('.', 15.0, 0.0),
        fact('2', 20.0, 0.0),
    ]);
    assert_eq!(items[0].raw_text, "A ..2");
    assert!(items[0].repair_actions.is_empty());
}

/// A source space survives when the next visible glyph changes style.
#[test]
fn source_space_survives_segment_boundary() {
    let mut source_space = fact(' ', 5.0, 0.0);
    source_space.char_code = 32;
    let mut styled = fact('B', 9.0, 0.0);
    styled.typography.font_flags = Some(1);
    let items = build(vec![fact('A', 0.0, 0.0), source_space, styled]);
    assert_eq!(texts(&items), vec!["A ", "B"]);
}

/// A subset-font SOH glyph is decoded as source whitespace.
#[test]
fn subset_font_space_control_is_restored() {
    let items = build(vec![
        fact('A', 0.0, 0.0),
        fact('\u{0001}', 5.0, 0.0),
        fact('B', 10.0, 0.0),
    ]);
    assert_eq!(items[0].raw_text, "A B");
    assert_eq!(items[0].char_codes, vec![u32::from('A'), 0x01, u32::from('B')]);
    assert!(items[0].repair_actions.is_empty());
}

/// A subset-font STX glyph remains a positionally isolated hyphen fact.
#[test]
fn subset_font_hyphen_control_is_restored() {
    let items = build(vec![
        fact('A', 0.0, 0.0),
        fact('\u{0002}', 5.0, 0.0),
        fact('b', 10.0, 0.0),
    ]);
    assert_eq!(texts(&items), vec!["A", "-", "b"]);
    assert_eq!(items[1].char_codes, vec![0x02]);
    assert_eq!(items[1].repair_actions, vec![RepairAction::EncodedHyphen]);
}

/// Mapping failures remain metadata rather than replacement characters.
#[test]
fn unicode_mapping_failure_is_retained() {
    let mut failed = fact('?', 0.0, 0.0);
    failed.unicode_map_error = true;
    let items = build(vec![failed]);
    assert_eq!(items[0].unicode_mapping, UnicodeMappingStatus::Missing);
    assert_eq!(items[0].raw_text, "?");
}

/// One richly annotated character fact.
fn annotated(character: char, x: f64, font_size: f64) -> TextCharFact {
    let mut made = fact_in(character, [x, 10.0, x + 5.0, 20.0]);
    made.typography.font_name = Some("FixtureFont".to_owned());
    made.typography.font_size = Some(pt(font_size));
    made.typography.font_height = Some(pt(font_size * 1.1));
    made.typography.font_ascent = Some(pt(font_size * 0.8));
    made.typography.font_descent = Some(pt(-font_size * 0.2));
    made.typography.font_weight = Some(700);
    made.typography.font_flags = Some(32);
    made.typography.text_matrix =
        Some(TextMatrix { a: 1, b: 0, c: 0, d: 1, e: i64::from(pt(x)), f: i64::from(pt(10.0)) });
    made.typography.fill_color = Some(Color { red: 10, green: 20, blue: 30, alpha: 255 });
    made.typography.stroke_color = Some(Color { red: 40, green: 50, blue: 60, alpha: 255 });
    made.typography.mcid = Some(7);
    made.typography.text_object_index = Some(3);
    made.typography.link = Some("https://example.com".to_owned());
    made.typography.strike = true;
    made
}

/// Item metadata is aggregated without leaking temporary identities.
#[test]
fn metadata_aggregation_preserves_stable_facts() {
    let drafts = build(vec![annotated('A', 0.0, 10.0), annotated('B', 5.0, 14.0)]);
    assert_eq!(drafts.len(), 1);
    let item = drafts[0].to_item();
    assert_eq!(item.id.as_str(), "p1:t0");
    assert_eq!(item.raw_text.to_text(), "AB");
    assert_eq!(item.raw_bbox, Some(bbox([0.0, 10.0, 10.0, 20.0])));
    assert_eq!(item.bbox, bbox([0.0, 10.0, 10.0, 20.0]));
    assert_eq!((item.extraction_order, item.final_order), (0, 0));
    let style = item.style.expect("style metadata must exist");
    let provenance = item.provenance.expect("PDF provenance must exist");
    assert_eq!(style.font_name.as_deref(), Some("FixtureFont"));
    assert_eq!(style.font_size, Some(pt(12.0)));
    assert_eq!(style.font_height, Some(pt(13.2)));
    assert_eq!(style.font_ascent, Some(pt(9.6)));
    assert_eq!(style.font_descent, Some(pt(-2.4)));
    assert_eq!(style.weight, Some(700));
    assert_eq!(style.flags, Some(32));
    assert_eq!(
        style.fill_color,
        Some(Color { red: 10, green: 20, blue: 30, alpha: 255 })
    );
    assert_eq!(
        style.stroke_color,
        Some(Color { red: 40, green: 50, blue: 60, alpha: 255 })
    );
    assert_eq!(provenance.char_codes, vec![65, 66]);
    assert_eq!(provenance.mcid, Some(7));
    assert_eq!(provenance.text_object_index, Some(3));
    assert_eq!(provenance.unicode_mapping, UnicodeMappingStatus::Complete);
    assert_eq!(provenance.link.as_deref(), Some("https://example.com"));
    assert!(provenance.strike);
}

/// A probe contains only lightweight deterministic document signals.
#[test]
fn extracted_page_converts_to_lightweight_probe() {
    let mut builder = SegmentBuilder::new(2);
    builder.push(annotated('A', 0.0, 10.0)).expect("fact must push");
    let item = builder.finish().expect("segment must finish")[0].to_item();
    let punctuation = TextItem::new(
        TextItemId::native(2, 1),
        Rope::new("-".to_owned()),
        bbox([0.0, 700.0, 5.0, 710.0]),
    );
    let page = ExtractedPage {
        page_number: 2,
        width: pt(612.0),
        height: pt(792.0),
        rotation: 0,
        content_bounds: None,
        text_items: vec![item, punctuation],
    };
    let probe = PageProbe::new(&page);
    assert_eq!(probe.page_number, 2);
    assert_eq!(probe.font_size_histogram.get(&100), Some(&1));
    assert_eq!(probe.top_fingerprints, vec!["a"]);
    assert!(probe.bottom_fingerprints.is_empty());
}

fn page_char(character: char, x: f64) -> PageChar {
    let mut typography = Typography::unknown();
    typography.font_size = Some(pt(10.0));
    PageChar {
        unicode: u32::from(character),
        tail: String::new(),
        repair_actions: Arc::new(Vec::new()),
        char_code: u32::from(character),
        generated: false,
        unicode_map_error: false,
        strict: Some(bbox([x, 0.0, x + 5.0, 10.0])),
        loose: Some(bbox([x, 0.0, x + 5.0, 10.0])),
        origin: None,
        text_object: Some(9),
        typography,
    }
}

fn shown(items: &[TextItem]) -> Vec<String> {
    items.iter().map(|item| item.raw_text.to_text()).collect()
}

/// Page characters become runs with their text object and the link over them.
#[test]
fn page_characters_become_text_facts() {
    let chars = vec![page_char('A', 0.0), page_char('B', 5.0)];
    let links = vec![PageLink {
        rect: bbox([0.0, 0.0, 20.0, 20.0]),
        uri: "https://example.com".to_owned(),
    }];
    let items = extract_page_text_items(&chars, &vec![4, 9], &links, 3).expect("text");
    assert_eq!(shown(&items), vec!["AB"]);
    assert_eq!(items[0].id.as_str(), "p3:t0");
    let provenance = items[0].provenance.as_ref().expect("provenance");
    assert_eq!(provenance.text_object_index, Some(1));
    assert_eq!(provenance.link.as_deref(), Some("https://example.com"));
    let again = extract_page_text_items(&chars, &vec![4, 9], &links, 3).expect("text");
    assert_eq!(format!("{items:?}"), format!("{again:?}"));
}

/// A visible character without a box cannot be placed.
#[test]
fn characters_without_geometry_are_refused() {
    let mut lost = page_char('A', 0.0);
    lost.strict = None;
    lost.loose = None;
    match extract_page_text_items(&vec![lost], &Vec::new(), &Vec::new(), 1) {
        Err(ExtractError::ExtractionIndexOverflow) => panic!("one character is no overflow"),
        Err(error) => assert!(!error.message().is_empty()),
        Ok(_) => panic!("the character has no place"),
    }
}

fn rules() -> TextRules {
    TextRules {
        punctuation: vec![('—', '-')],
        ligatures: vec![
            Ligature { character: 'ﬁ', letters: vec!['f', 'i'] },
            Ligature { character: 'ﬃ', letters: vec!['f', 'f', 'i'] },
        ],
        suspicious: vec![
            CodeRange { first: 0, last: 0x1F },
            CodeRange { first: 0xFFFD, last: 0xFFFD },
        ],
    }
}

/// Every source uses one normalization policy, including ligatures after the first character.
#[test]
fn normalization_is_independent_of_recovery_source() {
    for repair in [
        None,
        Some(RepairAction::GlyphNameRecovery),
        Some(RepairAction::FontCmapRecovery),
        Some(RepairAction::GlyphOutlineRecovery),
    ] {
        for (character, tail, expected) in
            [('ﬁ', "", "fi"), ('f', "i", "fi"), ('x', "ﬃ—", "xffi-")]
        {
            let glyph = ResolvedGlyph {
                character,
                tail: tail.to_owned(),
                repair_actions: repair.into_iter().collect(),
                font: None,
            }
            .normalize(&rules());
            assert_eq!(format!("{}{}", glyph.character, glyph.tail), expected);
            assert_eq!(
                glyph
                    .repair_actions
                    .iter()
                    .filter(|action| **action == RepairAction::LigatureExpansion)
                    .count(),
                1
            );
            if let Some(action) = repair {
                assert_eq!(glyph.repair_actions[0], action);
            }
            assert_eq!(
                glyph.repair_actions.contains(&RepairAction::PunctuationNormalization),
                expected.ends_with('-')
            );
            let mut whole: Vec<RepairAction> = repair.into_iter().collect();
            whole.push(RepairAction::LigatureExpansion);
            if expected.ends_with('-') {
                whole.push(RepairAction::PunctuationNormalization);
            }
            assert_eq!(glyph.repair_actions, whole);
        }
    }
    let plain = ResolvedGlyph::of('x').normalize(&rules());
    assert_eq!((plain.character, plain.tail.as_str()), ('x', ""));
    assert!(plain.repair_actions.is_empty());
}

fn record(unicode: u32) -> GlyphRecord {
    GlyphRecord {
        unicode,
        code: 1,
        generated: false,
        map_error: false,
        painted: true,
        font: Some(0),
        object: Some(1),
    }
}

fn candidates(
    name: Option<Option<&str>>,
    cmap: Option<Option<&str>>,
    outline: Option<Option<&str>>,
) -> GlyphCandidates {
    let owned = |text: Option<Option<&str>>| text.map(|text| text.map(str::to_owned));
    GlyphCandidates { name: owned(name), cmap: owned(cmap), outline: owned(outline) }
}

/// A valid and a suspicious record sharing one source code do not decide for each other.
#[test]
fn font_cache_does_not_cache_occurrence_policy() {
    let trust = FontTrust { untrusted: false, encoding_lies: false };
    let known = candidates(Some(Some("ﬁ")), None, None);
    for order in [[0x66, 0xFFFD], [0xFFFD, 0x66]] {
        for unicode in order {
            match (unicode, trust.decode(&rules(), &record(unicode), &known, false)) {
                (0x66, Decoding::Keep) => {}
                (0xFFFD, Decoding::Found { text, action }) => {
                    assert_eq!(text, "ﬁ");
                    assert_eq!(action, RepairAction::GlyphNameRecovery);
                }
                (_, other) => panic!("the record alone decides: {other:?}"),
            }
        }
    }
}

/// An outline remains usable when font names and character map are untrustworthy.
#[test]
fn outline_fallback_uses_real_font_paths() {
    let trust = FontTrust { untrusted: true, encoding_lies: true };
    let known = candidates(None, Some(None), Some(Some("✓")));
    match trust.decode(&rules(), &record(0x41), &known, true) {
        Decoding::Found { text, action } => {
            assert_eq!(text, "✓");
            assert_eq!(action, RepairAction::GlyphOutlineRecovery);
        }
        other => panic!("the outline is known: {other:?}"),
    }
    let asked = candidates(None, None, None);
    assert!(matches!(
        trust.decode(&rules(), &record(0x41), &asked, true),
        Decoding::NeedCmap
    ));
}

/// A character of a page that was drawn in a box.
fn drawn(character: char, code: u32, bounds: [f64; 4]) -> PageChar {
    let mut made = page_char(character, 0.0);
    made.char_code = code;
    made.strict = Some(bbox(bounds));
    made.loose = Some(bbox(bounds));
    made
}

/// A character whose glyph was recovered by its name.
fn recovered(text: char, code: u32, bounds: [f64; 4]) -> PageChar {
    let mut made = drawn(char::from_u32(code).expect("a character"), code, bounds);
    made.unicode_map_error = true;
    made.with_glyph(ResolvedGlyph {
        character: text,
        tail: String::new(),
        repair_actions: vec![RepairAction::GlyphNameRecovery],
        font: Some(0),
    })
}

/// Recovered glyphs stay visible, a half circle over a circle makes one character with the codes
/// of both, and ordinary text stays as it was written.
#[test]
fn symbol_glyph_names_preserve_visible_spaces_and_overlays() {
    let circle = [10.0, 10.0, 20.0, 20.0];
    let half = [10.0, 10.0, 15.0, 20.0];
    for pair in [
        [recovered('◖', 71, half), recovered('○', 35, circle)],
        [recovered('○', 35, circle), recovered('◖', 71, half)],
    ] {
        let chars: Vec<PageChar> = pair.into_iter().collect();
        let items =
            extract_page_text_items(&chars, &Vec::new(), &Vec::new(), 1).expect("native text");
        assert_eq!(shown(&items), vec!["◐"]);
        let codes = &items[0].provenance.as_ref().expect("native provenance").char_codes;
        assert!(codes.contains(&71) && codes.contains(&35));
        assert!(items[0].repair_actions.contains(&RepairAction::GlyphNameRecovery));
    }
    let apart = vec![
        recovered('◖', 71, half),
        recovered('○', 35, [60.0, 10.0, 70.0, 20.0]),
    ];
    let items = extract_page_text_items(&apart, &Vec::new(), &Vec::new(), 1).expect("native text");
    assert_eq!(shown(&items), vec!["◖", "○"]);
    let disc = vec![recovered('●', 32, circle)];
    let items = extract_page_text_items(&disc, &Vec::new(), &Vec::new(), 1).expect("native text");
    assert_eq!(shown(&items), vec!["●"]);
    assert_eq!(*items[0].repair_actions, vec![RepairAction::GlyphNameRecovery]);
    let provenance = items[0].provenance.as_ref().expect("provenance");
    assert_eq!(provenance.char_codes, vec![32]);
    assert_eq!(provenance.unicode_mapping, UnicodeMappingStatus::Complete);
    let text: Vec<PageChar> = "G # A B"
        .chars()
        .enumerate()
        .map(|(i, c)| page_char(c, 5.0 * i as f64))
        .collect();
    let items = extract_page_text_items(&text, &Vec::new(), &Vec::new(), 1).expect("native text");
    assert_eq!(shown(&items), vec!["G # A B"]);
    assert!(items[0].repair_actions.is_empty());
    let (half, circle) = (bbox(half), bbox(circle));
    assert_eq!(GlyphNormalizer::compose('◖', &half, '○', &circle), Some('◐'));
    assert_eq!(GlyphNormalizer::compose('○', &circle, '◖', &half), Some('◐'));
    let aside = bbox([30.0, 10.0, 40.0, 20.0]);
    assert_eq!(GlyphNormalizer::compose('◖', &half, '○', &aside), None);
    assert_eq!(GlyphNormalizer::compose('G', &half, '#', &circle), None);
}

/// A glyph that was resolved to several characters is extracted whole, with its repairs.
#[test]
fn resolved_glyphs_are_extracted_whole() {
    let ligature = page_char('\u{FFFD}', 5.0).with_glyph(
        ResolvedGlyph {
            character: 'ﬁ',
            tail: String::new(),
            repair_actions: vec![RepairAction::FontCmapRecovery],
            font: Some(2),
        }
        .normalize(&rules()),
    );
    let chars = vec![page_char('o', 0.0), ligature, page_char('x', 10.0)];
    let items = extract_page_text_items(&chars, &Vec::new(), &Vec::new(), 1).expect("native text");
    assert_eq!(shown(&items), vec!["ofix"]);
    assert_eq!(
        *items[0].repair_actions,
        vec![RepairAction::FontCmapRecovery, RepairAction::LigatureExpansion]
    );
    assert_eq!(
        items[0].provenance.as_ref().expect("provenance").char_codes,
        vec![u32::from('o'), 0xFFFD, u32::from('x')]
    );
}

#[test]
fn fonts_without_a_mapping_are_not_trusted_blindly() {
    let plain = FontFacts {
        embedded: true,
        base_name: Some("ABCDEF+Fixture".to_owned()),
        type1: false,
        encoding: Some("WinAnsiEncoding".to_owned()),
        has_to_unicode: true,
    };
    assert!(FontTrust::new(&plain, true).untrusted);
    assert!(!FontTrust::new(&plain, false).untrusted);
}

#[test]
fn character_maps_give_scalar_values_only() {
    let map = std::collections::HashMap::from([(7, 0x3A9), (8, 0xD800)]);
    assert_eq!(mapped_text(&map, 7).as_deref(), Some("Ω"));
    assert_eq!(mapped_text(&map, 8), None);
    assert_eq!(mapped_text(&map, 9), None);
}

/// Glyphs are resolved by their occurrence; recovered text is noted.
#[test]
fn recovered_glyphs_are_normalized() {
    let records = vec![record(0xFFFD), record(0x42)];
    let mut normalizer = GlyphNormalizer::new(&rules(), &records);
    let found = Some(("ﬁ".to_owned(), RepairAction::GlyphNameRecovery));
    let glyph = normalizer.resolve(&rules(), &records, 0, found).expect("a visible glyph");
    assert_eq!(format!("{}{}", glyph.character, glyph.tail), "fi");
    assert_eq!(
        glyph.repair_actions,
        vec![RepairAction::GlyphNameRecovery, RepairAction::LigatureExpansion]
    );
    assert_eq!(glyph.font, Some(0));
    let kept = normalizer.resolve(&rules(), &records, 1, None).expect("a visible glyph");
    assert_eq!(kept.character, 'B');
    assert!(kept.repair_actions.is_empty());
}

/// The text of a page shows the characters it was read from, in runs that are numbered from zero
/// on and not empty.
#[test]
fn page_text_is_what_its_characters_show() {
    let mut chars: Vec<PageChar> = "one two".chars().enumerate().map(|(i, c)| page_char(c, 5.0 * i as f64)).collect();
    chars.push(page_char('x', 200.0));
    chars.push(page_char('\n', 205.0));
    chars.push(page_char('y', 0.0));
    let items = extract_page_text_items(&chars, &Vec::new(), &Vec::new(), 4).expect("native text");
    let solid: String = shown(&items).concat().chars().filter(|c| *c != ' ').collect();
    assert_eq!(solid, "onetwoxy");
    for (index, item) in items.iter().enumerate() {
        assert_eq!(item.id.as_str(), format!("p4:t{index}"));
        assert_eq!(item.extraction_order as usize, index);
        assert!(!item.raw_text.to_text().is_empty());
    }
    assert_eq!(items.len(), 3);
}
