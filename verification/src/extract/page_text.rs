//! The native text of a page from what PDFium states of its characters.

use std::sync::Arc;
use vstd::prelude::*;

use super::glyph::{has_recovery, recovers, ResolvedGlyph};
use super::text::{
    built, draft_models, drafts_of, flushed, hyphen_run, is_break, is_hyphen, is_single,
    overlay_of, pushed, BuilderModel, DraftModel, SegmentBuilder, TextCharFact, TextItemDraft,
    Typography,
};
use crate::chars::{is_control_code, is_scalar, is_space, is_whitespace};
use crate::error::ExtractError;
use crate::geometry::{Bbox, Point};
use crate::rope::Rope;
use crate::types::{
    copy_actions, copy_text, fact_models, native_id, text_seen, FactModel, PdfProvenance,
    ProvenanceModel, RepairAction, Rotation, StyleModel, TextItem, TextSource, TextStyle,
};

verus! {

/// What PDFium states of one character; boxes may be degenerate.
#[derive(Debug)]
pub struct PageChar {
    pub unicode: u32,
    /// What a resolved glyph shows behind its first character.
    pub tail: String,
    /// Repairs that the text of the glyph went through.
    pub repair_actions: Arc<Vec<RepairAction>>,
    pub char_code: u32,
    pub generated: bool,
    pub unicode_map_error: bool,
    /// The box around the ink.
    pub strict: Option<Bbox>,
    /// The box of the font.
    pub loose: Option<Bbox>,
    /// The origin, for oblique characters.
    pub origin: Option<Point>,
    /// Identity of the text object that draws the character.
    pub text_object: Option<u64>,
    /// Typography without link and text object.
    pub typography: Typography,
}

impl PageChar {
    /// The character with the text to which its glyph was resolved.
    pub fn with_glyph(self, glyph: ResolvedGlyph) -> (c: PageChar)
        ensures
            c == (PageChar {
                unicode: glyph.character as u32,
                tail: glyph.tail,
                repair_actions: c.repair_actions,
                ..self
            }),
            c.repair_actions@ == glyph.repair_actions@,
    {
        PageChar {
            unicode: glyph.character as u32,
            tail: glyph.tail,
            repair_actions: Arc::new(glyph.repair_actions),
            char_code: self.char_code,
            generated: self.generated,
            unicode_map_error: self.unicode_map_error,
            strict: self.strict,
            loose: self.loose,
            origin: self.origin,
            text_object: self.text_object,
            typography: self.typography,
        }
    }
}

/// A link over a rectangle of the page.
#[derive(Debug)]
pub struct PageLink {
    pub rect: Bbox,
    pub uri: String,
}

/// What becomes of a character.
pub enum Reading {
    /// It carries no text.
    Skipped,
    /// It is a fact.
    Fact { fact: TextCharFact },
    /// It is visible and has no box.
    NoGeometry,
}

impl Typography {
    /// Typography of which nothing is known.
    pub open spec fn none() -> Typography {
        Typography {
            rotation: Rotation::none(),
            font_name: None,
            font_size: None,
            font_height: None,
            font_ascent: None,
            font_descent: None,
            font_weight: None,
            font_flags: None,
            text_matrix: None,
            fill_color: None,
            stroke_color: None,
            mcid: None,
            text_object_index: None,
            link: None,
            strike: false,
        }
    }

    /// Typography of which nothing is known.
    pub fn unknown() -> (typography: Typography)
        ensures
            typography == Typography::none(),
    {
        Typography {
            rotation: Rotation::upright(),
            font_name: None,
            font_size: None,
            font_height: None,
            font_ascent: None,
            font_descent: None,
            font_weight: None,
            font_flags: None,
            text_matrix: None,
            fill_color: None,
            stroke_color: None,
            mcid: None,
            text_object_index: None,
            link: None,
            strike: false,
        }
    }

    /// The same typography with a positive font size, a text object and a link.
    pub open spec fn placed(
        self,
        text_object_index: Option<u32>,
        link: Option<String>,
    ) -> Typography {
        Typography {
            font_size: match self.font_size {
                Some(size) => if size > 0 {
                    Some(size)
                } else {
                    None
                },
                None => None,
            },
            text_object_index,
            link,
            ..self
        }
    }

    fn place(&self, text_object_index: Option<u32>, link: Option<String>) -> (placed: Typography)
        ensures
            placed == self.placed(text_object_index, link),
    {
        Typography {
            rotation: self.rotation,
            font_name: copy_text(&self.font_name),
            font_size: match self.font_size {
                Some(size) => if size > 0 {
                    Some(size)
                } else {
                    None
                },
                None => None,
            },
            font_height: self.font_height,
            font_ascent: self.font_ascent,
            font_descent: self.font_descent,
            font_weight: self.font_weight,
            font_flags: self.font_flags,
            text_matrix: self.text_matrix,
            fill_color: self.fill_color,
            stroke_color: self.stroke_color,
            mcid: self.mcid,
            text_object_index,
            link,
            strike: self.strike,
        }
    }
}

/// The box that stands for characters without a place of their own.
pub open spec fn dummy_box() -> Bbox {
    Bbox { left: 0, top: 0, right: 10_000, bottom: 10_000 }
}

/// The last of the first `n` text objects with an identity.
pub open spec fn object_index(objects: Seq<u64>, identity: u64, n: int) -> Option<u32>
    decreases n,
{
    if n <= 0 {
        None
    } else if objects[n - 1] == identity {
        Some((n - 1) as u32)
    } else {
        object_index(objects, identity, n - 1)
    }
}

/// Whether the middle of a box lies on a link.
pub open spec fn on_link(link: PageLink, b: Bbox) -> bool {
    &&& 2 * link.rect.left <= b.mid_x2() <= 2 * link.rect.right
    &&& 2 * link.rect.top <= b.mid_y2() <= 2 * link.rect.bottom
}

/// The target of the first link, from index `i` on, under the middle of a box.
pub open spec fn link_at(links: Seq<PageLink>, b: Bbox, i: int) -> Option<String>
    decreases links.len() - i,
{
    if i < 0 || i >= links.len() {
        None
    } else if on_link(links[i], b) {
        Some(links[i].uri)
    } else {
        link_at(links, b, i + 1)
    }
}

/// A box, where it has a positive extent.
pub open spec fn usable(b: Option<Bbox>) -> Option<Bbox> {
    match b {
        Some(rect) => if rect.valid() {
            Some(rect)
        } else {
            None
        },
        None => None,
    }
}

/// Whether the text of a character is not known: the font does not map it, and nothing
/// recovered it.
pub open spec fn unmapped(c: PageChar) -> bool {
    c.unicode_map_error && !recovers(c.repair_actions@)
}

/// What becomes of a character of a page with these text objects and links.
pub open spec fn reading_of(c: PageChar, objects: Seq<u64>, links: Seq<PageLink>) -> Reading {
    let character = c.unicode as char;
    if !is_scalar(c.unicode as int) || c.unicode == 0 || c.unicode == 0xFFFE || c.unicode
        == 0xFFFF {
        Reading::Skipped
    } else if c.tail@.len() == 0 && (character == '\n' || character == '\r') {
        Reading::Fact {
            fact: TextCharFact {
                character,
                tail: c.tail,
                repair_actions: c.repair_actions,
                bbox: dummy_box(),
                loose_bbox: dummy_box(),
                origin: None,
                char_code: 0,
                generated: false,
                unicode_map_error: false,
                explicit_break: true,
                typography: Typography::none(),
            },
        }
    } else if c.tail@.len() == 0 && is_space(character) {
        Reading::Fact {
            fact: TextCharFact {
                character,
                tail: c.tail,
                repair_actions: c.repair_actions,
                bbox: dummy_box(),
                loose_bbox: dummy_box(),
                origin: None,
                char_code: c.char_code,
                generated: c.generated,
                unicode_map_error: unmapped(c),
                explicit_break: false,
                typography: Typography::none(),
            },
        }
    } else if usable(c.strict) is None && usable(c.loose) is None {
        Reading::NoGeometry
    } else {
        let strict = if usable(c.strict) is Some {
            usable(c.strict)->0
        } else {
            usable(c.loose)->0
        };
        let loose = if usable(c.loose) is Some {
            usable(c.loose)->0
        } else {
            strict
        };
        let object = match c.text_object {
            Some(identity) => object_index(objects, identity, objects.len() as int),
            None => None,
        };
        Reading::Fact {
            fact: TextCharFact {
                character,
                tail: c.tail,
                repair_actions: c.repair_actions,
                bbox: strict,
                loose_bbox: loose,
                origin: c.origin,
                char_code: c.char_code,
                generated: c.generated,
                unicode_map_error: unmapped(c),
                explicit_break: false,
                typography: c.typography.placed(object, link_at(links, strict, 0)),
            },
        }
    }
}

/// The runs after the first `n` characters of a page.
pub open spec fn page_runs(
    page: u32,
    chars: Seq<PageChar>,
    objects: Seq<u64>,
    links: Seq<PageLink>,
    n: int,
) -> Result<BuilderModel, ExtractError>
    decreases n,
{
    if n <= 0 {
        Ok(BuilderModel { page_number: page, next: 0, current: None, completed: Seq::empty() })
    } else {
        match page_runs(page, chars, objects, links, n - 1) {
            Err(error) => Err(error),
            Ok(b) => match reading_of(chars[n - 1], objects, links) {
                Reading::Skipped => Ok(b),
                Reading::NoGeometry => Err(
                    ExtractError::MissingCharacterGeometry { index: (n - 1) as u32 },
                ),
                Reading::Fact { fact } => match pushed(b, fact) {
                    Some(next) => Ok(next),
                    None => Err(ExtractError::ExtractionIndexOverflow),
                },
            },
        }
    }
}

/// The drafts of a page.
pub open spec fn page_drafts(
    page: u32,
    chars: Seq<PageChar>,
    objects: Seq<u64>,
    links: Seq<PageLink>,
) -> Result<Seq<DraftModel>, ExtractError> {
    match page_runs(page, chars, objects, links, chars.len() as int) {
        Err(error) => Err(error),
        Ok(b) => match flushed(b) {
            Some(ended) => Ok(ended.completed),
            None => Err(ExtractError::ExtractionIndexOverflow),
        },
    }
}

/// The box that stands for characters without a place of their own.
fn dummy() -> (b: Bbox)
    ensures
        b == dummy_box(),
{
    Bbox { left: 0, top: 0, right: 10_000, bottom: 10_000 }
}

/// A box, where it has a positive extent.
fn rect_to_bbox(rect: &Option<Bbox>) -> (b: Option<Bbox>)
    ensures
        b == usable(*rect),
{
    match rect {
        Some(rect) => if rect.is_valid() {
            Some(*rect)
        } else {
            None
        },
        None => None,
    }
}

/// The last text object with an identity.
fn find_object(objects: &Vec<u64>, identity: u64) -> (index: Option<u32>)
    requires
        objects@.len() <= u32::MAX,
    ensures
        index == object_index(objects@, identity, objects@.len() as int),
{
    let mut n: usize = objects.len();
    while n > 0
        invariant
            n <= objects@.len() <= u32::MAX,
            object_index(objects@, identity, objects@.len() as int) == object_index(
                objects@,
                identity,
                n as int,
            ),
        decreases n,
    {
        if objects[n - 1] == identity {
            return Some((n - 1) as u32);
        }
        n = n - 1;
    }
    None
}

/// The target of the first link under the middle of a box.
fn find_link(links: &Vec<PageLink>, b: &Bbox) -> (link: Option<String>)
    ensures
        link == link_at(links@, *b, 0),
{
    let x2: i64 = b.center_x2();
    let y2: i64 = b.center_y2();
    let mut i: usize = 0;
    while i < links.len()
        invariant
            x2 == b.mid_x2(),
            y2 == b.mid_y2(),
            i <= links@.len(),
            link_at(links@, *b, 0) == link_at(links@, *b, i as int),
        decreases links@.len() - i,
    {
        let rect: Bbox = links[i].rect;
        if 2 * (rect.left as i64) <= x2 && x2 <= 2 * (rect.right as i64) && 2 * (rect.top as i64)
            <= y2 && y2 <= 2 * (rect.bottom as i64) {
            return Some(links[i].uri.clone());
        }
        i = i + 1;
    }
    None
}

/// What becomes of a character of a page with these text objects and links.
fn read(c: &PageChar, objects: &Vec<u64>, links: &Vec<PageLink>) -> (reading: Reading)
    requires
        objects@.len() <= u32::MAX,
    ensures
        reading == reading_of(*c, objects@, links@),
{
    let character: char = match char::from_u32(c.unicode) {
        None => {
            return Reading::Skipped;
        },
        Some(character) => character,
    };
    if c.unicode == 0 || c.unicode == 0xFFFE || c.unicode == 0xFFFF {
        return Reading::Skipped;
    }
    let single: bool = c.tail.as_str().unicode_len() == 0;
    let unmapped: bool = c.unicode_map_error && !has_recovery(&c.repair_actions);
    if single && (character == '\n' || character == '\r') {
        return Reading::Fact {
            fact: TextCharFact {
                character,
                tail: c.tail.clone(),
                repair_actions: c.repair_actions.clone(),
                bbox: dummy(),
                loose_bbox: dummy(),
                origin: None,
                char_code: 0,
                generated: false,
                unicode_map_error: false,
                explicit_break: true,
                typography: Typography::unknown(),
            },
        };
    }
    if single && is_whitespace(character) {
        return Reading::Fact {
            fact: TextCharFact {
                character,
                tail: c.tail.clone(),
                repair_actions: c.repair_actions.clone(),
                bbox: dummy(),
                loose_bbox: dummy(),
                origin: None,
                char_code: c.char_code,
                generated: c.generated,
                unicode_map_error: unmapped,
                explicit_break: false,
                typography: Typography::unknown(),
            },
        };
    }
    let (strict, loose): (Bbox, Bbox) = match (rect_to_bbox(&c.strict), rect_to_bbox(&c.loose)) {
        (Some(strict), Some(loose)) => (strict, loose),
        (Some(strict), None) => (strict, strict),
        (None, Some(loose)) => (loose, loose),
        (None, None) => {
            return Reading::NoGeometry;
        },
    };
    let object: Option<u32> = match c.text_object {
        Some(identity) => find_object(objects, identity),
        None => None,
    };
    Reading::Fact {
        fact: TextCharFact {
            character,
            tail: c.tail.clone(),
            repair_actions: c.repair_actions.clone(),
            bbox: strict,
            loose_bbox: loose,
            origin: c.origin,
            char_code: c.char_code,
            generated: c.generated,
            unicode_map_error: unmapped,
            explicit_break: false,
            typography: c.typography.place(object, find_link(links, &strict)),
        },
    }
}

/// Extracts native text drafts from the characters of one page.
fn extract_drafts(
    chars: &Vec<PageChar>,
    objects: &Vec<u64>,
    links: &Vec<PageLink>,
    page_number: u32,
) -> (drafts: Result<Vec<TextItemDraft>, ExtractError>)
    requires
        chars@.len() <= i32::MAX,
        objects@.len() <= u32::MAX,
    ensures
        match (drafts, page_drafts(page_number, chars@, objects@, links@)) {
            (Ok(list), Ok(models)) => draft_models(list@) == models,
            (Err(error), Err(expected)) => error == expected,
            _ => false,
        },
{
    let mut builder: SegmentBuilder = SegmentBuilder::new(page_number);
    let mut i: usize = 0;
    while i < chars.len()
        invariant
            chars@.len() <= i32::MAX,
            objects@.len() <= u32::MAX,
            i <= chars@.len(),
            builder.wf(),
            builder.count() <= i,
            page_runs(page_number, chars@, objects@, links@, i as int) == Ok::<
                BuilderModel,
                ExtractError,
            >(builder@),
        decreases chars@.len() - i,
    {
        match read(&chars[i], objects, links) {
            Reading::Skipped => {},
            Reading::NoGeometry => {
                let error = ExtractError::MissingCharacterGeometry { index: i as u32 };
                proof {
                    lemma_page_error(page_number, chars@, objects@, links@, i as int, error);
                }
                return Err(error);
            },
            Reading::Fact { fact } => {
                match builder.push(fact) {
                    Ok(_) => {},
                    Err(error) => {
                        proof {
                            lemma_page_error(
                                page_number,
                                chars@,
                                objects@,
                                links@,
                                i as int,
                                error,
                            );
                        }
                        return Err(error);
                    },
                }
            },
        }
        i = i + 1;
    }
    builder.finish()
}

/// The first failure of a page is its result.
proof fn lemma_page_error(
    page: u32,
    chars: Seq<PageChar>,
    objects: Seq<u64>,
    links: Seq<PageLink>,
    i: int,
    error: ExtractError,
)
    requires
        0 <= i < chars.len(),
        page_runs(page, chars, objects, links, i + 1) == Err::<BuilderModel, ExtractError>(error),
    ensures
        page_drafts(page, chars, objects, links) == Err::<Seq<DraftModel>, ExtractError>(error),
    decreases chars.len() - i,
{
    lemma_error_stays(page, chars, objects, links, i + 1, chars.len() as int, error);
}

proof fn lemma_error_stays(
    page: u32,
    chars: Seq<PageChar>,
    objects: Seq<u64>,
    links: Seq<PageLink>,
    i: int,
    n: int,
    error: ExtractError,
)
    requires
        0 <= i <= n,
        page_runs(page, chars, objects, links, i) == Err::<BuilderModel, ExtractError>(error),
    ensures
        page_runs(page, chars, objects, links, n) == Err::<BuilderModel, ExtractError>(error),
    decreases n,
{
    if i < n {
        lemma_error_stays(page, chars, objects, links, i, n - 1, error);
    }
}

/// The text fact of a draft.
pub open spec fn fact_of(draft: DraftModel) -> FactModel {
    let t = draft.typography;
    FactModel {
        id: draft.id,
        raw_text: draft.raw_text,
        raw_bbox: Some(draft.bbox),
        bbox: draft.bbox,
        rotation: t.rotation,
        baseline: draft.baseline,
        style: if t.font_name is Some || t.font_size is Some || t.font_flags is Some
            || t.fill_color is Some || t.stroke_color is Some || t.text_matrix is Some {
            Some(
                StyleModel {
                    font_name: text_seen(t.font_name),
                    font_size: t.font_size,
                    font_height: t.font_height,
                    font_ascent: t.font_ascent,
                    font_descent: t.font_descent,
                    font_size_estimated: false,
                    weight: t.font_weight,
                    flags: t.font_flags,
                    bold: false,
                    italic: false,
                    fill_color: t.fill_color,
                    stroke_color: t.stroke_color,
                    text_matrix: t.text_matrix,
                },
            )
        } else {
            None
        },
        source: TextSource::Native,
        quad: None,
        confidence: None,
        extraction_order: draft.extraction_order,
        final_order: draft.extraction_order,
        watermark: false,
        provenance: Some(
            ProvenanceModel {
                char_codes: draft.char_codes,
                mcid: t.mcid,
                text_object_index: t.text_object_index,
                unicode_mapping: draft.unicode_mapping,
                generated_space: draft.generated_space,
                link: text_seen(t.link),
                strike: t.strike,
            },
        ),
        repair_actions: draft.repair_actions,
    }
}

/// The text facts of drafts.
pub open spec fn facts_of(drafts: Seq<DraftModel>) -> Seq<FactModel> {
    Seq::new(drafts.len(), |i: int| fact_of(drafts[i]))
}

/// An equal list of codes.
fn copy_codes(codes: &Vec<u32>) -> (copies: Vec<u32>)
    ensures
        copies@ == codes@,
{
    let mut copies: Vec<u32> = Vec::new();
    let mut i: usize = 0;
    while i < codes.len()
        invariant
            i <= codes@.len(),
            copies@ == codes@.take(i as int),
        decreases codes@.len() - i,
    {
        copies.push(codes[i]);
        i = i + 1;
        assert(copies@ =~= codes@.take(i as int));
    }
    assert(codes@.take(codes@.len() as int) =~= codes@);
    copies
}

impl TextItemDraft {
    /// The text fact of this draft; raw text and geometry are kept as they are.
    pub fn to_item(&self) -> (item: TextItem)
        ensures
            item@ == fact_of(self@),
    {
        let t: &Typography = &self.typography;
        let styled: bool = t.font_name.is_some() || t.font_size.is_some() || t.font_flags.is_some()
            || t.fill_color.is_some() || t.stroke_color.is_some() || t.text_matrix.is_some();
        let item = TextItem {
            id: self.id.copy(),
            raw_text: Rope::Text(self.raw_text.clone()),
            raw_bbox: Some(self.bbox),
            bbox: self.bbox,
            rotation: t.rotation,
            baseline: self.baseline,
            style: if styled {
                Some(
                    TextStyle {
                        font_name: copy_text(&t.font_name),
                        font_size: t.font_size,
                        font_height: t.font_height,
                        font_ascent: t.font_ascent,
                        font_descent: t.font_descent,
                        font_size_estimated: false,
                        weight: t.font_weight,
                        flags: t.font_flags,
                        bold: false,
                        italic: false,
                        fill_color: t.fill_color,
                        stroke_color: t.stroke_color,
                        text_matrix: t.text_matrix,
                    },
                )
            } else {
                None
            },
            source: TextSource::Native,
            quad: None,
            confidence: None,
            extraction_order: self.extraction_order,
            final_order: self.extraction_order,
            watermark: false,
            provenance: Some(
                Arc::new(
                    PdfProvenance {
                        char_codes: copy_codes(&self.char_codes),
                        mcid: t.mcid,
                        text_object_index: t.text_object_index,
                        unicode_mapping: self.unicode_mapping,
                        generated_space: self.generated_space,
                        link: copy_text(&t.link),
                        strike: t.strike,
                    },
                ),
            ),
            repair_actions: Arc::new(copy_actions(&self.repair_actions)),
        };
        assert(item@ =~= fact_of(self@));
        item
    }
}

/// Extracts stable native text facts from the characters of one page.
pub fn extract_page_text_items(
    chars: &Vec<PageChar>,
    objects: &Vec<u64>,
    links: &Vec<PageLink>,
    page_number: u32,
) -> (items: Result<Vec<TextItem>, ExtractError>)
    requires
        chars@.len() <= i32::MAX,
        objects@.len() <= u32::MAX,
    ensures
        match (items, page_drafts(page_number, chars@, objects@, links@)) {
            (Ok(list), Ok(drafts)) => fact_models(list@) == facts_of(drafts),
            (Err(error), Err(expected)) => error == expected,
            _ => false,
        },
{
    let drafts: Vec<TextItemDraft> = match extract_drafts(chars, objects, links, page_number) {
        Err(error) => {
            return Err(error);
        },
        Ok(drafts) => drafts,
    };
    let ghost all = draft_models(drafts@);
    let mut items: Vec<TextItem> = Vec::new();
    let mut i: usize = 0;
    while i < drafts.len()
        invariant
            i <= drafts@.len(),
            all == draft_models(drafts@),
            items@.len() == i,
            forall|k: int| 0 <= k < i ==> (#[trigger] items@[k])@ == fact_of(all[k]),
        decreases drafts@.len() - i,
    {
        items.push(drafts[i].to_item());
        i = i + 1;
    }
    assert(fact_models(items@) =~= facts_of(all));
    Ok(items)
}

/// The characters of a text that are no blanks.
pub open spec fn solid(text: Seq<char>) -> Seq<char>
    decreases text.len(),
{
    if text.len() == 0 {
        Seq::empty()
    } else if text.last() == ' ' {
        solid(text.drop_last())
    } else {
        solid(text.drop_last()).push(text.last())
    }
}

/// What a fact shows without blanks: its text, a hyphen for the encoded hyphen, or nothing.
pub open spec fn shows(fact: TextCharFact) -> Seq<char> {
    if is_break(fact) || (is_single(fact) && fact.character == '\u{1}') {
        Seq::empty()
    } else if is_hyphen(fact) {
        solid(hyphen_run(fact).raw_text)
    } else if is_single(fact) && (is_control_code(fact.character) || is_space(fact.character)) {
        Seq::empty()
    } else {
        solid(seq![fact.character] + fact.tail@)
    }
}

/// Whether no glyph makes one character with the one before it.
pub open spec fn no_overlays(page: u32, facts: Seq<TextCharFact>) -> bool {
    forall|n: int|
        0 <= n < facts.len() ==> #[trigger] stands_alone(built(page, facts, n), facts[n])
}

/// Whether a glyph makes no character with the end of a run.
pub open spec fn stands_alone(b: Option<BuilderModel>, fact: TextCharFact) -> bool {
    b matches Some(builder) && builder.current matches Some(segment) ==> overlay_of(segment, fact)
        is None
}

/// What the first `n` facts show.
pub open spec fn shown_by(facts: Seq<TextCharFact>, n: int) -> Seq<char>
    decreases n,
{
    if n <= 0 {
        Seq::empty()
    } else {
        shown_by(facts, n - 1) + shows(facts[n - 1])
    }
}

/// What the first `n` drafts show.
pub open spec fn shown_in(drafts: Seq<DraftModel>, n: int) -> Seq<char>
    decreases n,
{
    if n <= 0 {
        Seq::empty()
    } else {
        shown_in(drafts, n - 1) + solid(drafts[n - 1].raw_text)
    }
}

/// What a builder shows.
pub open spec fn shown_so_far(b: BuilderModel) -> Seq<char> {
    shown_in(b.completed, b.completed.len() as int) + (match b.current {
        None => Seq::empty(),
        Some(segment) => solid(segment.raw_text),
    })
}

/// Whether the drafts of a builder are numbered from zero on.
pub open spec fn numbered(b: BuilderModel) -> bool {
    &&& b.completed.len() == b.next
    &&& forall|i: int|
        #![trigger b.completed[i]]
        0 <= i < b.completed.len() ==> b.completed[i].extraction_order == i && b.completed[i].id
            == native_id(b.page_number as nat, i as nat) && b.completed[i].raw_text.len() > 0
    &&& b.current matches Some(segment) ==> segment.raw_text.len() > 0
}

proof fn lemma_shown_prefix(a: Seq<DraftModel>, b: Seq<DraftModel>, n: int)
    requires
        0 <= n <= a.len(),
        n <= b.len(),
        forall|i: int| 0 <= i < n ==> a[i] == b[i],
    ensures
        shown_in(a, n) == shown_in(b, n),
    decreases n,
{
    if n > 0 {
        lemma_shown_prefix(a, b, n - 1);
    }
}

proof fn lemma_flushed_keeps(b: BuilderModel)
    requires
        flushed(b) is Some,
        numbered(b),
    ensures
        shown_so_far(flushed(b)->0) == shown_so_far(b),
        numbered(flushed(b)->0),
{
    let ended = flushed(b)->0;
    if b.current is Some {
        let n = b.completed.len() as int;
        lemma_shown_prefix(ended.completed, b.completed, n);
        assert(shown_in(ended.completed, n + 1) == shown_in(ended.completed, n) + solid(
            b.current->0.raw_text,
        ));
        assert(shown_so_far(ended) =~= shown_so_far(b));
        assert(numbered(ended));
    }
}

proof fn lemma_solid_push(text: Seq<char>, c: char)
    ensures
        c == ' ' ==> solid(text.push(c)) == solid(text),
        c != ' ' ==> solid(text.push(c)) == solid(text).push(c),
{
    assert(text.push(c).drop_last() =~= text);
}

/// Blanks drop out of both parts of a text.
proof fn lemma_solid_join(a: Seq<char>, b: Seq<char>)
    ensures
        solid(a + b) == solid(a) + solid(b),
    decreases b.len(),
{
    if b.len() == 0 {
        assert(a + b =~= a);
        assert(solid(a) + solid(b) =~= solid(a));
    } else {
        lemma_solid_join(a, b.drop_last());
        assert((a + b).drop_last() =~= a + b.drop_last());
        assert(solid(a + b) =~= solid(a) + solid(b));
    }
}

proof fn lemma_pushed_keeps(b: BuilderModel, fact: TextCharFact)
    requires
        pushed(b, fact) is Some,
        numbered(b),
    ensures
        stands_alone(Some(b), fact) ==> shown_so_far(pushed(b, fact)->0) == shown_so_far(b) + shows(
            fact,
        ),
        numbered(pushed(b, fact)->0),
{
    let after = pushed(b, fact)->0;
    if is_break(fact) {
        lemma_flushed_keeps(b);
    } else if is_single(fact) && fact.character == '\u{1}' {
        if b.current is Some {
            lemma_solid_push(b.current->0.raw_text, ' ');
        }
    } else if is_hyphen(fact) {
        lemma_flushed_keeps(b);
        let ended = flushed(b)->0;
        let hyphen = BuilderModel { current: Some(hyphen_run(fact)), ..ended };
        assert(shown_so_far(hyphen) =~= shown_so_far(ended) + shows(fact));
        lemma_flushed_keeps(hyphen);
    } else if is_single(fact) && is_control_code(fact.character) {
    } else if is_single(fact) && is_space(fact.character) {
        if b.current is Some {
            lemma_solid_push(b.current->0.raw_text, ' ');
        }
    } else {
        if b.current is Some {
            lemma_solid_join(b.current->0.raw_text, seq![fact.character] + fact.tail@);
            if super::text::must_split_run(b.current->0.facts, fact) {
                lemma_flushed_keeps(b);
            }
        }
    }
    if stands_alone(Some(b), fact) {
        assert(shown_so_far(after) =~= shown_so_far(b) + shows(fact));
    }
}

proof fn lemma_built_keeps(page: u32, facts: Seq<TextCharFact>, n: int)
    requires
        0 <= n <= facts.len(),
        built(page, facts, n) is Some,
    ensures
        no_overlays(page, facts) ==> shown_so_far(built(page, facts, n)->0) == shown_by(facts, n),
        numbered(built(page, facts, n)->0),
        built(page, facts, n)->0.page_number == page,
    decreases n,
{
    if n > 0 {
        lemma_built_keeps(page, facts, n - 1);
        if no_overlays(page, facts) {
            assert(stands_alone(built(page, facts, n - 1), facts[n - 1]));
        }
        lemma_pushed_keeps(built(page, facts, n - 1)->0, facts[n - 1]);
    } else {
        assert(shown_so_far(built(page, facts, 0)->0) =~= Seq::empty());
    }
}

/// Drafts show exactly the visible characters of their facts, in
/// their order: no character is invented and none is lost, where no glyph is
/// laid over another to make one character of both.
pub proof fn runs_show_what_facts_show(page: u32, facts: Seq<TextCharFact>)
    requires
        drafts_of(page, facts) is Some,
        no_overlays(page, facts),
    ensures
        ({
            let drafts = drafts_of(page, facts)->0;
            shown_in(drafts, drafts.len() as int) == shown_by(facts, facts.len() as int)
        }),
{
    let n = facts.len() as int;
    lemma_built_keeps(page, facts, n);
    let b = built(page, facts, n)->0;
    lemma_flushed_keeps(b);
    let ended = flushed(b)->0;
    assert(shown_so_far(ended) =~= shown_in(ended.completed, ended.completed.len() as int));
}

/// The drafts of facts are numbered from zero on, and none is empty.
pub proof fn runs_are_numbered(page: u32, facts: Seq<TextCharFact>)
    requires
        drafts_of(page, facts) is Some,
    ensures
        ({
            let drafts = drafts_of(page, facts)->0;
            forall|i: int|
                #![trigger drafts[i]]
                0 <= i < drafts.len() ==> drafts[i].extraction_order == i && drafts[i].id
                    == native_id(page as nat, i as nat) && drafts[i].raw_text.len() > 0
        }),
{
    let n = facts.len() as int;
    lemma_built_keeps(page, facts, n);
    lemma_flushed_keeps(built(page, facts, n)->0);
}

/// The facts that the first `n` characters of a page are read as.
pub open spec fn facts_read(
    chars: Seq<PageChar>,
    objects: Seq<u64>,
    links: Seq<PageLink>,
    n: int,
) -> Seq<TextCharFact>
    decreases n,
{
    if n <= 0 {
        Seq::empty()
    } else {
        let before = facts_read(chars, objects, links, n - 1);
        match reading_of(chars[n - 1], objects, links) {
            Reading::Fact { fact } => before.push(fact),
            _ => before,
        }
    }
}

/// What the first facts build does not depend on later ones.
proof fn lemma_built_prefix(page: u32, a: Seq<TextCharFact>, b: Seq<TextCharFact>, n: int)
    requires
        n <= a.len(),
        n <= b.len(),
        forall|i: int| 0 <= i < n ==> a[i] == b[i],
    ensures
        built(page, a, n) == built(page, b, n),
    decreases n,
{
    if n > 0 {
        lemma_built_prefix(page, a, b, n - 1);
    }
}

/// The runs of a page are those of the facts that its characters are read as.
proof fn lemma_page_built(
    page: u32,
    chars: Seq<PageChar>,
    objects: Seq<u64>,
    links: Seq<PageLink>,
    n: int,
)
    requires
        page_runs(page, chars, objects, links, n) is Ok,
    ensures
        ({
            let facts = facts_read(chars, objects, links, n);
            built(page, facts, facts.len() as int) == Some(
                page_runs(page, chars, objects, links, n)->Ok_0,
            )
        }),
    decreases n,
{
    if n > 0 {
        lemma_page_built(page, chars, objects, links, n - 1);
        let before = facts_read(chars, objects, links, n - 1);
        let facts = facts_read(chars, objects, links, n);
        lemma_built_prefix(page, before, facts, before.len() as int);
    }
}

/// The drafts of a page are those of the facts that its characters are read as.
proof fn lemma_page_drafts(
    page: u32,
    chars: Seq<PageChar>,
    objects: Seq<u64>,
    links: Seq<PageLink>,
)
    requires
        page_drafts(page, chars, objects, links) is Ok,
    ensures
        drafts_of(page, facts_read(chars, objects, links, chars.len() as int)) == Some(
            page_drafts(page, chars, objects, links)->Ok_0,
        ),
{
    lemma_page_built(page, chars, objects, links, chars.len() as int);
}

/// The text of a page shows exactly the visible characters that it was read from, in their order:
/// no character is invented and none is lost, where no glyph is laid over another to make one
/// character of both.
pub proof fn page_text_shows_its_characters(
    page: u32,
    chars: Seq<PageChar>,
    objects: Seq<u64>,
    links: Seq<PageLink>,
)
    requires
        no_overlays(page, facts_read(chars, objects, links, chars.len() as int)),
    ensures
        page_drafts(page, chars, objects, links) matches Ok(drafts) ==> ({
            let facts = facts_read(chars, objects, links, chars.len() as int);
            shown_in(drafts, drafts.len() as int) == shown_by(facts, facts.len() as int)
        }),
{
    if page_drafts(page, chars, objects, links) is Ok {
        lemma_page_drafts(page, chars, objects, links);
        runs_show_what_facts_show(page, facts_read(chars, objects, links, chars.len() as int));
    }
}

/// The drafts of a page are numbered from zero on, by identity and by order, and none is empty.
pub proof fn page_text_is_numbered(
    page: u32,
    chars: Seq<PageChar>,
    objects: Seq<u64>,
    links: Seq<PageLink>,
)
    ensures
        page_drafts(page, chars, objects, links) matches Ok(drafts) ==> forall|i: int|
            #![trigger drafts[i]]
            0 <= i < drafts.len() ==> drafts[i].extraction_order == i && drafts[i].id == native_id(
                page as nat,
                i as nat,
            ) && drafts[i].raw_text.len() > 0,
{
    if page_drafts(page, chars, objects, links) is Ok {
        lemma_page_drafts(page, chars, objects, links);
        runs_are_numbered(page, facts_read(chars, objects, links, chars.len() as int));
    }
}

} // verus!
