//! Page facts and identities.

use std::sync::Arc;
use vstd::prelude::*;

use crate::chars::{push_decimal, push_text, text_of_decimal};
use crate::geometry::{Baseline, Bbox, Point};
use crate::rope::Rope;

verus! {

/// Units in one degree.
pub const DEGREE: i32 = 10_000;

/// Scale of the components of a direction.
pub const UNIT: i32 = 1_000_000_000;

/// Scale of probabilities, confidences and weights.
pub const WHOLE: u32 = 1_000_000;

/// The angle of a run, clockwise in viewport space, with its direction.
///
/// `cosine` and `sine` are the components of the inline direction, in
/// billionths. They matter only for runs that are not parallel to an axis.
#[derive(Debug, Clone, Copy, PartialEq, Eq, Structural)]
pub struct Rotation {
    pub angle: i32,
    pub cosine: i32,
    pub sine: i32,
}

impl Rotation {
    /// The rotation of upright text.
    pub open spec fn none() -> Rotation {
        Rotation { angle: 0, cosine: UNIT, sine: 0 }
    }

    /// The rotation of upright text.
    pub fn upright() -> (rotation: Rotation)
        ensures
            rotation == Rotation::none(),
    {
        Rotation { angle: 0, cosine: UNIT, sine: 0 }
    }
}

/// Dominant direction in which a line is read.
#[derive(Debug, Clone, Copy, PartialEq, Eq, Structural)]
pub enum WritingDirection {
    LeftToRight,
    RightToLeft,
    Vertical,
}

/// Where a text fact comes from.
#[derive(Debug, Clone, Copy, PartialEq, Eq, Structural)]
pub enum TextSource {
    Native,
    Ocr,
}

/// Four ordered corners of a run.
#[derive(Debug, Clone, Copy, PartialEq, Eq, Structural)]
pub struct Quad {
    pub a: Point,
    pub b: Point,
    pub c: Point,
    pub d: Point,
}

/// Typography of one run.
#[derive(Debug)]
pub struct TextStyle {
    pub font_name: Option<String>,
    pub font_size: Option<i32>,
    pub font_height: Option<i32>,
    pub font_ascent: Option<i32>,
    pub font_descent: Option<i32>,
    pub font_size_estimated: bool,
    pub weight: Option<u16>,
    pub flags: Option<u32>,
    pub bold: bool,
    pub italic: bool,
    pub fill_color: Option<Color>,
    pub stroke_color: Option<Color>,
    pub text_matrix: Option<TextMatrix>,
}

/// A copy of an optional text.
pub fn copy_text(text: &Option<String>) -> (copy: Option<String>)
    ensures
        copy == *text,
{
    match text {
        None => None,
        Some(t) => Some(t.clone()),
    }
}

impl TextStyle {
    /// A style of which nothing is known.
    pub fn unknown() -> (style: TextStyle)
        ensures
            style == TextStyle::none(),
    {
        TextStyle {
            font_name: None,
            font_size: None,
            font_height: None,
            font_ascent: None,
            font_descent: None,
            font_size_estimated: false,
            weight: None,
            flags: None,
            bold: false,
            italic: false,
            fill_color: None,
            stroke_color: None,
            text_matrix: None,
        }
    }

    /// A style of which nothing is known.
    pub open spec fn none() -> TextStyle {
        TextStyle {
            font_name: None,
            font_size: None,
            font_height: None,
            font_ascent: None,
            font_descent: None,
            font_size_estimated: false,
            weight: None,
            flags: None,
            bold: false,
            italic: false,
            fill_color: None,
            stroke_color: None,
            text_matrix: None,
        }
    }

    /// The same style with another font size.
    pub open spec fn sized(self, size: i32) -> TextStyle {
        TextStyle { font_size: Some(size), ..self }
    }

    /// An equal style.
    pub fn copy(&self) -> (copy: TextStyle)
        ensures
            copy == *self,
    {
        TextStyle {
            font_name: copy_text(&self.font_name),
            font_size: self.font_size,
            font_height: self.font_height,
            font_ascent: self.font_ascent,
            font_descent: self.font_descent,
            font_size_estimated: self.font_size_estimated,
            weight: self.weight,
            flags: self.flags,
            bold: self.bold,
            italic: self.italic,
            fill_color: self.fill_color,
            stroke_color: self.stroke_color,
            text_matrix: self.text_matrix,
        }
    }
}

/// How a character or run was repaired.
#[derive(Debug, Clone, Copy, PartialEq, Eq, Structural)]
pub enum RepairAction {
    EncodedHyphen,
    LigatureExpansion,
    PunctuationNormalization,
    RemovedControl,
    GlyphNameRecovery,
    FontCmapRecovery,
    GlyphOutlineRecovery,
    OcrNativeOverlap,
    OcrSpacing,
}

/// An equal list of repairs.
pub fn copy_actions(actions: &Vec<RepairAction>) -> (copies: Vec<RepairAction>)
    ensures
        copies@ == actions@,
{
    let mut copies: Vec<RepairAction> = Vec::new();
    let mut i: usize = 0;
    while i < actions.len()
        invariant
            i <= actions@.len(),
            copies@ == actions@.take(i as int),
        decreases actions@.len() - i,
    {
        copies.push(actions[i]);
        i = i + 1;
        assert(copies@ =~= actions@.take(i as int));
    }
    assert(actions@.take(actions@.len() as int) =~= actions@);
    copies
}

/// A list of repairs with one more behind it.
pub fn note(actions: &Arc<Vec<RepairAction>>, action: RepairAction) -> (noted: Arc<
    Vec<RepairAction>,
>)
    ensures
        noted@ == actions@.push(action),
{
    let mut all: Vec<RepairAction> = copy_actions(actions);
    all.push(action);
    Arc::new(all)
}

/// Whether a repair is in a list.
pub fn has_action(actions: &Vec<RepairAction>, action: RepairAction) -> (yes: bool)
    ensures
        yes == actions@.contains(action),
{
    let mut i: usize = 0;
    while i < actions.len()
        invariant
            i <= actions@.len(),
            forall|k: int| 0 <= k < i ==> actions@[k] != action,
        decreases actions@.len() - i,
    {
        if actions[i] == action {
            assert(actions@[i as int] == action);
            return true;
        }
        i = i + 1;
    }
    false
}

/// How much of a run's text the font maps to Unicode.
#[derive(Debug, Clone, Copy, PartialEq, Eq, Structural)]
pub enum UnicodeMappingStatus {
    Complete,
    Partial,
    Missing,
}

/// A color with its opacity.
#[derive(Debug, Clone, Copy, PartialEq, Eq, Structural)]
pub struct Color {
    pub red: u8,
    pub green: u8,
    pub blue: u8,
    pub alpha: u8,
}

/// A text matrix, in millionths.
#[derive(Debug, Clone, Copy, PartialEq, Eq, Structural)]
pub struct TextMatrix {
    pub a: i64,
    pub b: i64,
    pub c: i64,
    pub d: i64,
    pub e: i64,
    pub f: i64,
}

/// Where the text of a native fact comes from in the document.
#[derive(Debug)]
pub struct PdfProvenance {
    pub char_codes: Vec<u32>,
    pub mcid: Option<i32>,
    pub text_object_index: Option<u32>,
    pub unicode_mapping: UnicodeMappingStatus,
    pub generated_space: bool,
    pub link: Option<String>,
    pub strike: bool,
}

/// What a provenance says.
#[verifier::ext_equal]
pub struct ProvenanceModel {
    pub char_codes: Seq<u32>,
    pub mcid: Option<i32>,
    pub text_object_index: Option<u32>,
    pub unicode_mapping: UnicodeMappingStatus,
    pub generated_space: bool,
    pub link: Option<Seq<char>>,
    pub strike: bool,
}

/// What an optional text says.
pub open spec fn text_seen(text: Option<String>) -> Option<Seq<char>> {
    match text {
        None => None,
        Some(t) => Some(t@),
    }
}

impl View for PdfProvenance {
    type V = ProvenanceModel;

    open spec fn view(&self) -> ProvenanceModel {
        ProvenanceModel {
            char_codes: self.char_codes@,
            mcid: self.mcid,
            text_object_index: self.text_object_index,
            unicode_mapping: self.unicode_mapping,
            generated_space: self.generated_space,
            link: text_seen(self.link),
            strike: self.strike,
        }
    }
}

/// A straight rule drawn on the page.
#[derive(Debug, Clone, Copy, PartialEq, Eq, Structural)]
pub enum TableRule {
    Horizontal { y: i32, left: i32, right: i32 },
    Vertical { x: i32, top: i32, bottom: i32 },
}

/// Stable identity of one text fact.
#[derive(Debug)]
pub struct TextItemId {
    pub text: String,
}

/// Spelling of the identity of a native text fact.
pub open spec fn native_id(page: nat, index: nat) -> Seq<char> {
    "p"@ + text_of_decimal(page) + ":t"@ + text_of_decimal(index)
}

/// Spelling of the identity of a recognized text fact.
pub open spec fn ocr_id(page: nat, index: nat) -> Seq<char> {
    "p"@ + text_of_decimal(page) + ":o"@ + text_of_decimal(index)
}

/// Spelling of the identity of a part of a recognized text fact.
pub open spec fn fragment_id(whole: Seq<char>, index: nat) -> Seq<char> {
    whole + ":"@ + text_of_decimal(index)
}

impl View for TextItemId {
    type V = Seq<char>;

    open spec fn view(&self) -> Seq<char> {
        self.text@
    }
}

impl TextItemId {
    /// The identity of the native fact with this extraction index.
    pub fn native(page_number: u32, index: u32) -> (id: TextItemId)
        ensures
            id@ == native_id(page_number as nat, index as nat),
    {
        let mut text: String = String::new();
        push_text(&mut text, "p");
        push_decimal(&mut text, page_number as u64);
        push_text(&mut text, ":t");
        push_decimal(&mut text, index as u64);
        assert(text@ =~= native_id(page_number as nat, index as nat));
        TextItemId { text }
    }

    /// The identity of the recognized fact with this result index.
    pub fn ocr(page_number: u32, index: u32) -> (id: TextItemId)
        ensures
            id@ == ocr_id(page_number as nat, index as nat),
    {
        let mut text: String = String::new();
        push_text(&mut text, "p");
        push_decimal(&mut text, page_number as u64);
        push_text(&mut text, ":o");
        push_decimal(&mut text, index as u64);
        assert(text@ =~= ocr_id(page_number as nat, index as nat));
        TextItemId { text }
    }

    /// The identity of the part of a recognized fact with this number.
    pub fn ocr_fragment(&self, index: usize) -> (id: TextItemId)
        ensures
            id@ == fragment_id(self@, index as nat),
    {
        let mut text: String = String::new();
        push_text(&mut text, self.text.as_str());
        push_text(&mut text, ":");
        push_decimal(&mut text, index as u64);
        assert(text@ =~= fragment_id(self@, index as nat));
        TextItemId { text }
    }

    /// The spelling.
    pub fn as_str(&self) -> (text: &str)
        ensures
            text@ == self@,
    {
        self.text.as_str()
    }

    /// An equal identity.
    pub fn copy(&self) -> (copy: TextItemId)
        ensures
            copy == *self,
    {
        TextItemId { text: self.text.clone() }
    }
}

/// One text fact of a page.
#[derive(Debug)]
pub struct TextItem {
    pub id: TextItemId,
    pub raw_text: Rope,
    /// The box as it was read.
    pub raw_bbox: Option<Bbox>,
    pub bbox: Bbox,
    pub rotation: Rotation,
    pub baseline: Option<Baseline>,
    pub style: Option<TextStyle>,
    pub source: TextSource,
    pub quad: Option<Quad>,
    pub confidence: Option<u32>,
    pub extraction_order: u32,
    pub final_order: u32,
    pub watermark: bool,
    pub provenance: Option<Arc<PdfProvenance>>,
    /// Repairs in the order in which they were made.
    pub repair_actions: Arc<Vec<RepairAction>>,
}

impl TextItem {
    /// A native fact of which only text and place are known.
    pub fn new(id: TextItemId, raw_text: Rope, bbox: Bbox) -> (item: TextItem)
        ensures
            item == (TextItem {
                id,
                raw_text,
                raw_bbox: None,
                bbox,
                rotation: Rotation::none(),
                baseline: None,
                style: None,
                source: TextSource::Native,
                quad: None,
                confidence: None,
                extraction_order: 0,
                final_order: 0,
                watermark: false,
                provenance: None,
                repair_actions: item.repair_actions,
            }),
            item.repair_actions@ == Seq::<RepairAction>::empty(),
    {
        TextItem {
            id,
            raw_text,
            raw_bbox: None,
            bbox,
            rotation: Rotation::upright(),
            baseline: None,
            style: None,
            source: TextSource::Native,
            quad: None,
            confidence: None,
            extraction_order: 0,
            final_order: 0,
            watermark: false,
            provenance: None,
            repair_actions: Arc::new(Vec::new()),
        }
    }

    /// The font size, where the style states one.
    pub open spec fn size(self) -> Option<i32> {
        match self.style {
            None => None,
            Some(style) => style.font_size,
        }
    }

    /// The font size, where the style states one.
    pub fn font_size(&self) -> (size: Option<i32>)
        ensures
            size == self.size(),
    {
        match &self.style {
            None => None,
            Some(style) => style.font_size,
        }
    }

    /// An equal fact.
    pub fn copy(&self) -> (copy: TextItem)
        ensures
            copy == *self,
    {
        TextItem {
            id: self.id.copy(),
            raw_text: self.raw_text.copy(),
            raw_bbox: self.raw_bbox,
            bbox: self.bbox,
            rotation: self.rotation,
            baseline: self.baseline,
            style: match &self.style {
                None => None,
                Some(style) => Some(style.copy()),
            },
            source: self.source,
            quad: self.quad,
            confidence: self.confidence,
            extraction_order: self.extraction_order,
            final_order: self.final_order,
            watermark: self.watermark,
            provenance: match &self.provenance {
                None => None,
                Some(provenance) => Some(provenance.clone()),
            },
            repair_actions: self.repair_actions.clone(),
        }
    }
}

/// What a style says.
#[verifier::ext_equal]
pub struct StyleModel {
    pub font_name: Option<Seq<char>>,
    pub font_size: Option<i32>,
    pub font_height: Option<i32>,
    pub font_ascent: Option<i32>,
    pub font_descent: Option<i32>,
    pub font_size_estimated: bool,
    pub weight: Option<u16>,
    pub flags: Option<u32>,
    pub bold: bool,
    pub italic: bool,
    pub fill_color: Option<Color>,
    pub stroke_color: Option<Color>,
    pub text_matrix: Option<TextMatrix>,
}

impl View for TextStyle {
    type V = StyleModel;

    open spec fn view(&self) -> StyleModel {
        StyleModel {
            font_name: match self.font_name {
                None => None,
                Some(name) => Some(name@),
            },
            font_size: self.font_size,
            font_height: self.font_height,
            font_ascent: self.font_ascent,
            font_descent: self.font_descent,
            font_size_estimated: self.font_size_estimated,
            weight: self.weight,
            flags: self.flags,
            bold: self.bold,
            italic: self.italic,
            fill_color: self.fill_color,
            stroke_color: self.stroke_color,
            text_matrix: self.text_matrix,
        }
    }
}

/// What a text fact says, with its texts as sequences.
#[verifier::ext_equal]
pub struct FactModel {
    pub id: Seq<char>,
    pub raw_text: Seq<char>,
    pub raw_bbox: Option<Bbox>,
    pub bbox: Bbox,
    pub rotation: Rotation,
    pub baseline: Option<Baseline>,
    pub style: Option<StyleModel>,
    pub source: TextSource,
    pub quad: Option<Quad>,
    pub confidence: Option<u32>,
    pub extraction_order: u32,
    pub final_order: u32,
    pub watermark: bool,
    pub provenance: Option<ProvenanceModel>,
    pub repair_actions: Seq<RepairAction>,
}

impl View for TextItem {
    type V = FactModel;

    open spec fn view(&self) -> FactModel {
        FactModel {
            id: self.id@,
            raw_text: self.raw_text@,
            raw_bbox: self.raw_bbox,
            bbox: self.bbox,
            rotation: self.rotation,
            baseline: self.baseline,
            style: match self.style {
                None => None,
                Some(style) => Some(style@),
            },
            source: self.source,
            quad: self.quad,
            confidence: self.confidence,
            extraction_order: self.extraction_order,
            final_order: self.final_order,
            watermark: self.watermark,
            provenance: match self.provenance {
                None => None,
                Some(provenance) => Some(provenance@),
            },
            repair_actions: self.repair_actions@,
        }
    }
}

/// What a list of text facts says.
pub open spec fn fact_models(items: Seq<TextItem>) -> Seq<FactModel> {
    Seq::new(items.len(), |i: int| items[i]@)
}

/// Something that went wrong on a page without stopping it.
#[derive(Debug)]
pub struct PageWarning {
    pub code: String,
    pub stage: String,
    pub message: String,
}

/// What a warning says.
#[verifier::ext_equal]
pub struct WarningModel {
    pub code: Seq<char>,
    pub stage: Seq<char>,
    pub message: Seq<char>,
}

impl View for PageWarning {
    type V = WarningModel;

    open spec fn view(&self) -> WarningModel {
        WarningModel { code: self.code@, stage: self.stage@, message: self.message@ }
    }
}

/// What a list of warnings says.
pub open spec fn warning_models(warnings: Seq<PageWarning>) -> Seq<WarningModel> {
    Seq::new(warnings.len(), |i: int| warnings[i]@)
}

impl PageWarning {
    /// A warning.
    pub fn new(code: &str, stage: &str, message: String) -> (warning: PageWarning)
        ensures
            warning@ == (WarningModel { code: code@, stage: stage@, message: message@ }),
    {
        let mut c: String = String::new();
        push_text(&mut c, code);
        let mut s: String = String::new();
        push_text(&mut s, stage);
        let warning = PageWarning { code: c, stage: s, message };
        assert(warning@ =~= (WarningModel { code: code@, stage: stage@, message: message@ }));
        warning
    }
}

/// Appends a warning.
pub fn warn(warnings: &mut Vec<PageWarning>, warning: PageWarning)
    ensures
        warning_models(final(warnings)@) == warning_models(old(warnings)@).push(warning@),
{
    let ghost before = warnings@;
    warnings.push(warning);
    assert(warning_models(warnings@) =~= warning_models(before).push(warning@));
}

/// Equal copies of facts.
pub fn copy_items(items: &Vec<TextItem>) -> (copies: Vec<TextItem>)
    ensures
        copies@ == items@,
{
    let mut copies: Vec<TextItem> = Vec::new();
    let mut i: usize = 0;
    while i < items.len()
        invariant
            i <= items@.len(),
            copies@ == items@.take(i as int),
        decreases items@.len() - i,
    {
        copies.push(items[i].copy());
        i = i + 1;
        assert(copies@ =~= items@.take(i as int));
    }
    assert(items@.take(items@.len() as int) =~= items@);
    copies
}

} // verus!
