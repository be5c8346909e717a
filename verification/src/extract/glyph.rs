//! Recovery of glyphs whose declared text says little about what is drawn.
//!
//! The caches of a font hold raw lookups only. Whether a lookup is used is
//! decided anew for each occurrence of a glyph.

use std::collections::HashMap;
use vstd::math::abs;
use vstd::prelude::*;
use vstd::utf8::encode_utf8;

use crate::chars::{
    alphanumeric, chars_of, is_control, is_control_code, is_scalar, is_space, is_whitespace,
    str_same,
};
use crate::geometry::{distance, Bbox};
use crate::text_rules::TextRules;
use crate::types::{has_action, RepairAction};

verus! {

/// What is known of one glyph of a page.
#[derive(Debug, Clone, Copy, PartialEq, Eq, Structural)]
pub struct GlyphRecord {
    pub unicode: u32,
    pub code: u32,
    pub generated: bool,
    pub map_error: bool,
    /// Whether the glyph has a box with an area.
    pub painted: bool,
    pub font: Option<usize>,
    /// The text object that draws the glyph.
    pub object: Option<u64>,
}

/// One source glyph with its text and the repairs it went through.
#[derive(Debug)]
pub struct ResolvedGlyph {
    pub character: char,
    pub tail: String,
    /// Repairs in the order in which they were made.
    pub repair_actions: Vec<RepairAction>,
    /// The font of the glyph.
    pub font: Option<usize>,
}

/// What is known of a resolved glyph.
#[verifier::ext_equal]
pub struct GlyphModel {
    pub character: char,
    pub tail: Seq<char>,
    pub repair_actions: Seq<RepairAction>,
    pub font: Option<usize>,
}

impl View for ResolvedGlyph {
    type V = GlyphModel;

    open spec fn view(&self) -> GlyphModel {
        GlyphModel {
            character: self.character,
            tail: self.tail@,
            repair_actions: self.repair_actions@,
            font: self.font,
        }
    }
}

/// The first `n` characters of a text with ligatures and marks normalized.
pub open spec fn plain_upto(rules: TextRules, s: Seq<char>, n: int) -> Seq<char>
    decreases n,
{
    if n <= 0 {
        Seq::empty()
    } else {
        plain_upto(rules, s, n - 1) + (match rules.letters(s[n - 1]) {
            Some(letters) => letters,
            None => seq![rules.mark(s[n - 1])],
        })
    }
}

/// Whether a mark among the characters is normalized.
pub open spec fn marks_change(rules: TextRules, s: Seq<char>) -> bool {
    exists|i: int| 0 <= i < s.len() && rules.mark(#[trigger] s[i]) != s[i]
}

impl GlyphModel {
    /// The glyph with its control code replaced.
    pub open spec fn decoded(self) -> GlyphModel {
        if self.character == '\u{1}' {
            GlyphModel { character: ' ', ..self }
        } else if self.character == '\u{2}' {
            GlyphModel {
                character: '-',
                repair_actions: self.repair_actions.push(RepairAction::EncodedHyphen),
                ..self
            }
        } else {
            self
        }
    }

    /// The glyph with its ligature expanded.
    pub open spec fn expanded(self, rules: TextRules) -> GlyphModel {
        let spread = match rules.letters(self.character) {
            Some(letters) => if letters.len() > 0 {
                GlyphModel {
                    character: letters[0],
                    tail: letters.skip(1) + self.tail,
                    ..self
                }
            } else {
                self
            },
            None => self,
        };
        if spread.tail.len() > 0 {
            GlyphModel {
                repair_actions: spread.repair_actions.push(RepairAction::LigatureExpansion),
                ..spread
            }
        } else {
            spread
        }
    }

    /// The glyph with its marks normalized.
    pub open spec fn plain(self, rules: TextRules) -> GlyphModel {
        let mark = rules.mark(self.character);
        GlyphModel {
            character: mark,
            tail: plain_upto(rules, self.tail, self.tail.len() as int),
            repair_actions: if mark != self.character || marks_change(rules, self.tail) {
                self.repair_actions.push(RepairAction::PunctuationNormalization)
            } else {
                self.repair_actions
            },
            font: self.font,
        }
    }

    /// The glyph with the removal of a control code noted.
    pub open spec fn cleaned(self) -> GlyphModel {
        if is_control_code(self.character) && self.character != '\n' && self.character != '\r' {
            GlyphModel { repair_actions: self.repair_actions.push(RepairAction::RemovedControl), ..self }
        } else {
            self
        }
    }

    /// The normalized glyph.
    pub open spec fn normalized(self, rules: TextRules) -> GlyphModel {
        self.decoded().expanded(rules).plain(rules).cleaned()
    }

    /// The text of the glyph.
    pub open spec fn text(self) -> Seq<char> {
        seq![self.character] + self.tail
    }

    /// Whether the text was looked up in the font.
    pub open spec fn recovered(self) -> bool {
        recovers(self.repair_actions)
    }

    /// A glyph of one character that nothing was done to.
    pub open spec fn of(c: char) -> GlyphModel {
        GlyphModel {
            character: c,
            tail: Seq::empty(),
            repair_actions: Seq::empty(),
            font: None,
        }
    }
}

/// The first letter of a ligature and the others; a character without letters stays.
fn spread_ligature(rules: &TextRules, character: char) -> (spread: (char, Vec<char>))
    ensures
        match rules.letters(character) {
            Some(letters) => if letters.len() > 0 {
                spread.0 == letters[0] && spread.1@ == letters.skip(1)
            } else {
                spread.0 == character && spread.1@.len() == 0
            },
            None => spread.0 == character && spread.1@.len() == 0,
        },
{
    let mut rest: Vec<char> = Vec::new();
    if let Some(letters) = rules.ligature_expansion(character) {
        if letters.len() > 0 {
            let mut k: usize = 1;
            while k < letters.len()
                invariant
                    1 <= k <= letters@.len(),
                    rest@ == letters@.subrange(1, k as int),
                decreases letters@.len() - k,
            {
                rest.push(letters[k]);
                k = k + 1;
                assert(rest@ =~= letters@.subrange(1, k as int));
            }
            assert(rest@ =~= letters@.skip(1));
            return (letters[0], rest);
        }
    }
    (character, rest)
}

/// Characters with ligatures and marks normalized, and whether a mark was.
fn plain_tail(rules: &TextRules, given: &Vec<char>) -> (plain: (String, bool))
    ensures
        plain.0@ == plain_upto(*rules, given@, given@.len() as int),
        plain.1 == marks_change(*rules, given@),
{
    let mut tail: String = String::new();
    let mut changed: bool = false;
    let mut i: usize = 0;
    assert(tail@ =~= plain_upto(*rules, given@, 0));
    while i < given.len()
        invariant
            i <= given@.len(),
            tail@ == plain_upto(*rules, given@, i as int),
            changed == exists|k: int| 0 <= k < i && rules.mark(#[trigger] given@[k]) != given@[k],
        decreases given@.len() - i,
    {
        let c: char = given[i];
        let ghost before = tail@;
        let mark: char = rules.normalize_punctuation(c);
        if mark != c {
            assert(rules.mark(given@[i as int]) != given@[i as int]);
            changed = true;
        }
        match rules.ligature_expansion(c) {
            Some(letters) => {
                let mut k: usize = 0;
                while k < letters.len()
                    invariant
                        k <= letters@.len(),
                        tail@ == before + letters@.take(k as int),
                    decreases letters@.len() - k,
                {
                    tail.push(letters[k]);
                    k = k + 1;
                    assert(tail@ =~= before + letters@.take(k as int));
                }
                assert(letters@.take(letters@.len() as int) =~= letters@);
            },
            None => {
                tail.push(mark);
                assert(tail@ =~= before + seq![mark]);
            },
        }
        i = i + 1;
    }
    (tail, changed)
}

/// Whether a repair is the recovery of a text from the font.
pub open spec fn recovers(actions: Seq<RepairAction>) -> bool {
    actions.contains(RepairAction::GlyphNameRecovery) || actions.contains(
        RepairAction::FontCmapRecovery,
    ) || actions.contains(RepairAction::GlyphOutlineRecovery)
}

/// Whether a repair is the recovery of a text from the font.
pub fn has_recovery(actions: &Vec<RepairAction>) -> (yes: bool)
    ensures
        yes == recovers(actions@),
{
    has_action(actions, RepairAction::GlyphNameRecovery) || has_action(
        actions,
        RepairAction::FontCmapRecovery,
    ) || has_action(actions, RepairAction::GlyphOutlineRecovery)
}

impl ResolvedGlyph {
    /// A glyph of one character that nothing was done to.
    pub fn of(character: char) -> (glyph: ResolvedGlyph)
        ensures
            glyph@ == GlyphModel::of(character),
    {
        let glyph = ResolvedGlyph {
            character,
            tail: String::new(),
            repair_actions: Vec::new(),
            font: None,
        };
        assert(glyph@ =~= GlyphModel::of(character));
        glyph
    }

    /// Normalizes native and recovered text once, retaining one source glyph and every repair.
    pub fn normalize(self, rules: &TextRules) -> (glyph: ResolvedGlyph)
        ensures
            glyph@ == self@.normalized(*rules),
    {
        let ghost given = self@;
        let mut character: char = self.character;
        let mut actions: Vec<RepairAction> = self.repair_actions;
        if character == '\u{1}' {
            character = ' ';
        } else if character == '\u{2}' {
            character = '-';
            actions.push(RepairAction::EncodedHyphen);
        }
        let ghost decoded = given.decoded();
        assert(decoded.character == character && decoded.repair_actions == actions@);
        let (first, mut spread): (char, Vec<char>) = spread_ligature(rules, character);
        character = first;
        let mut rest: Vec<char> = chars_of(self.tail.as_str());
        spread.append(&mut rest);
        let ghost expanded = decoded.expanded(*rules);
        assert(spread@ =~= expanded.tail);
        if spread.len() > 0 {
            actions.push(RepairAction::LigatureExpansion);
        }
        assert(expanded.character == character && expanded.repair_actions == actions@);
        let mark: char = rules.normalize_punctuation(character);
        let (tail, tail_changed): (String, bool) = plain_tail(rules, &spread);
        let changed: bool = mark != character || tail_changed;
        if changed {
            actions.push(RepairAction::PunctuationNormalization);
        }
        assert(GlyphModel {
            character: mark,
            tail: tail@,
            repair_actions: actions@,
            font: self.font,
        } =~= expanded.plain(*rules));
        if is_control(mark) && mark != '\n' && mark != '\r' {
            actions.push(RepairAction::RemovedControl);
        }
        let glyph = ResolvedGlyph {
            character: mark,
            tail,
            repair_actions: actions,
            font: self.font,
        };
        assert(glyph@ =~= given.normalized(*rules));
        glyph
    }
}

/// What a font declares of itself.
#[derive(Debug)]
pub struct FontFacts {
    pub embedded: bool,
    pub base_name: Option<String>,
    pub type1: bool,
    pub encoding: Option<String>,
    pub has_to_unicode: bool,
}

/// How far the text of a font can be trusted.
#[derive(Debug, Clone, Copy, PartialEq, Eq, Structural)]
pub struct FontTrust {
    pub untrusted: bool,
    pub encoding_lies: bool,
}

/// Whether a subset name says that the encoding is made up, from `i` on.
pub open spec fn names_subset(name: Seq<char>, i: int) -> bool
    decreases name.len() - i,
{
    if i + 2 >= name.len() {
        false
    } else if name[i] == '+' && name[i + 1] == 'T' && name[i + 2] == 'T' {
        true
    } else {
        names_subset(name, i + 1)
    }
}

/// Whether the name of an embedded font says that its encoding is made up.
pub open spec fn made_up_name(name: Seq<char>, type1: bool) -> bool {
    ||| name.len() >= 2 && name[0] == 'T' && name[1] == 'T'
    ||| names_subset(name, 0)
    ||| type1 && encode_utf8(name).len() > 6 && encode_utf8(name)[6] == 0x5F
}

/// Whether an encoding is one of the standard ones.
pub open spec fn standard_encoding(name: Seq<char>) -> bool {
    name == "WinAnsiEncoding"@ || name == "MacRomanEncoding"@ || name == "MacExpertEncoding"@
        || name == "StandardEncoding"@
}

/// How far the text of a font can be trusted.
pub open spec fn trust_of(font: FontFacts, garbage: bool) -> FontTrust {
    let lies = font.embedded && (font.base_name matches Some(name) && made_up_name(
        name@,
        font.type1,
    ));
    let standard = font.encoding matches Some(name) && standard_encoding(name@);
    FontTrust {
        untrusted: lies || (!font.has_to_unicode && !standard) || garbage,
        encoding_lies: lies,
    }
}

/// Whether the name of an embedded font says that its encoding is made up.
fn is_made_up(name: &str, type1: bool) -> (yes: bool)
    ensures
        yes == made_up_name(name@, type1),
{
    let all: Vec<char> = chars_of(name);
    let n: usize = all.len();
    if n >= 2 && all[0] == 'T' && all[1] == 'T' {
        return true;
    }
    let mut i: usize = 0;
    while n - i > 2
        invariant
            n == all@.len(),
            all@ == name@,
            i <= n,
            names_subset(all@, 0) == names_subset(all@, i as int),
        decreases n - i,
    {
        if all[i] == '+' && all[i + 1] == 'T' && all[i + 2] == 'T' {
            return true;
        }
        i = i + 1;
    }
    let bytes: &[u8] = name.as_bytes();
    type1 && bytes.len() > 6 && bytes[6] == 0x5F
}

impl FontTrust {
    /// Detects custom mappings and embedded subset fonts whose declared encoding is unreliable.
    pub fn new(font: &FontFacts, garbage: bool) -> (trust: FontTrust)
        ensures
            trust == trust_of(*font, garbage),
    {
        let lies: bool = font.embedded && (match &font.base_name {
            None => false,
            Some(name) => is_made_up(name.as_str(), font.type1),
        });
        let standard: bool = match &font.encoding {
            None => false,
            Some(name) => {
                let name: &str = name.as_str();
                str_same(name, "WinAnsiEncoding") || str_same(name, "MacRomanEncoding") || str_same(
                    name,
                    "MacExpertEncoding",
                ) || str_same(name, "StandardEncoding")
            },
        };
        FontTrust {
            untrusted: lies || (!font.has_to_unicode && !standard) || garbage,
            encoding_lies: lies,
        }
    }
}

/// Raw lookups of one code of a font: not made yet, without result, or a text.
#[derive(Debug)]
pub struct GlyphCandidates {
    pub name: Option<Option<String>>,
    pub cmap: Option<Option<String>>,
    pub outline: Option<Option<String>>,
}

/// What to do about the text of a glyph.
#[derive(Debug)]
pub enum Decoding {
    /// The declared text stays.
    Keep,
    /// A text was found.
    Found { text: String, action: RepairAction },
    /// The name of the glyph has to be looked up first.
    NeedName,
    /// The character map of the font has to be looked up first.
    NeedCmap,
    /// The outline of the glyph has to be resolved first.
    NeedOutline,
}

/// What is known of what to do about the text of a glyph.
#[verifier::ext_equal]
pub enum DecodingModel {
    Keep,
    Found { text: Seq<char>, action: RepairAction },
    NeedName,
    NeedCmap,
    NeedOutline,
}

impl View for Decoding {
    type V = DecodingModel;

    open spec fn view(&self) -> DecodingModel {
        match self {
            Decoding::Keep => DecodingModel::Keep,
            Decoding::Found { text, action } => DecodingModel::Found {
                text: text@,
                action: *action,
            },
            Decoding::NeedName => DecodingModel::NeedName,
            Decoding::NeedCmap => DecodingModel::NeedCmap,
            Decoding::NeedOutline => DecodingModel::NeedOutline,
        }
    }
}

/// Whether a looked-up text can be used at all.
pub open spec fn usable(rules: TextRules, text: Seq<char>) -> bool {
    &&& text.len() > 0
    &&& forall|i: int|
        0 <= i < text.len() ==> !is_control_code(#[trigger] text[i]) && !rules.suspects(
            text[i] as u32,
        )
}

/// Whether a text is one symbol.
pub open spec fn is_symbol(text: Seq<char>) -> bool {
    text.len() == 1 && text[0] as u32 > 0x7F && !alphanumeric(text[0]) && !is_space(text[0])
}

/// The declared character of a glyph.
pub open spec fn declared(record: GlyphRecord) -> Option<char> {
    if is_scalar(record.unicode as int) {
        Some(record.unicode as char)
    } else {
        None
    }
}

/// Whether a glyph may show another symbol than it declares.
pub open spec fn may_be_symbol(record: GlyphRecord) -> bool {
    match declared(record) {
        None => true,
        Some(c) => (record.unicode <= 0x7F || 0xFFFD <= record.unicode <= 0xFFFF) && (!is_space(c)
            || record.painted),
    }
}

/// Whether the declared text of a glyph is not to be believed.
pub open spec fn in_doubt(rules: TextRules, trust: FontTrust, record: GlyphRecord) -> bool {
    trust.untrusted || rules.suspects(record.unicode) || record.map_error
}

/// The outcome of the last lookup, by outline.
pub open spec fn outline_decoding(
    rules: TextRules,
    candidates: GlyphCandidates,
    resolver: bool,
) -> DecodingModel {
    if !resolver {
        DecodingModel::Keep
    } else {
        match candidates.outline {
            None => DecodingModel::NeedOutline,
            Some(None) => DecodingModel::Keep,
            Some(Some(text)) => if usable(rules, text@) {
                DecodingModel::Found { text: text@, action: RepairAction::GlyphOutlineRecovery }
            } else {
                DecodingModel::Keep
            },
        }
    }
}

/// The outcome of the lookups by character map and outline.
pub open spec fn cmap_decoding(
    rules: TextRules,
    record: GlyphRecord,
    candidates: GlyphCandidates,
    resolver: bool,
) -> DecodingModel {
    match candidates.cmap {
        None => DecodingModel::NeedCmap,
        Some(None) => outline_decoding(rules, candidates, resolver),
        Some(Some(text)) => if usable(rules, text@) && (text@[0] as u32 != record.code
            || text@[0] as u32 == record.unicode) {
            DecodingModel::Found { text: text@, action: RepairAction::FontCmapRecovery }
        } else {
            outline_decoding(rules, candidates, resolver)
        },
    }
}

/// What to do about the text of a glyph.
pub open spec fn decoding(
    rules: TextRules,
    trust: FontTrust,
    record: GlyphRecord,
    candidates: GlyphCandidates,
    resolver: bool,
) -> DecodingModel {
    let recover = in_doubt(rules, trust, record);
    let rest = if recover {
        cmap_decoding(rules, record, candidates, resolver)
    } else {
        DecodingModel::Keep
    };
    if !recover && !may_be_symbol(record) {
        DecodingModel::Keep
    } else if trust.encoding_lies {
        rest
    } else {
        match candidates.name {
            None => DecodingModel::NeedName,
            Some(None) => rest,
            Some(Some(text)) => if usable(rules, text@) && (recover || is_symbol(text@)) {
                DecodingModel::Found { text: text@, action: RepairAction::GlyphNameRecovery }
            } else {
                rest
            },
        }
    }
}

/// Whether a looked-up text can be used at all.
fn is_usable(rules: &TextRules, text: &str) -> (yes: bool)
    ensures
        yes == usable(*rules, text@),
{
    let all: Vec<char> = chars_of(text);
    let mut i: usize = 0;
    while i < all.len()
        invariant
            i <= all@.len(),
            all@ == text@,
            forall|k: int|
                0 <= k < i ==> !is_control_code(#[trigger] all@[k]) && !rules.suspects(
                    all@[k] as u32,
                ),
        decreases all@.len() - i,
    {
        if is_control(all[i]) || rules.suspicious_codepoint(all[i] as u32) {
            assert(text@[i as int] == all@[i as int]);
            return false;
        }
        i = i + 1;
    }
    all.len() > 0
}

/// Whether a text is one symbol.
fn is_one_symbol(text: &str) -> (yes: bool)
    ensures
        yes == is_symbol(text@),
{
    let all: Vec<char> = chars_of(text);
    all.len() == 1 && all[0] as u32 > 0x7F && !all[0].is_alphanumeric() && !is_whitespace(all[0])
}

/// The last lookup, by outline.
fn decode_outline(rules: &TextRules, candidates: &GlyphCandidates, resolver: bool) -> (decoding:
    Decoding)
    ensures
        decoding@ == outline_decoding(*rules, *candidates, resolver),
{
    if !resolver {
        return Decoding::Keep;
    }
    match &candidates.outline {
        None => Decoding::NeedOutline,
        Some(None) => Decoding::Keep,
        Some(Some(text)) => {
            if is_usable(rules, text.as_str()) {
                Decoding::Found { text: text.clone(), action: RepairAction::GlyphOutlineRecovery }
            } else {
                Decoding::Keep
            }
        },
    }
}

/// The lookups by character map and outline.
fn decode_cmap(
    rules: &TextRules,
    record: &GlyphRecord,
    candidates: &GlyphCandidates,
    resolver: bool,
) -> (decoding: Decoding)
    ensures
        decoding@ == cmap_decoding(*rules, *record, *candidates, resolver),
{
    match &candidates.cmap {
        None => Decoding::NeedCmap,
        Some(None) => decode_outline(rules, candidates, resolver),
        Some(Some(text)) => {
            if is_usable(rules, text.as_str()) {
                let first: u32 = chars_of(text.as_str())[0] as u32;
                if first != record.code || first == record.unicode {
                    return Decoding::Found {
                        text: text.clone(),
                        action: RepairAction::FontCmapRecovery,
                    };
                }
            }
            decode_outline(rules, candidates, resolver)
        },
    }
}

impl FontTrust {
    /// Chooses a raw candidate for this occurrence, or says which lookup is needed first.
    pub fn decode(
        &self,
        rules: &TextRules,
        record: &GlyphRecord,
        candidates: &GlyphCandidates,
        resolver: bool,
    ) -> (decoded: Decoding)
        ensures
            decoded@ == decoding(*rules, *self, *record, *candidates, resolver),
    {
        let recover: bool = self.untrusted || rules.suspicious_codepoint(record.unicode)
            || record.map_error;
        let symbol: bool = match char::from_u32(record.unicode) {
            None => true,
            Some(c) => (record.unicode <= 0x7F || (0xFFFD <= record.unicode && record.unicode
                <= 0xFFFF)) && (!is_whitespace(c) || record.painted),
        };
        if !recover && !symbol {
            return Decoding::Keep;
        }
        if !self.encoding_lies {
            match &candidates.name {
                None => {
                    return Decoding::NeedName;
                },
                Some(None) => {},
                Some(Some(text)) => {
                    if is_usable(rules, text.as_str()) && (recover || is_one_symbol(
                        text.as_str(),
                    )) {
                        return Decoding::Found {
                            text: text.clone(),
                            action: RepairAction::GlyphNameRecovery,
                        };
                    }
                },
            }
        }
        if !recover {
            return Decoding::Keep;
        }
        decode_cmap(rules, record, candidates, resolver)
    }
}

/// The text that the character map of a font gives for a glyph.
pub open spec fn mapped(map: Map<u32, u32>, glyph: u32) -> Option<Seq<char>> {
    if map.dom().contains(glyph) && is_scalar(map[glyph] as int) {
        Some(seq![map[glyph] as char])
    } else {
        None
    }
}

/// The text that the character map of a font gives for a glyph.
pub fn mapped_text(map: &HashMap<u32, u32>, glyph: u32) -> (text: Option<String>)
    ensures
        match text {
            None => mapped(map@, glyph) is None,
            Some(found) => mapped(map@, glyph) == Some(found@),
        },
{
    broadcast use vstd::std_specs::hash::group_hash_axioms;

    match map.get(&glyph) {
        None => None,
        Some(code) => match char::from_u32(*code) {
            None => None,
            Some(c) => {
                let mut text: String = String::new();
                text.push(c);
                assert(text@ =~= seq![c]);
                Some(text)
            },
        },
    }
}

/// Whether a glyph counts when fonts are sampled.
pub open spec fn is_sampled(record: GlyphRecord) -> bool {
    !record.generated && record.unicode != 0x09 && record.unicode != 0x0A && record.unicode != 0x0D
        && record.unicode != 0x20
}

/// How many of the first `n` glyphs of a font count.
pub open spec fn sampled_upto(records: Seq<GlyphRecord>, font: usize, n: int) -> nat
    decreases n,
{
    if n <= 0 {
        0
    } else {
        sampled_upto(records, font, n - 1) + if is_sampled(records[n - 1]) && records[n - 1].font
            == Some(font) {
            1nat
        } else {
            0
        }
    }
}

/// How many of the first `n` glyphs of a font count and are suspicious.
pub open spec fn doubted_upto(
    rules: TextRules,
    records: Seq<GlyphRecord>,
    font: usize,
    n: int,
) -> nat
    decreases n,
{
    if n <= 0 {
        0
    } else {
        doubted_upto(rules, records, font, n - 1) + if is_sampled(records[n - 1])
            && records[n - 1].font == Some(font) && rules.suspects(records[n - 1].unicode) {
            1nat
        } else {
            0
        }
    }
}

/// Whether a font shows at least twenty glyphs, a tenth of them suspicious.
pub open spec fn is_garbage(rules: TextRules, records: Seq<GlyphRecord>, font: usize) -> bool {
    let total = sampled_upto(records, font, records.len() as int);
    let doubted = doubted_upto(rules, records, font, records.len() as int);
    total >= 20 && 10 * doubted >= total
}

/// The fonts, in the order of their first glyphs among the first `n`, whose text is garbage.
pub open spec fn garbage_upto(rules: TextRules, records: Seq<GlyphRecord>, n: int) -> Seq<usize>
    decreases n,
{
    if n <= 0 {
        Seq::empty()
    } else {
        let before = garbage_upto(rules, records, n - 1);
        match records[n - 1].font {
            Some(font) => if !before.contains(font) && is_garbage(rules, records, font) {
                before.push(font)
            } else {
                before
            },
            None => before,
        }
    }
}

/// Whether a font is in a list.
fn has_font(fonts: &Vec<usize>, font: usize) -> (yes: bool)
    ensures
        yes == fonts@.contains(font),
{
    let mut i: usize = 0;
    while i < fonts.len()
        invariant
            i <= fonts@.len(),
            forall|k: int| 0 <= k < i ==> #[trigger] fonts@[k] != font,
        decreases fonts@.len() - i,
    {
        if fonts[i] == font {
            return true;
        }
        i = i + 1;
    }
    false
}

/// Whether a font shows at least twenty glyphs, a tenth of them suspicious.
fn is_garbage_font(rules: &TextRules, records: &Vec<GlyphRecord>, font: usize) -> (yes: bool)
    ensures
        yes == is_garbage(*rules, records@, font),
{
    let mut total: usize = 0;
    let mut doubted: usize = 0;
    let mut i: usize = 0;
    while i < records.len()
        invariant
            doubted <= total <= i <= records@.len(),
            total == sampled_upto(records@, font, i as int),
            doubted == doubted_upto(*rules, records@, font, i as int),
        decreases records@.len() - i,
    {
        let record: GlyphRecord = records[i];
        let mine: bool = match record.font {
            None => false,
            Some(key) => key == font,
        };
        if mine && !record.generated && record.unicode != 0x09 && record.unicode != 0x0A
            && record.unicode != 0x0D && record.unicode != 0x20 {
            total = total + 1;
            if rules.suspicious_codepoint(record.unicode) {
                doubted = doubted + 1;
            }
        }
        i = i + 1;
    }
    total >= 20 && 10 * (doubted as u128) >= total as u128
}

/// The fonts of a page whose text is garbage, and how many glyphs were recovered.
#[derive(Debug)]
pub struct GlyphNormalizer {
    pub garbage_fonts: Vec<usize>,
    pub recovered_count: usize,
}

/// The text of glyphs around one, as far as they belong together.
pub open spec fn around_upto(
    rules: TextRules,
    records: Seq<GlyphRecord>,
    index: int,
    start: int,
    n: int,
) -> Seq<char>
    decreases n,
{
    if n <= 0 {
        Seq::empty()
    } else {
        let record = records[start + n - 1];
        around_upto(rules, records, index, start, n - 1).push(
            if !record.generated && record.code == records[index].code && record.object
                == records[index].object && is_scalar(record.unicode as int) {
                rules.mark(record.unicode as char)
            } else {
                '\0'
            },
        )
    }
}

/// Whether an occurrence of a text, searched from `i` on without overlaps,
/// covers a position.
pub open spec fn covered(text: Seq<char>, part: Seq<char>, position: int, i: int) -> bool
    decreases text.len() - i,
{
    if part.len() == 0 || i < 0 || i + part.len() > text.len() {
        false
    } else if text.subrange(i, i + part.len()) == part {
        i <= position < i + part.len() || covered(text, part, position, i + part.len())
    } else {
        covered(text, part, position, i + 1)
    }
}

/// Whether the glyphs around one already spell its decoded text.
pub open spec fn expanded_around(
    rules: TextRules,
    records: Seq<GlyphRecord>,
    index: int,
    text: Seq<char>,
) -> bool {
    let count = text.len() as int;
    let start = if index - (count - 1) > 0 {
        index - (count - 1)
    } else {
        0
    };
    let end = if index + count < records.len() {
        index + count
    } else {
        records.len() as int
    };
    &&& 2 <= count <= i32::MAX
    &&& 0 <= index < records.len()
    &&& records[index].object is Some
    &&& covered(
        around_upto(rules, records, index, start, end - start),
        text,
        index - start,
        0,
    )
}

/// The declared character of a glyph, unless it is no text.
pub open spec fn textual(record: GlyphRecord) -> Option<char> {
    match declared(record) {
        None => None,
        Some(c) => if c == '\0' || c == '\u{FFFE}' || c == '\u{FFFF}' {
            None
        } else {
            Some(c)
        },
    }
}

/// The glyph of the declared character.
pub open spec fn declared_glyph(rules: TextRules, record: GlyphRecord) -> Option<GlyphModel> {
    match textual(record) {
        None => None,
        Some(c) => Some(GlyphModel::of(c).normalized(rules)),
    }
}

/// Whether a looked-up text confirms the declared character.
pub open spec fn confirms(record: GlyphRecord, text: Seq<char>) -> bool {
    !record.map_error && textual(record) is Some && text == seq![textual(record)->0]
}

/// The glyph at a position, by what was found in its font.
pub open spec fn resolved_glyph(
    rules: TextRules,
    records: Seq<GlyphRecord>,
    index: int,
    found: Option<(Seq<char>, RepairAction)>,
) -> Option<GlyphModel> {
    let record = records[index];
    let glyph = match found {
        Some((text, action)) => if record.generated || confirms(record, text) {
            declared_glyph(rules, record)
        } else if text.len() == 0 {
            None
        } else {
            Some(
                (GlyphModel {
                    character: text[0],
                    tail: text.skip(1),
                    repair_actions: seq![action],
                    font: None,
                }).normalized(rules),
            )
        },
        None => declared_glyph(rules, record),
    };
    let chosen = match glyph {
        None => None,
        Some(made) => if !record.generated && made.tail.len() > 0 && expanded_around(
            rules,
            records,
            index,
            made.text(),
        ) {
            declared_glyph(rules, record)
        } else {
            glyph
        },
    };
    match chosen {
        None => None,
        Some(made) => Some(
            GlyphModel {
                font: if record.generated {
                    None
                } else {
                    record.font
                },
                ..made
            },
        ),
    }
}

/// Whether an occurrence of a text covers a position.
fn is_covered(text: &Vec<char>, part: &Vec<char>, position: usize) -> (yes: bool)
    requires
        part@.len() > 0,
    ensures
        yes == covered(text@, part@, position as int, 0),
{
    let n: usize = text.len();
    let m: usize = part.len();
    let mut i: usize = 0;
    while m <= n && i <= n - m
        invariant
            n == text@.len(),
            m == part@.len(),
            0 < m,
            i <= n,
            covered(text@, part@, position as int, 0) == covered(
                text@,
                part@,
                position as int,
                i as int,
            ),
        decreases n - i,
    {
        let mut k: usize = 0;
        while k < m && text[i + k] == part[k]
            invariant
                n == text@.len(),
                m == part@.len(),
                i + m <= n,
                k <= m,
                forall|p: int| 0 <= p < k ==> text@[i + p] == #[trigger] part@[p],
            decreases m - k,
        {
            k = k + 1;
        }
        if k == m {
            assert(text@.subrange(i as int, i + m) =~= part@);
            if i <= position && position < i + m {
                return true;
            }
            i = i + m;
        } else {
            assert(text@.subrange(i as int, i + m)[k as int] != part@[k as int]);
            i = i + 1;
        }
    }
    false
}

impl GlyphNormalizer {
    /// Flags fonts with at least twenty sampled glyphs and ten percent suspicious mappings.
    pub fn new(rules: &TextRules, records: &Vec<GlyphRecord>) -> (normalizer: GlyphNormalizer)
        ensures
            normalizer.garbage_fonts@ == garbage_upto(*rules, records@, records@.len() as int),
            normalizer.recovered_count == 0,
    {
        let mut fonts: Vec<usize> = Vec::new();
        let mut i: usize = 0;
        while i < records.len()
            invariant
                i <= records@.len(),
                fonts@ == garbage_upto(*rules, records@, i as int),
            decreases records@.len() - i,
        {
            if let Some(font) = records[i].font {
                if !has_font(&fonts, font) && is_garbage_font(rules, records, font) {
                    fonts.push(font);
                }
            }
            i = i + 1;
        }
        GlyphNormalizer { garbage_fonts: fonts, recovered_count: 0 }
    }

    /// Confirms a complete decoded sequence around this index with one source code and text object.
    pub fn already_expanded(
        rules: &TextRules,
        records: &Vec<GlyphRecord>,
        index: usize,
        text: &Vec<char>,
    ) -> (yes: bool)
        ensures
            yes == expanded_around(*rules, records@, index as int, text@),
    {
        let count: usize = text.len();
        let total: usize = records.len();
        if count < 2 || count > i32::MAX as usize || index >= total {
            return false;
        }
        let current: GlyphRecord = records[index];
        if current.object.is_none() {
            return false;
        }
        let start: usize = if index > count - 1 {
            index - (count - 1)
        } else {
            0
        };
        let end: usize = if count < total - index {
            index + count
        } else {
            total
        };
        let mut around: Vec<char> = Vec::new();
        let mut k: usize = start;
        while k < end
            invariant
                total == records@.len(),
                index < total,
                current == records@[index as int],
                start <= k <= end <= total,
                around@ == around_upto(*rules, records@, index as int, start as int, k - start),
            decreases end - k,
        {
            let record: GlyphRecord = records[k];
            let mut value: char = '\0';
            if !record.generated && record.code == current.code && record.object
                == current.object {
                if let Some(c) = char::from_u32(record.unicode) {
                    value = rules.normalize_punctuation(c);
                }
            }
            around.push(value);
            k = k + 1;
        }
        is_covered(&around, text, index - start)
    }

    /// The glyph of the declared character.
    fn declared_or_none(rules: &TextRules, record: &GlyphRecord) -> (glyph: Option<ResolvedGlyph>)
        ensures
            match glyph {
                None => declared_glyph(*rules, *record) is None,
                Some(made) => declared_glyph(*rules, *record) == Some(made@),
            },
    {
        match char::from_u32(record.unicode) {
            None => None,
            Some(c) => {
                if c == '\0' || c == '\u{FFFE}' || c == '\u{FFFF}' {
                    None
                } else {
                    Some(ResolvedGlyph::of(c).normalize(rules))
                }
            },
        }
    }

    /// Whether a looked-up text confirms the declared character.
    fn is_confirmed(record: &GlyphRecord, text: &Vec<char>) -> (yes: bool)
        ensures
            yes == confirms(*record, text@),
    {
        if record.map_error || text.len() != 1 {
            return false;
        }
        match char::from_u32(record.unicode) {
            None => false,
            Some(c) => {
                if c == '\0' || c == '\u{FFFE}' || c == '\u{FFFF}' || text[0] != c {
                    false
                } else {
                    assert(text@ =~= seq![c]);
                    true
                }
            },
        }
    }

    /// Resolves a glyph before dropping invalid fallback scalars or segmenting its text.
    pub fn resolve(
        &mut self,
        rules: &TextRules,
        records: &Vec<GlyphRecord>,
        index: usize,
        found: Option<(String, RepairAction)>,
    ) -> (glyph: Option<ResolvedGlyph>)
        requires
            index < records@.len(),
            old(self).recovered_count < usize::MAX,
        ensures
            ({
                let known = match found {
                    None => None::<(Seq<char>, RepairAction)>,
                    Some((text, action)) => Some((text@, action)),
                };
                let want = resolved_glyph(*rules, records@, index as int, known);
                &&& match glyph {
                    None => want is None,
                    Some(made) => want == Some(made@),
                }
                &&& final(self).recovered_count == old(self).recovered_count + if want is Some
                    && want->0.recovered() && !records@[index as int].generated {
                    1int
                } else {
                    0
                }
            }),
            final(self).garbage_fonts == old(self).garbage_fonts,
    {
        let record: GlyphRecord = records[index];
        let glyph: ResolvedGlyph = match found {
            Some((text, action)) => {
                let all: Vec<char> = chars_of(text.as_str());
                if record.generated || GlyphNormalizer::is_confirmed(&record, &all) {
                    match GlyphNormalizer::declared_or_none(rules, &record) {
                        None => {
                            return None;
                        },
                        Some(glyph) => glyph,
                    }
                } else if all.len() == 0 {
                    return None;
                } else {
                    let mut tail: String = String::new();
                    let mut k: usize = 1;
                    while k < all.len()
                        invariant
                            1 <= k <= all@.len(),
                            tail@ == all@.subrange(1, k as int),
                        decreases all@.len() - k,
                    {
                        tail.push(all[k]);
                        k = k + 1;
                        assert(tail@ =~= all@.subrange(1, k as int));
                    }
                    assert(tail@ =~= all@.skip(1));
                    ResolvedGlyph {
                        character: all[0],
                        tail,
                        repair_actions: vec![action],
                        font: None,
                    }.normalize(rules)
                }
            },
            None => match GlyphNormalizer::declared_or_none(rules, &record) {
                None => {
                    return None;
                },
                Some(glyph) => glyph,
            },
        };
        let mut text: Vec<char> = Vec::new();
        text.push(glyph.character);
        let mut tail: Vec<char> = chars_of(glyph.tail.as_str());
        let spread: bool = tail.len() > 0;
        text.append(&mut tail);
        assert(text@ =~= glyph@.text());
        let glyph: ResolvedGlyph = if !record.generated && spread
            && GlyphNormalizer::already_expanded(rules, records, index, &text) {
            match GlyphNormalizer::declared_or_none(rules, &record) {
                None => {
                    return None;
                },
                Some(plain) => plain,
            }
        } else {
            glyph
        };
        if !record.generated && has_recovery(&glyph.repair_actions) {
            self.recovered_count = self.recovered_count + 1;
        }
        let ghost chosen = glyph@;
        let font: Option<usize> = if record.generated {
            None
        } else {
            record.font
        };
        let glyph = ResolvedGlyph { font, ..glyph };
        assert(glyph@ =~= GlyphModel { font, ..chosen });
        Some(glyph)
    }

    /// Combines only coincident half-circle and outline overlays.
    pub fn compose(previous: char, previous_box: &Bbox, incoming: char, incoming_box: &Bbox) -> (composed:
        Option<char>)
        ensures
            composed == composed_of(previous, *previous_box, incoming, *incoming_box),
    {
        let (half, circle): (Bbox, Bbox) = if previous == '\u{25D6}' && incoming == '\u{25CB}' {
            (*previous_box, *incoming_box)
        } else if previous == '\u{25CB}' && incoming == '\u{25D6}' {
            (*incoming_box, *previous_box)
        } else {
            return None;
        };
        let height: i128 = circle.height() as i128;
        let tolerance: i128 = if height > 20_000 {
            height
        } else {
            20_000
        };
        if 20 * distance(half.left as i64, circle.left as i64) <= tolerance && 20 * distance(
            half.top as i64,
            circle.top as i64,
        ) <= tolerance && 20 * distance(half.bottom as i64, circle.bottom as i64) <= tolerance {
            let w: i64 = circle.width();
            let h: i64 = half.width();
            if w > 0 && distance(10 * h, 5 * w) <= w as i128 {
                return Some('\u{25D0}');
            }
        }
        None
    }
}

/// Whether a half circle lies on the left half of a circle.
pub open spec fn overlays(half: Bbox, circle: Bbox) -> bool {
    let tolerance = if circle.high() > 20_000 {
        circle.high()
    } else {
        20_000
    };
    &&& 20 * abs(half.left - circle.left) <= tolerance
    &&& 20 * abs(half.top - circle.top) <= tolerance
    &&& 20 * abs(half.bottom - circle.bottom) <= tolerance
    &&& circle.wide() > 0
    &&& abs(10 * half.wide() - 5 * circle.wide()) <= circle.wide()
}

/// The character that a half circle and a circle make together.
pub open spec fn composed_of(
    previous: char,
    previous_box: Bbox,
    incoming: char,
    incoming_box: Bbox,
) -> Option<char> {
    if previous == '\u{25D6}' && incoming == '\u{25CB}' && overlays(previous_box, incoming_box) {
        Some('\u{25D0}')
    } else if previous == '\u{25CB}' && incoming == '\u{25D6}' && overlays(
        incoming_box,
        previous_box,
    ) {
        Some('\u{25D0}')
    } else {
        None
    }
}

impl TextRules {
    /// Whether every ligature stands for at least one letter.
    pub open spec fn spells(self) -> bool {
        forall|c: char|
            #![trigger self.letters(c)]
            self.letters(c) is Some ==> self.letters(c)->0.len() > 0
    }
}

impl GlyphModel {
    /// The repairs that normalizing the glyph makes, in their order.
    pub open spec fn added(self, rules: TextRules) -> Seq<RepairAction> {
        let spread = self.decoded().expanded(rules);
        let plain = spread.plain(rules);
        (if self.character == '\u{2}' {
            seq![RepairAction::EncodedHyphen]
        } else {
            Seq::empty()
        }) + (if spread.tail.len() > 0 {
            seq![RepairAction::LigatureExpansion]
        } else {
            Seq::empty()
        }) + (if plain.character != spread.character || marks_change(rules, spread.tail) {
            seq![RepairAction::PunctuationNormalization]
        } else {
            Seq::empty()
        }) + (if is_control_code(plain.character) && plain.character != '\n' && plain.character
            != '\r' {
            seq![RepairAction::RemovedControl]
        } else {
            Seq::empty()
        })
    }
}

/// A normalized tail is empty only where there was none.
proof fn lemma_plain_empty(rules: TextRules, s: Seq<char>, n: int)
    requires
        rules.spells(),
        0 <= n <= s.len(),
    ensures
        plain_upto(rules, s, n).len() >= n,
    decreases n,
{
    if n > 0 {
        lemma_plain_empty(rules, s, n - 1);
        assert(rules.letters(s[n - 1]) is Some ==> rules.letters(s[n - 1])->0.len() > 0);
    }
}

/// Normalizing keeps the font and the repairs that came with a glyph, in front and in their
/// order. Its text and the repairs it adds do not depend on them. The expansion is added once
/// where more than one character remains, and else not; an encoded hyphen is noted and an
/// encoded blank is not.
pub proof fn normalization_forgets_recovery(a: GlyphModel, b: GlyphModel, rules: TextRules)
    requires
        a.character == b.character,
        a.tail == b.tail,
        rules.spells(),
    ensures
        a.normalized(rules).text() == b.normalized(rules).text(),
        a.added(rules) == b.added(rules),
        a.normalized(rules).repair_actions == a.repair_actions + a.added(rules),
        b.normalized(rules).repair_actions == b.repair_actions + b.added(rules),
        a.normalized(rules).font == a.font,
        b.normalized(rules).font == b.font,
        a.added(rules).to_multiset().count(RepairAction::LigatureExpansion) == (if a.normalized(
            rules,
        ).tail.len() > 0 {
            1nat
        } else {
            0nat
        }),
        a.character == '\u{2}' ==> a.decoded().character == '-' && a.added(rules).len() > 0
            && a.added(rules)[0] == RepairAction::EncodedHyphen,
        a.character == '\u{1}' ==> a.decoded() == (GlyphModel { character: ' ', ..a }),
{
    broadcast use vstd::seq_lib::group_to_multiset_ensures;

    let spread = a.decoded().expanded(rules);
    lemma_plain_empty(rules, spread.tail, spread.tail.len() as int);
    if spread.tail.len() == 0 {
        assert(plain_upto(rules, spread.tail, 0) =~= Seq::empty());
    }
    assert(a.normalized(rules).repair_actions =~= a.repair_actions + a.added(rules));
    assert(b.normalized(rules).repair_actions =~= b.repair_actions + b.added(rules));
    lemma_added_once(a, rules);
}

/// The expansion is added at most once.
proof fn lemma_added_once(a: GlyphModel, rules: TextRules)
    ensures
        a.added(rules).to_multiset().count(RepairAction::LigatureExpansion) == (if a.decoded().expanded(
            rules,
        ).tail.len() > 0 {
            1nat
        } else {
            0nat
        }),
{
    broadcast use vstd::seq_lib::group_to_multiset_ensures;

    let spread = a.decoded().expanded(rules);
    let plain = spread.plain(rules);
    let x = Seq::<RepairAction>::empty();
    let x1 = if a.character == '\u{2}' {
        x.push(RepairAction::EncodedHyphen)
    } else {
        x
    };
    let x2 = if spread.tail.len() > 0 {
        x1.push(RepairAction::LigatureExpansion)
    } else {
        x1
    };
    let x3 = if plain.character != spread.character || marks_change(rules, spread.tail) {
        x2.push(RepairAction::PunctuationNormalization)
    } else {
        x2
    };
    let x4 = if is_control_code(plain.character) && plain.character != '\n' && plain.character
        != '\r' {
        x3.push(RepairAction::RemovedControl)
    } else {
        x3
    };
    assert(a.added(rules) =~= x4);
}

/// Looking up more than an occurrence needs does not change what is decided of it.
pub proof fn caches_hold_no_decisions(
    rules: TextRules,
    trust: FontTrust,
    record: GlyphRecord,
    candidates: GlyphCandidates,
    fuller: GlyphCandidates,
    resolver: bool,
)
    requires
        candidates.name is Some ==> fuller.name == candidates.name,
        candidates.cmap is Some ==> fuller.cmap == candidates.cmap,
        candidates.outline is Some ==> fuller.outline == candidates.outline,
    ensures
        ({
            let first = decoding(rules, trust, record, candidates, resolver);
            first is Keep || first is Found ==> decoding(rules, trust, record, fuller, resolver)
                == first
        }),
{
}

} // verus!
