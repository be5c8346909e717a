//! When the text of a glyph is believed, and where another is looked for.

use vstd::prelude::*;
use vstd::utf8::encode_utf8;

use crate::chars::{alphanumeric, is_space};
use crate::extract::glyph::{
    composed_of, confirms, decoding, garbage_upto, is_garbage, mapped, names_subset, resolved_glyph,
    sampled_upto, doubted_upto, trust_of, DecodingModel, FontFacts, FontTrust, GlyphCandidates,
    GlyphModel, GlyphRecord,
};
use crate::geometry::Bbox;
use crate::line::assembly_laws::apart;
use crate::text_rules::TextRules;
use crate::types::RepairAction;

verus! {

proof fn lemma_subset(name: Seq<char>, from: int)
    requires
        0 <= from,
    ensures
        names_subset(name, from) <==> exists|i: int|
            from <= i && i + 2 < name.len() && #[trigger] name[i] == '+' && name[i + 1] == 'T'
                && name[i + 2] == 'T',
    decreases name.len() - from,
{
    if from + 2 < name.len() {
        lemma_subset(name, from + 1);
        if names_subset(name, from) {
            if name[from] == '+' && name[from + 1] == 'T' && name[from + 2] == 'T' {
                assert(name[from] == '+');
            } else {
                let i = choose|i: int|
                    from + 1 <= i && i + 2 < name.len() && #[trigger] name[i] == '+' && name[i + 1]
                        == 'T' && name[i + 2] == 'T';
                assert(name[i] == '+');
            }
        }
    }
}

/// The encoding of an embedded font is made up where its name starts with two letters T, has them
/// behind a plus sign, or, for a font of the first type, has an underscore as its seventh byte. A
/// font is not trusted where its encoding is made up, where it neither maps to Unicode nor states
/// a standard encoding, or where it shows garbage.
pub proof fn fonts_are_trusted_by_their_names(font: FontFacts, garbage: bool)
    ensures
        trust_of(font, garbage).encoding_lies <==> font.embedded && font.base_name is Some && {
            let name = font.base_name->0@;
            ||| name.len() >= 2 && name[0] == 'T' && name[1] == 'T'
            ||| exists|i: int|
                0 <= i && i + 2 < name.len() && #[trigger] name[i] == '+' && name[i + 1] == 'T'
                    && name[i + 2] == 'T'
            ||| font.type1 && encode_utf8(name).len() >= 7 && encode_utf8(name)[6] == 95
        },
        trust_of(font, garbage).encoding_lies ==> trust_of(font, garbage).untrusted,
        garbage ==> trust_of(font, garbage).untrusted,
        !trust_of(font, garbage).encoding_lies && !garbage ==> (trust_of(font, garbage).untrusted
            <==> !font.has_to_unicode && (font.encoding is None || (font.encoding->0@
            != "WinAnsiEncoding"@ && font.encoding->0@ != "MacRomanEncoding"@ && font.encoding->0@
            != "MacExpertEncoding"@ && font.encoding->0@ != "StandardEncoding"@))),
{
    if font.base_name is Some {
        lemma_subset(font.base_name->0@, 0);
    }
}

/// Whether a looked-up text can be shown: it has characters, and none is a control code or one
/// that says little.
pub open spec fn can_be_shown(rules: TextRules, text: Seq<char>) -> bool {
    text.len() > 0 && forall|i: int|
        0 <= i < text.len() ==> {
            let u = #[trigger] text[i] as u32;
            u >= 32 && !(127 <= u <= 159) && !rules.suspects(u)
        }
}

proof fn lemma_shown(rules: TextRules, text: Seq<char>)
    ensures
        crate::extract::glyph::usable(rules, text) <==> can_be_shown(rules, text),
{
    if crate::extract::glyph::usable(rules, text) {
        assert forall|i: int| 0 <= i < text.len() implies {
            let u = #[trigger] text[i] as u32;
            u >= 32 && !(127 <= u <= 159) && !rules.suspects(u)
        } by {
            lemma_code(text[i]);
        }
    }
    if can_be_shown(rules, text) {
        assert forall|i: int| 0 <= i < text.len() implies !crate::chars::is_control_code(
            #[trigger] text[i],
        ) && !rules.suspects(text[i] as u32) by {
            let u = text[i] as u32;
            lemma_code(text[i]);
        }
    }
}

proof fn lemma_code(c: char)
    ensures
        crate::chars::is_control_code(c) <==> (c as u32) < 32 || 127 <= c as u32 <= 159,
{
}

/// A character beyond the basic letters that its font is trusted with and maps is kept, whatever
/// else could be looked up.
pub proof fn trusted_text_is_kept(
    rules: TextRules,
    trust: FontTrust,
    record: GlyphRecord,
    candidates: GlyphCandidates,
    resolver: bool,
)
    requires
        !trust.untrusted,
        !rules.suspects(record.unicode),
        !record.map_error,
        127 < record.unicode < 0xD800 || 0xE000 <= record.unicode < 0xFFFD || 0x1_0000
            <= record.unicode <= 0x10_FFFF,
    ensures
        decoding(rules, trust, record, candidates, resolver) == DecodingModel::Keep,
{
}

/// Doubtful text is looked up by the name of its glyph, then in the character map, then by its
/// outline where there is a resolver. The first answer that can be shown stands, but an answer of
/// the character map that only repeats the code of the glyph does not. A font that lies about its
/// encoding is not asked for names.
pub proof fn doubtful_text_is_looked_up_in_turn(
    rules: TextRules,
    trust: FontTrust,
    record: GlyphRecord,
    candidates: GlyphCandidates,
    resolver: bool,
)
    requires
        trust.untrusted || rules.suspects(record.unicode) || record.map_error,
        candidates.name is Some,
        candidates.cmap is Some,
        candidates.outline is Some,
    ensures
        ({
            let found = decoding(rules, trust, record, candidates, resolver);
            let by_name = !trust.encoding_lies && candidates.name->0 is Some && can_be_shown(
                rules,
                candidates.name->0->0@,
            );
            let by_map = candidates.cmap->0 is Some && can_be_shown(rules, candidates.cmap->0->0@)
                && (candidates.cmap->0->0@[0] as u32 != record.code || candidates.cmap->0->0@[0]
                as u32 == record.unicode);
            let by_outline = resolver && candidates.outline->0 is Some && can_be_shown(
                rules,
                candidates.outline->0->0@,
            );
            &&& by_name ==> found == (DecodingModel::Found {
                text: candidates.name->0->0@,
                action: RepairAction::GlyphNameRecovery,
            })
            &&& !by_name && by_map ==> found == (DecodingModel::Found {
                text: candidates.cmap->0->0@,
                action: RepairAction::FontCmapRecovery,
            })
            &&& !by_name && !by_map && by_outline ==> found == (DecodingModel::Found {
                text: candidates.outline->0->0@,
                action: RepairAction::GlyphOutlineRecovery,
            })
            &&& !by_name && !by_map && !by_outline ==> found == DecodingModel::Keep
        }),
{
    if candidates.name->0 is Some {
        lemma_shown(rules, candidates.name->0->0@);
    }
    if candidates.cmap->0 is Some {
        lemma_shown(rules, candidates.cmap->0->0@);
    }
    if candidates.outline->0 is Some {
        lemma_shown(rules, candidates.outline->0->0@);
    }
}

/// A trusted basic letter that is drawn gives way only to the name of a symbol: one character
/// beyond the basic ones that is no letter, no digit and no blank.
pub proof fn trusted_letters_give_way_to_symbols_only(
    rules: TextRules,
    trust: FontTrust,
    record: GlyphRecord,
    candidates: GlyphCandidates,
    resolver: bool,
)
    requires
        !trust.untrusted,
        !trust.encoding_lies,
        !rules.suspects(record.unicode),
        !record.map_error,
        record.unicode <= 127,
        record.painted,
        candidates.name is Some,
    ensures
        ({
            let name = candidates.name->0;
            let symbol = name is Some && name->0@.len() == 1 && name->0@[0] as u32 > 127
                && !alphanumeric(name->0@[0]) && !is_space(name->0@[0]) && can_be_shown(
                rules,
                name->0@,
            );
            decoding(rules, trust, record, candidates, resolver) == if symbol {
                DecodingModel::Found {
                    text: name->0@,
                    action: RepairAction::GlyphNameRecovery,
                }
            } else {
                DecodingModel::Keep
            }
        }),
{
    if candidates.name->0 is Some {
        lemma_shown(rules, candidates.name->0->0@);
    }
}

/// Whether a glyph counts for a font: the page draws it in that font, and it is no blank.
pub open spec fn counts_for(record: GlyphRecord, font: usize) -> bool {
    record.font == Some(font) && !record.generated && record.unicode != 9 && record.unicode != 10
        && record.unicode != 13 && record.unicode != 32
}

/// How many glyphs count for a font, from the first on.
pub open spec fn glyphs_from(records: Seq<GlyphRecord>, font: usize, i: int) -> int
    decreases records.len() - i,
{
    if i < 0 || i >= records.len() {
        0
    } else {
        glyphs_from(records, font, i + 1) + if counts_for(records[i], font) {
            1int
        } else {
            0
        }
    }
}

/// How many glyphs count for a font and say little, from the first on.
pub open spec fn doubtful_from(
    rules: TextRules,
    records: Seq<GlyphRecord>,
    font: usize,
    i: int,
) -> int
    decreases records.len() - i,
{
    if i < 0 || i >= records.len() {
        0
    } else {
        doubtful_from(rules, records, font, i + 1) + if counts_for(records[i], font)
            && rules.suspects(records[i].unicode) {
            1int
        } else {
            0
        }
    }
}

proof fn lemma_counts(rules: TextRules, records: Seq<GlyphRecord>, font: usize, n: int)
    requires
        0 <= n <= records.len(),
    ensures
        sampled_upto(records, font, n) + glyphs_from(records, font, n) == glyphs_from(
            records,
            font,
            0,
        ),
        doubted_upto(rules, records, font, n) + doubtful_from(rules, records, font, n)
            == doubtful_from(rules, records, font, 0),
    decreases n,
{
    if n > 0 {
        lemma_counts(rules, records, font, n - 1);
    }
}

/// A font shows garbage where at least twenty of its glyphs count and at least every tenth of
/// them says little.
pub proof fn garbage_is_told_by_counting(rules: TextRules, records: Seq<GlyphRecord>, font: usize)
    ensures
        is_garbage(rules, records, font) <==> glyphs_from(records, font, 0) >= 20 && 10
            * doubtful_from(rules, records, font, 0) >= glyphs_from(records, font, 0),
{
    lemma_counts(rules, records, font, records.len() as int);
}

/// The fonts that are listed as garbage are those of the page that show it.
pub proof fn garbage_fonts_are_listed(rules: TextRules, records: Seq<GlyphRecord>, n: int)
    requires
        0 <= n <= records.len(),
    ensures
        forall|font: usize|
            #[trigger] garbage_upto(rules, records, n).contains(font) <==> is_garbage(
                rules,
                records,
                font,
            ) && exists|i: int| 0 <= i < n && (#[trigger] records[i]).font == Some(font),
    decreases n,
{
    if n > 0 {
        garbage_fonts_are_listed(rules, records, n - 1);
        let before = garbage_upto(rules, records, n - 1);
        let after = garbage_upto(rules, records, n);
        assert forall|font: usize| #[trigger] after.contains(font) <==> is_garbage(
            rules,
            records,
            font,
        ) && exists|i: int| 0 <= i < n && (#[trigger] records[i]).font == Some(font) by {
            if after.contains(font) {
                let k = after.index_of(font);
                if k < before.len() {
                    assert(before[k] == font);
                    assert(before.contains(font));
                    let i = choose|i: int|
                        0 <= i < n - 1 && (#[trigger] records[i]).font == Some(font);
                    assert(records[i].font == Some(font));
                } else {
                    assert(records[n - 1].font == Some(font));
                }
            }
            if is_garbage(rules, records, font) && exists|i: int|
                0 <= i < n && (#[trigger] records[i]).font == Some(font) {
                let i = choose|i: int| 0 <= i < n && (#[trigger] records[i]).font == Some(font);
                if i < n - 1 {
                    assert(before.contains(font));
                    let k = before.index_of(font);
                    assert(after[k] == font);
                } else if before.contains(font) {
                    let k = before.index_of(font);
                    assert(after[k] == font);
                } else {
                    assert(after[before.len() as int] == font);
                }
            }
        }
    }
}

/// Whether a half circle lies on the left half of a circle: its left, top and bottom edges are
/// off by at most a twentieth of the height, or of two points, and it is within a tenth of the
/// width as wide as half of it.
pub open spec fn lies_on_left_half(half: Bbox, circle: Bbox) -> bool {
    let high = circle.bottom - circle.top;
    let near = if high > 20_000 {
        high
    } else {
        20_000
    };
    let wide = circle.right - circle.left;
    &&& 20 * apart(half.left as int, circle.left as int) <= near
    &&& 20 * apart(half.top as int, circle.top as int) <= near
    &&& 20 * apart(half.bottom as int, circle.bottom as int) <= near
    &&& wide > 0 && 4 * wide <= 10 * (half.right - half.left) && 10 * (half.right - half.left) <= 6
        * wide
}

/// A circle and a half circle on its left half make a half filled circle, in either order, and
/// nothing else is composed.
pub proof fn half_circles_fill_circles(a: char, at: Bbox, b: char, by: Bbox)
    ensures
        composed_of(a, at, b, by) is Some <==> (a == '\u{25D6}' && b == '\u{25CB}'
            && lies_on_left_half(at, by)) || (a == '\u{25CB}' && b == '\u{25D6}'
            && lies_on_left_half(by, at)),
        composed_of(a, at, b, by) is Some ==> composed_of(a, at, b, by) == Some('\u{25D0}'),
        composed_of(a, at, b, by) == composed_of(b, by, a, at),
{
}

/// A glyph that the page states no text for, and for which none was found, has none; what the
/// page generates has no font; and a found text that repeats the declared character changes
/// nothing.
pub proof fn glyphs_without_text_show_nothing(
    rules: TextRules,
    records: Seq<GlyphRecord>,
    index: int,
    found: Option<(Seq<char>, RepairAction)>,
)
    requires
        0 <= index < records.len(),
    ensures
        found is None && (records[index].unicode == 0 || records[index].unicode == 0xFFFE
            || records[index].unicode == 0xFFFF || 0xD800 <= records[index].unicode <= 0xDFFF
            || records[index].unicode > 0x10_FFFF) ==> resolved_glyph(
            rules,
            records,
            index,
            found,
        ) is None,
        resolved_glyph(rules, records, index, found) matches Some(glyph) ==> glyph.font == (
        if records[index].generated {
            None
        } else {
            records[index].font
        }),
        records[index].generated ==> resolved_glyph(rules, records, index, found)
            == resolved_glyph(rules, records, index, None),
        found matches Some((text, _)) ==> !records[index].map_error && text.len() == 1
            && records[index].unicode == text[0] as u32 && records[index].unicode != 0
            && records[index].unicode != 0xFFFE && records[index].unicode != 0xFFFF
            ==> resolved_glyph(rules, records, index, found) == resolved_glyph(
            rules,
            records,
            index,
            None,
        ),
{
    if let Some((text, action)) = found {
        let record = records[index];
        if !record.map_error && text.len() == 1 && record.unicode == text[0] as u32
            && record.unicode != 0 && record.unicode != 0xFFFE && record.unicode != 0xFFFF {
            lemma_scalar(text[0]);
            assert(record.unicode as char == text[0]);
            assert(text =~= seq![text[0]]);
            assert(confirms(record, text));
        }
    }
}

proof fn lemma_scalar(c: char)
    ensures
        crate::chars::is_scalar(c as int),
        (c as u32) as char == c,
{
}

/// The text of a single found character is that character, where the tables do not change it and
/// it is no control code.
pub proof fn found_characters_are_shown(
    rules: TextRules,
    records: Seq<GlyphRecord>,
    index: int,
    c: char,
    action: RepairAction,
)
    requires
        0 <= index < records.len(),
        !records[index].generated,
        c as u32 >= 32,
        !(127 <= c as u32 <= 159),
        rules.mark(c) == c,
        rules.letters(c) is None,
        records[index].unicode != c as u32,
    ensures
        resolved_glyph(rules, records, index, Some((seq![c], action))) is Some,
        resolved_glyph(rules, records, index, Some((seq![c], action)))->0.character == c,
        resolved_glyph(rules, records, index, Some((seq![c], action)))->0.tail.len() == 0,
        resolved_glyph(rules, records, index, Some((seq![c], action)))->0.repair_actions == seq![
            action,
        ],
{
    let record = records[index];
    assert(!confirms(record, seq![c])) by {
        if confirms(record, seq![c]) {
            let d = record.unicode as char;
            assert(seq![c][0] == seq![d][0]);
        }
    }
    let base = GlyphModel {
        character: c,
        tail: seq![c].skip(1),
        repair_actions: seq![action],
        font: None,
    };
    assert(seq![c].skip(1) =~= Seq::<char>::empty());
    assert(base.decoded() == base);
    assert(base.expanded(rules) == base);
    assert(base.plain(rules) =~= base);
    assert(base.normalized(rules) =~= base);
}

/// The character map of a font gives a glyph the one character it maps it to.
pub proof fn mapped_glyphs_show_their_character(map: Map<u32, u32>, glyph: u32)
    ensures
        mapped(map, glyph) is Some <==> map.contains_key(glyph) && map[glyph] <= 0x10_FFFF && !(
        0xD800 <= map[glyph] <= 0xDFFF),
        mapped(map, glyph) is Some ==> mapped(map, glyph)->0.len() == 1 && mapped(map, glyph)->0[0]
            as u32 == map[glyph],
{
}

} // verus!
