//! What becomes of the characters of a page.

use vstd::prelude::*;

use crate::chars::is_space;
use crate::extract::glyph::recovers;
use crate::extract::page_text::{fact_of, link_at, object_index, reading_of, PageChar, PageLink};
use crate::extract::text::DraftModel;
use crate::geometry::Bbox;
use crate::types::TextSource;

verus! {

/// Whether the middle of a box lies on a link, its edges included.
pub open spec fn touches(link: PageLink, b: Bbox) -> bool {
    2 * link.rect.left <= b.left + b.right && b.left + b.right <= 2 * link.rect.right && 2
        * link.rect.top <= b.top + b.bottom && b.top + b.bottom <= 2 * link.rect.bottom
}

/// A character leads where the first link under its middle does, and nowhere where none is.
pub proof fn characters_lead_where_the_first_link_does(
    links: Seq<PageLink>,
    b: Bbox,
    from: int,
)
    requires
        0 <= from <= links.len(),
    ensures
        forall|i: int|
            from <= i < links.len() && touches(#[trigger] links[i], b) && (forall|k: int|
                from <= k < i ==> !touches(#[trigger] links[k], b)) ==> link_at(links, b, from)
                == Some(links[i].uri),
        (forall|i: int| from <= i < links.len() ==> !touches(#[trigger] links[i], b)) ==> link_at(
            links,
            b,
            from,
        ) is None,
    decreases links.len() - from,
{
    if from < links.len() {
        characters_lead_where_the_first_link_does(links, b, from + 1);
        assert(touches(links[from], b) == crate::extract::page_text::on_link(links[from], b));
    }
}

/// The place of a text object is that of the last with its identity.
pub proof fn objects_are_found_at_their_last_place(objects: Seq<u64>, identity: u64, n: int)
    requires
        0 <= n <= objects.len() <= u32::MAX,
    ensures
        match object_index(objects, identity, n) {
            None => forall|i: int| 0 <= i < n ==> #[trigger] objects[i] != identity,
            Some(at) => at < n && objects[at as int] == identity && forall|i: int|
                at < i < n ==> #[trigger] objects[i] != identity,
        },
    decreases n,
{
    if n > 0 {
        objects_are_found_at_their_last_place(objects, identity, n - 1);
    }
}

/// Whether a box is there and has an extent.
pub open spec fn has_extent(b: Option<Bbox>) -> bool {
    b is Some && b->0.left < b->0.right && b->0.top < b->0.bottom
}

/// A character that is none is skipped: zero, the two that are no characters, halves of pairs and
/// numbers beyond the last. A line break breaks the line and has no place of its own; a blank has
/// none either. Any other needs a box, and takes its narrow one where it has it, else its wide
/// one; it is unmapped where the font does not map it and nothing recovered it.
pub proof fn characters_are_read_by_their_code(
    c: PageChar,
    objects: Seq<u64>,
    links: Seq<PageLink>,
)
    ensures
        ({
            let u = c.unicode as int;
            let none = u == 0 || u == 0xFFFE || u == 0xFFFF || 0xD800 <= u <= 0xDFFF || u
                > 0x10_FFFF;
            let single = c.tail@.len() == 0;
            let ends = single && (u == 10 || u == 13);
            let read = reading_of(c, objects, links);
            &&& none <==> read is Skipped
            &&& !none && ends ==> read is Fact && read->fact.explicit_break
            &&& !none && !ends && single && is_space(u as char) ==> read is Fact
                && !read->fact.explicit_break && read->fact.character == u as char
                && read->fact.generated == c.generated
            &&& !none && !ends && !(single && is_space(u as char)) ==> {
                &&& read is NoGeometry <==> !has_extent(c.strict) && !has_extent(c.loose)
                &&& read is Fact ==> {
                    let fact = read->fact;
                    &&& fact.character == u as char && fact.tail == c.tail && !fact.explicit_break
                    &&& has_extent(c.strict) ==> fact.bbox == c.strict->0
                    &&& !has_extent(c.strict) ==> fact.bbox == c.loose->0
                    &&& has_extent(c.loose) ==> fact.loose_bbox == c.loose->0
                    &&& !has_extent(c.loose) ==> fact.loose_bbox == c.strict->0
                    &&& fact.unicode_map_error <==> c.unicode_map_error && !recovers(
                        c.repair_actions@,
                    )
                    &&& fact.char_code == c.char_code && fact.origin == c.origin
                    &&& fact.typography.link == link_at(links, fact.bbox, 0)
                    &&& c.typography.font_size is Some && c.typography.font_size->0 > 0
                        ==> fact.typography.font_size == c.typography.font_size
                    &&& c.typography.font_size is Some && c.typography.font_size->0 <= 0
                        ==> fact.typography.font_size is None
                }
            }
        }),
{
    if crate::chars::is_scalar(c.unicode as int) {
        lemma_code(c.unicode);
    }
}

proof fn lemma_code(u: u32)
    requires
        crate::chars::is_scalar(u as int),
    ensures
        (u as char) as u32 == u,
        (u as int) as char == u as char,
        u as char == '\n' <==> u == 10,
        u as char == '\r' <==> u == 13,
{
}

/// The text fact of a run has its text, its box and its place; it is native, has no confidence,
/// and its style is that of its characters where they have one.
pub proof fn facts_keep_what_runs_say(draft: DraftModel)
    ensures
        ({
            let fact = fact_of(draft);
            let t = draft.typography;
            &&& fact.id == draft.id && fact.raw_text == draft.raw_text && fact.bbox == draft.bbox
            &&& fact.baseline == draft.baseline && fact.rotation == t.rotation
            &&& fact.extraction_order == draft.extraction_order && fact.final_order
                == draft.extraction_order
            &&& fact.source == TextSource::Native && fact.confidence is None && !fact.watermark
            &&& fact.style is None <==> t.font_name is None && t.font_size is None
                && t.font_flags is None && t.fill_color is None && t.stroke_color is None
                && t.text_matrix is None
            &&& fact.style is Some ==> fact.style->0.font_size == t.font_size
                && fact.style->0.font_height == t.font_height
                && !fact.style->0.font_size_estimated && fact.style->0.weight == t.font_weight
                && fact.style->0.flags == t.font_flags
            &&& fact.provenance is Some && fact.provenance->0.char_codes == draft.char_codes
                && fact.provenance->0.strike == t.strike && fact.provenance->0.mcid == t.mcid
                && fact.provenance->0.unicode_mapping == draft.unicode_mapping
            &&& fact.repair_actions == draft.repair_actions
        }),
{
}

} // verus!
