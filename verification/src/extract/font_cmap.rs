//! Glyph-to-character recovery from an embedded font program.
//!
//! An sfnt (TrueType or OpenType) program carries a `cmap` table from
//! characters to glyphs. When a font's own Unicode map is missing, that table
//! is inverted here. Only genuine Unicode subtables in formats 0, 4, 6 and 12
//! are read, and no read leaves the subtable's declared length.

use std::collections::HashMap;
use vstd::prelude::*;
use vstd::std_specs::hash::*;

verus! {

/// Upper bound on the number of code points one subtable may expand to.
pub const MAX_EXPANSION: usize = 1_114_112;

/// Upper bound on the number of groups in a format 12 subtable.
pub const MAX_GROUPS: u32 = 100_000;

/// The big-endian 16-bit word at `at`, if both bytes are inside `data`.
pub open spec fn be16(data: Seq<u8>, at: int) -> Option<int> {
    if 0 <= at && at + 2 <= data.len() {
        Some(data[at] * 0x100 + data[at + 1])
    } else {
        None
    }
}

/// The big-endian 32-bit word at `at`, if all four bytes are inside `data`.
pub open spec fn be32(data: Seq<u8>, at: int) -> Option<int> {
    if 0 <= at && at + 4 <= data.len() {
        Some(data[at] * 0x100_0000 + data[at + 1] * 0x1_0000 + data[at + 2] * 0x100 + data[at + 3])
    } else {
        None
    }
}

/// The bytes `from..to` of `data`, if that range lies inside it.
pub open spec fn slice_of(data: Seq<u8>, from: int, to: int) -> Option<Seq<u8>> {
    if 0 <= from <= to <= data.len() {
        Some(data.subrange(from, to))
    } else {
        None
    }
}

/// The four-byte tag at `at`.
pub open spec fn tag_at(data: Seq<u8>, at: int) -> Option<Seq<u8>> {
    slice_of(data, at, at + 4)
}

/// Whether a four-byte tag opens a single sfnt font.
pub open spec fn is_sfnt_tag(tag: Seq<u8>) -> bool {
    tag == seq![0u8, 1, 0, 0] || tag == seq![0x4Fu8, 0x54, 0x54, 0x4F] || tag == seq![
        0x74u8,
        0x72,
        0x75,
        0x65,
    ]
}

/// The tag `ttcf` that opens a font collection.
pub open spec fn collection_tag() -> Seq<u8> {
    seq![0x74u8, 0x74, 0x63, 0x66]
}

/// The tag `cmap`.
pub open spec fn cmap_tag() -> Seq<u8> {
    seq![0x63u8, 0x6D, 0x61, 0x70]
}

/// Where the table directory of the first font starts: at the beginning for a
/// plain font, at the first listed offset for a collection.
pub open spec fn directory_of(data: Seq<u8>) -> Option<int> {
    match tag_at(data, 0) {
        None => None,
        Some(tag) => if tag == collection_tag() {
            match be32(data, 12) {
                None => None,
                Some(first) => match tag_at(data, first) {
                    None => None,
                    Some(inner) => if is_sfnt_tag(inner) {
                        Some(first)
                    } else {
                        None
                    },
                },
            }
        } else if is_sfnt_tag(tag) {
            Some(0)
        } else {
            None
        },
    }
}

/// The table of the first record with this tag among records `i..n`. A record
/// that is not wholly present ends the search.
pub open spec fn table_from(font: Seq<u8>, directory: int, tag: Seq<u8>, i: int, n: int) -> Option<
    Seq<u8>,
>
    decreases n - i,
{
    if i >= n {
        None
    } else {
        let record = directory + 12 + i * 16;
        match tag_at(font, record) {
            None => None,
            Some(found) => if found == tag {
                match (be32(font, record + 8), be32(font, record + 12)) {
                    (Some(offset), Some(length)) => slice_of(font, offset, offset + length),
                    _ => None,
                }
            } else {
                table_from(font, directory, tag, i + 1, n)
            },
        }
    }
}

/// The bytes of the first table with this tag; offsets count from the file's start.
pub open spec fn table_of(font: Seq<u8>, directory: int, tag: Seq<u8>) -> Option<Seq<u8>> {
    match be16(font, directory + 4) {
        None => None,
        Some(n) => table_from(font, directory, tag, 0, n),
    }
}

/// How well a subtable covers Unicode: 4 for the full repertoire, 3 for the
/// basic plane, 0 for one that does not encode Unicode at all.
pub open spec fn unicode_score(platform: int, encoding: int) -> int {
    if (platform == 3 && encoding == 10) || (platform == 0 && (encoding == 4 || encoding == 6)) {
        4
    } else if (platform == 3 && encoding == 1) || (platform == 0 && 0 <= encoding <= 3) {
        3
    } else {
        0
    }
}

/// Scans the encoding records `i..n`, keeping the first record of the highest
/// positive score. The outer `None` marks a record that is not wholly present.
pub open spec fn best_subtable(cmap: Seq<u8>, i: int, n: int, best: Option<(int, int)>) -> Option<
    Option<(int, int)>,
>
    decreases n - i,
{
    if i >= n {
        Some(best)
    } else {
        let record = 4 + i * 8;
        match (be16(cmap, record), be16(cmap, record + 2), be32(cmap, record + 4)) {
            (Some(platform), Some(encoding), Some(offset)) => {
                let score = unicode_score(platform, encoding);
                let better = score > 0 && (best matches Some(b) ==> score > b.0);
                best_subtable(
                    cmap,
                    i + 1,
                    n,
                    if better {
                        Some((score, offset))
                    } else {
                        best
                    },
                )
            },
            _ => None,
        }
    }
}

/// The chosen subtable, cut to its declared length, with its format.
pub open spec fn chosen_subtable(data: Seq<u8>) -> Option<(int, Seq<u8>)> {
    match directory_of(data) {
        None => None,
        Some(directory) => match table_of(data, directory, cmap_tag()) {
            None => None,
            Some(cmap) => match be16(cmap, 2) {
                None => None,
                Some(n) => match best_subtable(cmap, 0, n, None) {
                    Some(Some((_, offset))) => subtable_at(cmap, offset),
                    _ => None,
                },
            },
        },
    }
}

/// The subtable at `offset`, cut to its declared length, with its format.
pub open spec fn subtable_at(cmap: Seq<u8>, offset: int) -> Option<(int, Seq<u8>)> {
    match slice_of(cmap, offset, cmap.len() as int) {
        None => None,
        Some(rest) => match be16(rest, 0) {
            None => None,
            Some(format) => {
                let length = if format == 0 || format == 4 || format == 6 {
                    be16(rest, 2)
                } else if format == 12 {
                    be32(rest, 4)
                } else {
                    None
                };
                match length {
                    None => None,
                    Some(l) => match slice_of(rest, 0, l) {
                        None => None,
                        Some(sub) => Some((format, sub)),
                    },
                }
            },
        },
    }
}

/// One (glyph, character) pair listed by a subtable.
pub type Pair = (u32, u32);

/// The pairs of a byte encoding table.
pub open spec fn pairs_byte_table(sub: Seq<u8>) -> Option<Seq<Pair>> {
    if sub.len() < 262 {
        None
    } else {
        Some(Seq::new(256, |code: int| (sub[6 + code] as u32, code as u32)))
    }
}

/// Glyph of `code` in segment `seg` of a format 4 subtable with `count` segments.
pub open spec fn segment_glyph(sub: Seq<u8>, count: int, seg: int, start: int, code: int) -> Option<
    int,
> {
    let deltas = 16 + count * 4;
    let offsets = 16 + count * 6;
    match (be16(sub, deltas + seg * 2), be16(sub, offsets + seg * 2)) {
        (Some(delta), Some(range_offset)) => if range_offset == 0 {
            Some((code + delta) % 0x1_0000)
        } else {
            match be16(sub, offsets + seg * 2 + range_offset + (code - start) * 2) {
                None => None,
                Some(g) => if g == 0 {
                    Some(0)
                } else {
                    Some((g + delta) % 0x1_0000)
                },
            }
        },
        _ => None,
    }
}

/// The pairs of codes `start..until` of one format 4 segment.
pub open spec fn segment_pairs(sub: Seq<u8>, count: int, seg: int, start: int, until: int) -> Option<
    Seq<Pair>,
>
    decreases until - start,
{
    if until <= start {
        Some(Seq::empty())
    } else {
        match segment_pairs(sub, count, seg, start, until - 1) {
            None => None,
            Some(before) => match segment_glyph(sub, count, seg, start, until - 1) {
                None => None,
                Some(glyph) => Some(before.push((glyph as u32, (until - 1) as u32))),
            },
        }
    }
}

/// The pairs of one whole format 4 segment. The closing segment lists none,
/// and the code 0xFFFF is never listed.
pub open spec fn whole_segment(sub: Seq<u8>, count: int, seg: int) -> Option<Seq<Pair>> {
    match (
        be16(sub, 14 + seg * 2),
        be16(sub, 16 + count * 2 + seg * 2),
        be16(sub, 16 + count * 4 + seg * 2),
        be16(sub, 16 + count * 6 + seg * 2),
    ) {
        (Some(end), Some(start), Some(_), Some(_)) => if start == 0xFFFF && end == 0xFFFF {
            Some(Seq::empty())
        } else {
            segment_pairs(
                sub,
                count,
                seg,
                start,
                if end < 0xFFFE {
                    end + 1
                } else {
                    0xFFFF
                },
            )
        },
        _ => None,
    }
}

/// The pairs of the first `segs` segments of a format 4 subtable.
pub open spec fn segments_pairs(sub: Seq<u8>, count: int, segs: int) -> Option<Seq<Pair>>
    decreases segs,
{
    if segs <= 0 {
        Some(Seq::empty())
    } else {
        match (segments_pairs(sub, count, segs - 1), whole_segment(sub, count, segs - 1)) {
            (Some(before), Some(here)) => Some(before + here),
            _ => None,
        }
    }
}

/// The pairs of a format 4 subtable.
pub open spec fn pairs_segmented(sub: Seq<u8>) -> Option<Seq<Pair>> {
    match be16(sub, 6) {
        None => None,
        Some(doubled) => if doubled == 0 || doubled % 2 != 0 {
            None
        } else {
            segments_pairs(sub, doubled / 2, doubled / 2)
        },
    }
}

/// The pairs of a trimmed table (format 6).
pub open spec fn pairs_trimmed(sub: Seq<u8>) -> Option<Seq<Pair>> {
    match (be16(sub, 6), be16(sub, 8)) {
        (Some(first), Some(count)) => if first + count > 0x1_0000 || 10 + count * 2 > sub.len() {
            None
        } else {
            Some(
                Seq::new(
                    count as nat,
                    |i: int| (be16(sub, 10 + i * 2)->0 as u32, (first + i) as u32),
                ),
            )
        },
        _ => None,
    }
}

/// The pairs of one group of a format 12 subtable.
pub open spec fn group_pairs(sub: Seq<u8>, group: int) -> Option<Seq<Pair>> {
    let record = 16 + group * 12;
    match (be32(sub, record), be32(sub, record + 4), be32(sub, record + 8)) {
        (Some(start), Some(end), Some(glyph)) => if end < start || end > 0x10_FFFF || glyph + (end
            - start) > u32::MAX {
            None
        } else {
            Some(
                Seq::new(
                    (end - start + 1) as nat,
                    |off: int| ((glyph + off) as u32, (start + off) as u32),
                ),
            )
        },
        _ => None,
    }
}

/// The pairs of the first `groups` groups of a format 12 subtable.
pub open spec fn groups_pairs(sub: Seq<u8>, groups: int) -> Option<Seq<Pair>>
    decreases groups,
{
    if groups <= 0 {
        Some(Seq::empty())
    } else {
        match (groups_pairs(sub, groups - 1), group_pairs(sub, groups - 1)) {
            (Some(before), Some(here)) => Some(before + here),
            _ => None,
        }
    }
}

/// The pairs of a segmented coverage subtable (format 12).
pub open spec fn pairs_grouped(sub: Seq<u8>) -> Option<Seq<Pair>> {
    match be32(sub, 12) {
        None => None,
        Some(n) => if n > MAX_GROUPS {
            None
        } else {
            groups_pairs(sub, n)
        },
    }
}

/// Every (glyph, character) pair a subtable lists, in table order.
pub open spec fn listed_pairs(format: int, sub: Seq<u8>) -> Option<Seq<Pair>> {
    if format == 0 {
        pairs_byte_table(sub)
    } else if format == 4 {
        pairs_segmented(sub)
    } else if format == 6 {
        pairs_trimmed(sub)
    } else if format == 12 {
        pairs_grouped(sub)
    } else {
        None
    }
}

/// Whether a code is a Unicode scalar value that is not a control character.
pub open spec fn is_text_code(code: u32) -> bool {
    code <= 0x10_FFFF && !(0xD800 <= code <= 0xDFFF) && code > 0x1F && !(0x7F <= code <= 0x9F)
}

/// Whether a code lies in the private use area of the basic plane.
pub open spec fn is_private_use(code: u32) -> bool {
    0xE000 <= code <= 0xF8FF
}

/// Whether a pair may enter the reverse map.
pub open spec fn usable(pair: Pair) -> bool {
    pair.0 != 0 && is_text_code(pair.1)
}

/// Whether `a` is at least as good a character as `b` for the same glyph: any
/// code outside the private use area wins over one inside, then the smaller wins.
pub open spec fn preferred(a: u32, b: u32) -> bool {
    if is_private_use(a) == is_private_use(b) {
        a <= b
    } else {
        is_private_use(b)
    }
}

/// Whether `map` is the inverse of `pairs`: it holds exactly the glyphs of the
/// usable pairs, each with the preferred character among them.
pub open spec fn inverts(map: Map<u32, u32>, pairs: Seq<Pair>) -> bool {
    &&& forall|i: int|
        0 <= i < pairs.len() && usable(#[trigger] pairs[i]) ==> map.contains_key(pairs[i].0)
            && preferred(map[pairs[i].0], pairs[i].1)
    &&& forall|glyph: u32| #[trigger]
        map.contains_key(glyph) ==> exists|i: int|
            0 <= i < pairs.len() && usable(#[trigger] pairs[i]) && pairs[i].0 == glyph && pairs[i].1
                == map[glyph]
}

/// The pairs from which a font's reverse map is made; `None` where the font has
/// no readable Unicode subtable or lists too many pairs.
pub open spec fn font_pairs(data: Seq<u8>) -> Option<Seq<Pair>> {
    match chosen_subtable(data) {
        None => None,
        Some((format, sub)) => match listed_pairs(format, sub) {
            None => None,
            Some(pairs) => if pairs.len() > MAX_EXPANSION {
                None
            } else {
                Some(pairs)
            },
        },
    }
}

/// Whether some pair of the list may enter the reverse map.
pub open spec fn has_usable(pairs: Seq<Pair>) -> bool {
    exists|i: int| 0 <= i < pairs.len() && usable(#[trigger] pairs[i])
}

/// A pair list has at most one inverse.
pub proof fn inverse_is_unique(a: Map<u32, u32>, b: Map<u32, u32>, pairs: Seq<Pair>)
    requires
        inverts(a, pairs),
        inverts(b, pairs),
    ensures
        a == b,
{
    assert forall|glyph: u32| a.contains_key(glyph) implies b.contains_key(glyph) && a[glyph]
        == b[glyph] by {
        let i = choose|i: int|
            0 <= i < pairs.len() && usable(#[trigger] pairs[i]) && pairs[i].0 == glyph && pairs[i].1
                == a[glyph];
        assert(b.contains_key(glyph) && preferred(b[glyph], a[glyph]));
        let j = choose|j: int|
            0 <= j < pairs.len() && usable(#[trigger] pairs[j]) && pairs[j].0 == glyph && pairs[j].1
                == b[glyph];
        assert(preferred(a[glyph], b[glyph]));
    }
    assert forall|glyph: u32| b.contains_key(glyph) implies a.contains_key(glyph) by {
        let i = choose|i: int|
            0 <= i < pairs.len() && usable(#[trigger] pairs[i]) && pairs[i].0 == glyph && pairs[i].1
                == b[glyph];
        assert(usable(pairs[i]));
    }
    assert(a =~= b);
}

/// A reverse map never names the missing glyph and never yields a control
/// character or anything but a Unicode scalar value.
pub proof fn inverse_holds_only_text(map: Map<u32, u32>, pairs: Seq<Pair>, glyph: u32)
    requires
        inverts(map, pairs),
        map.contains_key(glyph),
    ensures
        glyph != 0,
        is_text_code(map[glyph]),
{
}

/// Reads a big-endian field only when both bytes are present.
pub fn read_u16(data: &[u8], offset: usize) -> (word: Option<u16>)
    ensures
        word matches Some(w) ==> be16(data@, offset as int) == Some(w as int),
        word is None ==> be16(data@, offset as int) is None,
{
    let n: usize = data.len();
    if offset < n && n - offset >= 2 {
        Some((data[offset] as u16) * 0x100 + data[offset + 1] as u16)
    } else {
        None
    }
}

/// Reads a big-endian field only when all four bytes are present.
pub fn read_u32(data: &[u8], offset: usize) -> (word: Option<u32>)
    ensures
        word matches Some(w) ==> be32(data@, offset as int) == Some(w as int),
        word is None ==> be32(data@, offset as int) is None,
{
    let n: usize = data.len();
    if offset < n && n - offset >= 4 {
        Some(
            (data[offset] as u32) * 0x100_0000 + (data[offset + 1] as u32) * 0x1_0000 + (data[offset
                + 2] as u32) * 0x100 + data[offset + 3] as u32,
        )
    } else {
        None
    }
}

/// Whether the four bytes at `offset` are there and spell `tag`; `None` when
/// they are not all there.
fn has_tag(data: &[u8], offset: usize, tag: &[u8; 4]) -> (same: Option<bool>)
    ensures
        match tag_at(data@, offset as int) {
            None => same is None,
            Some(found) => same == Some(found == tag@),
        },
{
    let n: usize = data.len();
    if offset < n && n - offset >= 4 {
        let same: bool = data[offset] == tag[0] && data[offset + 1] == tag[1] && data[offset + 2]
            == tag[2] && data[offset + 3] == tag[3];
        proof {
            let found = data@.subrange(offset as int, offset + 4);
            if same {
                assert(found =~= tag@);
            } else {
                assert(found[0] != tag@[0] || found[1] != tag@[1] || found[2] != tag@[2] || found[3]
                    != tag@[3]);
            }
        }
        Some(same)
    } else {
        None
    }
}

/// Whether the four bytes at `offset` open a single sfnt font; `None` when they
/// are not all there.
fn opens_font(data: &[u8], offset: usize) -> (opens: Option<bool>)
    ensures
        match tag_at(data@, offset as int) {
            None => opens is None,
            Some(found) => opens == Some(is_sfnt_tag(found)),
        },
{
    let version_one: [u8; 4] = [0, 1, 0, 0];
    let otto: [u8; 4] = [0x4F, 0x54, 0x54, 0x4F];
    let truetype: [u8; 4] = [0x74, 0x72, 0x75, 0x65];
    assert(version_one@ =~= seq![0u8, 1, 0, 0]);
    assert(otto@ =~= seq![0x4Fu8, 0x54, 0x54, 0x4F]);
    assert(truetype@ =~= seq![0x74u8, 0x72, 0x75, 0x65]);
    match (
        has_tag(data, offset, &version_one),
        has_tag(data, offset, &otto),
        has_tag(data, offset, &truetype),
    ) {
        (Some(a), Some(b), Some(c)) => Some(a || b || c),
        _ => None,
    }
}

/// Locates the first sfnt directory while keeping collection table offsets
/// relative to the complete file.
pub fn sfnt_directory(data: &[u8]) -> (directory: Option<usize>)
    ensures
        directory matches Some(d) ==> directory_of(data@) == Some(d as int),
        directory is None ==> directory_of(data@) is None,
{
    let collection: [u8; 4] = [0x74, 0x74, 0x63, 0x66];
    assert(collection@ =~= collection_tag());
    let is_collection: bool = match has_tag(data, 0, &collection) {
        None => {
            return None;
        },
        Some(same) => same,
    };
    if is_collection {
        let first: usize = match read_u32(data, 12) {
            None => {
                return None;
            },
            Some(first) => first as usize,
        };
        match opens_font(data, first) {
            Some(true) => Some(first),
            _ => None,
        }
    } else {
        match opens_font(data, 0) {
            Some(true) => Some(0),
            _ => None,
        }
    }
}

/// Returns a bounds-checked table using absolute sfnt and collection offsets.
pub fn find_table<'a>(font: &'a [u8], directory: usize, tag: &[u8; 4]) -> (table: Option<&'a [u8]>)
    ensures
        table matches Some(t) ==> table_of(font@, directory as int, tag@) == Some(t@),
        table is None ==> table_of(font@, directory as int, tag@) is None,
{
    let len: usize = font.len();
    if directory >= len || len - directory < 4 {
        return None;
    }
    let count: usize = match read_u16(font, directory + 4) {
        None => {
            return None;
        },
        Some(n) => n as usize,
    };
    let mut i: usize = 0;
    while i < count
        invariant
            i <= count <= 0xFFFF,
            directory < len,
            len == font@.len(),
            table_of(font@, directory as int, tag@) == table_from(
                font@,
                directory as int,
                tag@,
                i as int,
                count as int,
            ),
        decreases count - i,
    {
        let step: usize = 12 + i * 16;
        if len - directory < step {
            return None;
        }
        let record: usize = directory + step;
        match has_tag(font, record, tag) {
            None => {
                return None;
            },
            Some(same) => {
                if same {
                    if len - record < 12 {
                        return None;
                    }
                    match (read_u32(font, record + 8), read_u32(font, record + 12)) {
                        (Some(offset), Some(length)) => {
                            let from: usize = offset as usize;
                            let size: usize = length as usize;
                            if from <= len && size <= len - from {
                                return Some(vstd::slice::slice_subrange(font, from, from + size));
                            }
                            return None;
                        },
                        _ => {
                            return None;
                        },
                    }
                }
            },
        }
        i = i + 1;
    }
    None
}

/// A reverse map under construction, with the number of pairs seen so far.
struct Inverse {
    map: HashMap<u32, u32>,
    expanded: usize,
}

impl Inverse {
    /// Whether exactly `pairs` have been entered, and no more than the bound.
    spec fn holds(&self, pairs: Seq<Pair>) -> bool {
        &&& inverts(self.map@, pairs)
        &&& self.expanded == pairs.len()
        &&& pairs.len() <= MAX_EXPANSION
    }

    fn new() -> (inverse: Inverse)
        ensures
            inverse.holds(Seq::empty()),
    {
        broadcast use group_hash_axioms;

        Inverse { map: HashMap::new(), expanded: 0 }
    }

    /// Enters one more pair; `false` when the bound on the total work is reached.
    fn add(&mut self, glyph: u32, unicode: u32) -> (within: bool)
        ensures
            forall|pairs: Seq<Pair>| #[trigger]
                old(self).holds(pairs) ==> if within {
                    final(self).holds(pairs.push((glyph, unicode)))
                } else {
                    pairs.len() == MAX_EXPANSION
                },
    {
        broadcast use group_hash_axioms;

        if self.expanded >= MAX_EXPANSION {
            return false;
        }
        let ghost before = self.map@;
        self.expanded = self.expanded + 1;
        let text: bool = unicode <= 0x10_FFFF && !(0xD800 <= unicode && unicode <= 0xDFFF)
            && unicode > 0x1F && !(0x7F <= unicode && unicode <= 0x9F);
        if glyph != 0 && text {
            let replace: bool = match self.map.get(&glyph) {
                None => true,
                Some(current) => {
                    let current: u32 = *current;
                    let current_private: bool = 0xE000 <= current && current <= 0xF8FF;
                    let new_private: bool = 0xE000 <= unicode && unicode <= 0xF8FF;
                    (current_private && !new_private) || (current_private == new_private && unicode
                        < current)
                },
            };
            if replace {
                self.map.insert(glyph, unicode);
            }
        }
        proof {
            assert forall|pairs: Seq<Pair>| #[trigger] old(self).holds(pairs) implies self.holds(
                pairs.push((glyph, unicode)),
            ) by {
                lemma_add_inverts(before, self.map@, pairs, (glyph, unicode));
            }
        }
        true
    }
}

/// Entering one pair keeps a map the inverse of the pairs seen.
proof fn lemma_add_inverts(before: Map<u32, u32>, after: Map<u32, u32>, pairs: Seq<Pair>, pair: Pair)
    requires
        inverts(before, pairs),
        !usable(pair) ==> after == before,
        usable(pair) && before.contains_key(pair.0) && preferred(before[pair.0], pair.1) ==> after
            == before,
        usable(pair) && !(before.contains_key(pair.0) && preferred(before[pair.0], pair.1))
            ==> after == before.insert(pair.0, pair.1),
    ensures
        inverts(after, pairs.push(pair)),
{
    let all = pairs.push(pair);
    assert forall|i: int| 0 <= i < all.len() && usable(#[trigger] all[i]) implies after.contains_key(
        all[i].0,
    ) && preferred(after[all[i].0], all[i].1) by {
        if i < pairs.len() {
            assert(all[i] == pairs[i]);
        }
    }
    assert forall|glyph: u32| #[trigger] after.contains_key(glyph) implies exists|i: int|
        0 <= i < all.len() && usable(#[trigger] all[i]) && all[i].0 == glyph && all[i].1
            == after[glyph] by {
        if before.contains_key(glyph) && after[glyph] == before[glyph] {
            let i = choose|i: int|
                0 <= i < pairs.len() && usable(#[trigger] pairs[i]) && pairs[i].0 == glyph
                    && pairs[i].1 == before[glyph];
            assert(all[i] == pairs[i]);
        } else {
            assert(all[pairs.len() as int] == pair);
        }
    }
}

/// Whether entering `here` after `before` either completed, or was stopped by
/// the bound or an unreadable entry, in which case nothing may be returned.
spec fn extends(inverse: &Inverse, done: bool, before: Seq<Pair>, here: Option<Seq<Pair>>) -> bool {
    if done {
        here is Some && inverse.holds(before + here->0)
    } else {
        here is None || before.len() + here->0.len() > MAX_EXPANSION
    }
}

/// Enters the pairs of a byte encoding table.
fn add_byte_table(inverse: &mut Inverse, sub: &[u8]) -> (done: bool)
    requires
        old(inverse).holds(Seq::empty()),
    ensures
        extends(final(inverse), done, Seq::empty(), pairs_byte_table(sub@)),
{
    if sub.len() < 262 {
        return false;
    }
    let ghost all = pairs_byte_table(sub@)->0;
    let mut code: usize = 0;
    assert(all.take(0) =~= Seq::empty());
    while code < 256
        invariant
            code <= 256,
            sub@.len() >= 262,
            Some(all) == pairs_byte_table(sub@),
            all.len() == 256,
            inverse.holds(all.take(code as int)),
        decreases 256 - code,
    {
        let within: bool = inverse.add(sub[6 + code] as u32, code as u32);
        if !within {
            return false;
        }
        assert(all.take(code as int).push(all[code as int]) =~= all.take(code + 1));
        code = code + 1;
    }
    assert(all.take(256) =~= Seq::empty() + all);
    true
}

/// A segment's pair list only grows with its upper end.
proof fn lemma_segment_prefix(sub: Seq<u8>, count: int, seg: int, start: int, part: int, until: int)
    requires
        start <= part <= until,
    ensures
        segment_pairs(sub, count, seg, start, part) is None ==> segment_pairs(
            sub,
            count,
            seg,
            start,
            until,
        ) is None,
        segment_pairs(sub, count, seg, start, until) matches Some(all) ==> (segment_pairs(
            sub,
            count,
            seg,
            start,
            part,
        ) matches Some(some) && some.len() == part - start && all.len() == until - start),
    decreases until - start,
{
    if until > start {
        if part < until {
            lemma_segment_prefix(sub, count, seg, start, part, until - 1);
        } else {
            lemma_segment_prefix(sub, count, seg, start, part - 1, until - 1);
        }
    }
}

/// Enters the pairs of one format 4 segment.
fn add_segment(inverse: &mut Inverse, sub: &[u8], count: usize, seg: usize, before: Ghost<Seq<Pair>>) -> (done: bool)
    requires
        old(inverse).holds(before@),
        seg < count <= 0x7FFF,
    ensures
        extends(final(inverse), done, before@, whole_segment(sub@, count as int, seg as int)),
{
    let at: usize = seg * 2;
    let (end, start, delta, range_offset): (u32, u32, u32, usize) = match (
        read_u16(sub, 14 + at),
        read_u16(sub, 16 + count * 2 + at),
        read_u16(sub, 16 + count * 4 + at),
        read_u16(sub, 16 + count * 6 + at),
    ) {
        (Some(end), Some(start), Some(delta), Some(offset)) => (
            end as u32,
            start as u32,
            delta as u32,
            offset as usize,
        ),
        _ => {
            return false;
        },
    };
    if start == 0xFFFF && end == 0xFFFF {
        assert(before@ + Seq::empty() =~= before@);
        return true;
    }
    let until: u32 = if end < 0xFFFE {
        end + 1
    } else {
        0xFFFF
    };
    let mut code: u32 = start;
    assert(before@ + Seq::empty() =~= before@);
    if until <= start {
        return true;
    }
    while code < until
        invariant
            start <= code <= until <= 0xFFFF,
            seg < count <= 0x7FFF,
            at == seg * 2,
            delta <= 0xFFFF,
            range_offset <= 0xFFFF,
            be16(sub@, 16 + count * 4 + seg * 2) == Some(delta as int),
            be16(sub@, 16 + count * 6 + seg * 2) == Some(range_offset as int),
            whole_segment(sub@, count as int, seg as int) == segment_pairs(
                sub@,
                count as int,
                seg as int,
                start as int,
                until as int,
            ),
            segment_pairs(sub@, count as int, seg as int, start as int, code as int) matches Some(
                pairs,
            ) && inverse.holds(before@ + pairs),
        decreases until - code,
    {
        let ghost pairs = segment_pairs(
            sub@,
            count as int,
            seg as int,
            start as int,
            code as int,
        )->0;
        proof {
            lemma_segment_prefix(
                sub@,
                count as int,
                seg as int,
                start as int,
                code + 1,
                until as int,
            );
        }
        let glyph: u32 = if range_offset == 0 {
            (code + delta) % 0x1_0000
        } else {
            let slot: usize = 16 + count * 6 + at + range_offset + (code - start) as usize * 2;
            match read_u16(sub, slot) {
                None => {
                    return false;
                },
                Some(g) => {
                    if g == 0 {
                        0
                    } else {
                        (g as u32 + delta) % 0x1_0000
                    }
                },
            }
        };
        let within: bool = inverse.add(glyph, code);
        if !within {
            return false;
        }
        assert((before@ + pairs).push((glyph, code)) =~= before@ + pairs.push((glyph, code)));
        code = code + 1;
    }
    true
}

/// The pair list of a format 4 subtable only grows with the segments read.
proof fn lemma_segments_prefix(sub: Seq<u8>, count: int, part: int, segs: int)
    requires
        0 <= part <= segs,
    ensures
        segments_pairs(sub, count, part) is None ==> segments_pairs(sub, count, segs) is None,
        segments_pairs(sub, count, segs) matches Some(all) ==> (segments_pairs(sub, count, part) matches Some(
        some) && some.len() <= all.len()),
    decreases segs,
{
    if part < segs {
        lemma_segments_prefix(sub, count, part, segs - 1);
    }
}

/// Enters the pairs of a format 4 subtable.
fn add_segmented(inverse: &mut Inverse, sub: &[u8]) -> (done: bool)
    requires
        old(inverse).holds(Seq::empty()),
    ensures
        extends(final(inverse), done, Seq::empty(), pairs_segmented(sub@)),
{
    let doubled: u16 = match read_u16(sub, 6) {
        None => {
            return false;
        },
        Some(doubled) => doubled,
    };
    if doubled == 0 || doubled % 2 != 0 {
        return false;
    }
    let count: usize = (doubled / 2) as usize;
    let mut seg: usize = 0;
    while seg < count
        invariant
            seg <= count <= 0x7FFF,
            pairs_segmented(sub@) == segments_pairs(sub@, count as int, count as int),
            segments_pairs(sub@, count as int, seg as int) matches Some(pairs) && inverse.holds(
                pairs,
            ),
        decreases count - seg,
    {
        let ghost pairs = segments_pairs(sub@, count as int, seg as int)->0;
        proof {
            lemma_segments_prefix(sub@, count as int, seg + 1, count as int);
        }
        let done: bool = add_segment(inverse, sub, count, seg, Ghost(pairs));
        if !done {
            return false;
        }
        seg = seg + 1;
    }
    assert(Seq::<Pair>::empty() + segments_pairs(sub@, count as int, count as int)->0
        =~= segments_pairs(sub@, count as int, count as int)->0);
    true
}

/// Enters the pairs of a trimmed table.
fn add_trimmed(inverse: &mut Inverse, sub: &[u8]) -> (done: bool)
    requires
        old(inverse).holds(Seq::empty()),
    ensures
        extends(final(inverse), done, Seq::empty(), pairs_trimmed(sub@)),
{
    let (first, count): (u32, usize) = match (read_u16(sub, 6), read_u16(sub, 8)) {
        (Some(first), Some(count)) => (first as u32, count as usize),
        _ => {
            return false;
        },
    };
    if first + count as u32 > 0x1_0000 || sub.len() - 10 < count * 2 {
        return false;
    }
    let ghost all = pairs_trimmed(sub@)->0;
    let mut i: usize = 0;
    assert(all.take(0) =~= Seq::empty());
    while i < count
        invariant
            i <= count <= 0xFFFF,
            first + count <= 0x1_0000,
            10 + count * 2 <= sub@.len(),
            pairs_trimmed(sub@) == Some(all),
            all.len() == count,
            be16(sub@, 6) == Some(first as int),
            be16(sub@, 8) == Some(count as int),
            inverse.holds(all.take(i as int)),
        decreases count - i,
    {
        let glyph: u16 = match read_u16(sub, 10 + i * 2) {
            None => {
                return false;
            },
            Some(glyph) => glyph,
        };
        let within: bool = inverse.add(glyph as u32, first + i as u32);
        if !within {
            return false;
        }
        assert(all.take(i as int).push(all[i as int]) =~= all.take(i + 1));
        i = i + 1;
    }
    assert(all.take(count as int) =~= Seq::empty() + all);
    true
}

/// Enters the pairs of one group of a format 12 subtable.
fn add_group(inverse: &mut Inverse, sub: &[u8], group: usize, before: Ghost<Seq<Pair>>) -> (done: bool)
    requires
        old(inverse).holds(before@),
        group < MAX_GROUPS,
    ensures
        extends(final(inverse), done, before@, group_pairs(sub@, group as int)),
{
    let record: usize = 16 + group * 12;
    let (start, end, glyph): (u32, u32, u32) = match (
        read_u32(sub, record),
        read_u32(sub, record + 4),
        read_u32(sub, record + 8),
    ) {
        (Some(start), Some(end), Some(glyph)) => (start, end, glyph),
        _ => {
            return false;
        },
    };
    if end < start || end > 0x10_FFFF {
        return false;
    }
    if u32::MAX - glyph < end - start {
        return false;
    }
    let ghost all = group_pairs(sub@, group as int)->0;
    let count: u32 = end - start + 1;
    let mut off: u32 = 0;
    assert(before@ + all.take(0) =~= before@);
    while off < count
        invariant
            off <= count,
            count == end - start + 1,
            start <= end <= 0x10_FFFF,
            glyph + (end - start) <= u32::MAX,
            group_pairs(sub@, group as int) == Some(all),
            all.len() == count,
            forall|k: int| 0 <= k < count ==> #[trigger] all[k] == ((glyph + k) as u32, (start + k) as u32),
            inverse.holds(before@ + all.take(off as int)),
        decreases count - off,
    {
        let within: bool = inverse.add(glyph + off, start + off);
        if !within {
            return false;
        }
        assert((before@ + all.take(off as int)).push(all[off as int]) =~= before@ + all.take(
            off + 1,
        ));
        off = off + 1;
    }
    assert(all.take(count as int) =~= all);
    true
}

/// The pair list of a format 12 subtable only grows with the groups read.
proof fn lemma_groups_prefix(sub: Seq<u8>, part: int, groups: int)
    requires
        0 <= part <= groups,
    ensures
        groups_pairs(sub, part) is None ==> groups_pairs(sub, groups) is None,
        groups_pairs(sub, groups) matches Some(all) ==> (groups_pairs(sub, part) matches Some(
        some) && some.len() <= all.len()),
    decreases groups,
{
    if part < groups {
        lemma_groups_prefix(sub, part, groups - 1);
    }
}

/// Enters the pairs of a segmented coverage subtable.
fn add_grouped(inverse: &mut Inverse, sub: &[u8]) -> (done: bool)
    requires
        old(inverse).holds(Seq::empty()),
    ensures
        extends(final(inverse), done, Seq::empty(), pairs_grouped(sub@)),
{
    let count: u32 = match read_u32(sub, 12) {
        None => {
            return false;
        },
        Some(count) => count,
    };
    if count > MAX_GROUPS {
        return false;
    }
    let groups: usize = count as usize;
    let mut group: usize = 0;
    while group < groups
        invariant
            group <= groups <= MAX_GROUPS,
            pairs_grouped(sub@) == groups_pairs(sub@, groups as int),
            groups_pairs(sub@, group as int) matches Some(pairs) && inverse.holds(pairs),
        decreases groups - group,
    {
        let ghost pairs = groups_pairs(sub@, group as int)->0;
        proof {
            lemma_groups_prefix(sub@, group + 1, groups as int);
        }
        let done: bool = add_group(inverse, sub, group, Ghost(pairs));
        if !done {
            return false;
        }
        group = group + 1;
    }
    assert(Seq::<Pair>::empty() + groups_pairs(sub@, groups as int)->0 =~= groups_pairs(
        sub@,
        groups as int,
    )->0);
    true
}

/// Picks the best Unicode subtable of a `cmap` table.
fn pick_subtable(cmap: &[u8]) -> (offset: Option<u32>)
    ensures
        match be16(cmap@, 2) {
            None => offset is None,
            Some(n) => match best_subtable(cmap@, 0, n, None) {
                Some(Some(best)) => offset matches Some(o) && o == best.1,
                _ => offset is None,
            },
        },
{
    let count: usize = match read_u16(cmap, 2) {
        None => {
            return None;
        },
        Some(count) => count as usize,
    };
    let mut best: Option<(u32, u32)> = None;
    let mut i: usize = 0;
    while i < count
        invariant
            i <= count <= 0xFFFF,
            be16(cmap@, 2) == Some(count as int),
            best_subtable(cmap@, 0, count as int, None) == best_subtable(
                cmap@,
                i as int,
                count as int,
                match best {
                    None => None,
                    Some(b) => Some((b.0 as int, b.1 as int)),
                },
            ),
        decreases count - i,
    {
        let record: usize = 4 + i * 8;
        let (platform, encoding, offset): (u16, u16, u32) = match (
            read_u16(cmap, record),
            read_u16(cmap, record + 2),
            read_u32(cmap, record + 4),
        ) {
            (Some(platform), Some(encoding), Some(offset)) => (platform, encoding, offset),
            _ => {
                return None;
            },
        };
        let score: u32 = if (platform == 3 && encoding == 10) || (platform == 0 && (encoding == 4
            || encoding == 6)) {
            4
        } else if (platform == 3 && encoding == 1) || (platform == 0 && encoding <= 3) {
            3
        } else {
            0
        };
        let better: bool = score > 0 && match best {
            None => true,
            Some(b) => score > b.0,
        };
        if better {
            best = Some((score, offset));
        }
        i = i + 1;
    }
    match best {
        None => None,
        Some(b) => Some(b.1),
    }
}

/// Cuts the subtable at `offset` to its declared length and names its format.
fn cut_subtable<'a>(cmap: &'a [u8], offset: u32) -> (cut: Option<(u16, &'a [u8])>)
    ensures
        match subtable_at(cmap@, offset as int) {
            None => cut is None,
            Some(expected) => cut matches Some(c) && c.0 == expected.0 && c.1@ == expected.1,
        },
{
    let from: usize = offset as usize;
    if from > cmap.len() {
        return None;
    }
    let rest: &'a [u8] = vstd::slice::slice_subrange(cmap, from, cmap.len());
    let format: u16 = match read_u16(rest, 0) {
        None => {
            return None;
        },
        Some(format) => format,
    };
    let length: usize = if format == 0 || format == 4 || format == 6 {
        match read_u16(rest, 2) {
            None => {
                return None;
            },
            Some(length) => length as usize,
        }
    } else if format == 12 {
        match read_u32(rest, 4) {
            None => {
                return None;
            },
            Some(length) => length as usize,
        }
    } else {
        return None;
    };
    if length > rest.len() {
        return None;
    }
    Some((format, vstd::slice::slice_subrange(rest, 0, length)))
}

/// Builds the glyph-to-character map of an sfnt font program. Returns `None`
/// when the data is not sfnt, has no usable Unicode subtable, lists more pairs
/// than the bound allows, or lists no usable pair.
pub fn reverse_cmap(data: &[u8]) -> (map: Option<HashMap<u32, u32>>)
    ensures
        match font_pairs(data@) {
            None => map is None,
            Some(pairs) => if has_usable(pairs) {
                map matches Some(m) && inverts(m@, pairs)
            } else {
                map is None
            },
        },
{
    broadcast use group_hash_axioms;

    let directory: usize = match sfnt_directory(data) {
        None => {
            return None;
        },
        Some(directory) => directory,
    };
    let tag: [u8; 4] = [0x63, 0x6D, 0x61, 0x70];
    assert(tag@ =~= cmap_tag());
    let cmap: &[u8] = match find_table(data, directory, &tag) {
        None => {
            return None;
        },
        Some(table) => table,
    };
    let offset: u32 = match pick_subtable(cmap) {
        None => {
            return None;
        },
        Some(offset) => offset,
    };
    let (format, sub): (u16, &[u8]) = match cut_subtable(cmap, offset) {
        None => {
            return None;
        },
        Some(cut) => cut,
    };
    assert(chosen_subtable(data@) == Some((format as int, sub@)));
    let mut inverse: Inverse = Inverse::new();
    let done: bool = if format == 0 {
        add_byte_table(&mut inverse, sub)
    } else if format == 4 {
        add_segmented(&mut inverse, sub)
    } else if format == 6 {
        add_trimmed(&mut inverse, sub)
    } else {
        add_grouped(&mut inverse, sub)
    };
    assert(extends(&inverse, done, Seq::empty(), listed_pairs(format as int, sub@)));
    if !done {
        return None;
    }
    let ghost pairs = listed_pairs(format as int, sub@)->0;
    assert(Seq::<Pair>::empty() + pairs =~= pairs);
    if inverse.map.is_empty() {
        proof {
            assert(inverse.map@.dom().len() == 0);
            assert forall|i: int| 0 <= i < pairs.len() implies !usable(#[trigger] pairs[i]) by {
                if usable(pairs[i]) {
                    assert(inverse.map@.contains_key(pairs[i].0));
                    assert(inverse.map@.dom().contains(pairs[i].0));
                }
            }
        }
        None
    } else {
        proof {
            let glyph = inverse.map@.dom().choose();
            assert(inverse.map@.contains_key(glyph));
        }
        Some(inverse.map)
    }
}

} // verus!
