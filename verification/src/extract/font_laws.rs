//! What the character map of a font says of its glyphs.

use vstd::prelude::*;

use crate::extract::font_cmap::{
    be16, be32, best_subtable, group_pairs, groups_pairs, inverts, pairs_byte_table, pairs_grouped,
    pairs_segmented, pairs_trimmed, segment_glyph, segment_pairs, segments_pairs, slice_of,
    table_from, table_of, whole_segment, Pair,
};

verus! {

/// Words are read with their first byte counting most: a long word is two short ones, the first
/// in front, and a short one is two bytes; neither reads beyond the data.
pub proof fn first_bytes_count_most(data: Seq<u8>, at: int)
    ensures
        be16(data, at) is Some <==> 0 <= at && at + 1 < data.len(),
        be32(data, at) is Some <==> 0 <= at && at + 3 < data.len(),
        be16(data, at) matches Some(w) ==> w / 256 == data[at] && w % 256 == data[at + 1],
        be32(data, at) matches Some(w) ==> w / 65_536 == be16(data, at)->0 && w % 65_536 == be16(
            data,
            at + 2,
        )->0,
{
}

/// Whether a number names a character that can be shown: not a control code, and no half of a
/// pair.
pub open spec fn shows(code: u32) -> bool {
    0x20 <= code <= 0x7E || 0xA0 <= code <= 0xD7FF || 0xE000 <= code <= 0x10_FFFF
}

/// A glyph reads as the smallest character listed for it outside of private use, else as the
/// smallest in private use. The missing glyph and characters that are not shown do not count.
pub proof fn glyphs_read_as_their_smallest_character(
    map: Map<u32, u32>,
    pairs: Seq<Pair>,
    glyph: u32,
    code: u32,
)
    requires
        inverts(map, pairs),
        pairs.contains((glyph, code)),
        glyph != 0,
        shows(code),
    ensures
        map.contains_key(glyph),
        pairs.contains((glyph, map[glyph])),
        shows(map[glyph]),
        !(0xE000 <= code <= 0xF8FF) ==> !(0xE000 <= map[glyph] <= 0xF8FF) && map[glyph] <= code,
        0xE000 <= code <= 0xF8FF && 0xE000 <= map[glyph] <= 0xF8FF ==> map[glyph] <= code,
{
    let i = pairs.index_of((glyph, code));
    assert(pairs[i] == (glyph, code));
    assert(crate::extract::font_cmap::usable(pairs[i]));
    assert(map.contains_key(glyph));
    let j = choose|j: int|
        0 <= j < pairs.len() && crate::extract::font_cmap::usable(#[trigger] pairs[j]) && pairs[j].0
            == glyph && pairs[j].1 == map[glyph];
    assert(pairs[j] == (glyph, map[glyph]));
}

/// A glyph for which no shown character is listed has none.
pub proof fn other_glyphs_read_as_nothing(map: Map<u32, u32>, pairs: Seq<Pair>, glyph: u32)
    requires
        inverts(map, pairs),
        forall|i: int|
            0 <= i < pairs.len() && (#[trigger] pairs[i]).0 == glyph ==> glyph == 0 || !shows(
                pairs[i].1,
            ),
    ensures
        !map.contains_key(glyph),
{
}

/// Whether an encoding covers all of Unicode.
pub open spec fn is_full(platform: int, encoding: int) -> bool {
    platform == 3 && encoding == 10 || platform == 0 && encoding == 4 || platform == 0 && encoding
        == 6
}

/// Whether an encoding covers the basic plane.
pub open spec fn is_basic(platform: int, encoding: int) -> bool {
    platform == 3 && encoding == 1 || platform == 0 && (encoding == 0 || encoding == 1 || encoding
        == 2 || encoding == 3)
}

/// Whether record `k` of a character map states this platform, encoding and place.
pub open spec fn states(cmap: Seq<u8>, k: int, platform: int, encoding: int, offset: int) -> bool {
    be16(cmap, 4 + 8 * k) == Some(platform) && be16(cmap, 6 + 8 * k) == Some(encoding) && be32(
        cmap,
        8 + 8 * k,
    ) == Some(offset)
}

proof fn lemma_best(cmap: Seq<u8>, i: int, n: int, best: Option<(int, int)>)
    requires
        0 <= i <= n,
        best is Some ==> (best->Some_0).0 == 3 || (best->Some_0).0 == 4,
    ensures
        best_subtable(cmap, i, n, best) is Some ==> forall|k: int|
            i <= k < n ==> #[trigger] be16(cmap, 4 + 8 * k) is Some && be16(cmap, 6 + 8 * k) is Some
                && be32(cmap, 8 + 8 * k) is Some,
        best_subtable(cmap, i, n, best) matches Some(found) ==> {
            &&& best is Some ==> found is Some && (found->Some_0).0 >= (best->Some_0).0
            &&& best is Some && (found->Some_0).0 == (best->Some_0).0 ==> found == best
            &&& found is None ==> best is None && forall|k: int, p: int, e: int, o: int|
                i <= k < n && #[trigger] states(cmap, k, p, e, o) ==> !is_full(p, e) && !is_basic(
                    p,
                    e,
                )
            &&& found is Some ==> (found->Some_0).0 == 3 || (found->Some_0).0 == 4
            &&& found is Some && (found->Some_0).0 == 3 ==> forall|k: int, p: int, e: int, o: int|
                i <= k < n && #[trigger] states(cmap, k, p, e, o) ==> !is_full(p, e)
            &&& found is Some && found != best ==> exists|k: int, p: int, e: int|
                i <= k < n && #[trigger] states(cmap, k, p, e, (found->Some_0).1) && (if (
                found->Some_0).0 == 4 {
                    is_full(p, e)
                } else {
                    is_basic(p, e)
                }) && forall|j: int, q: int, f: int, o: int|
                    i <= j < k && #[trigger] states(cmap, j, q, f, o) ==> if (found->Some_0).0
                        == 4 {
                        !is_full(q, f)
                    } else {
                        !is_basic(q, f)
                    }
        },
    decreases n - i,
{
    if i < n {
        let record = 4 + i * 8;
        match (be16(cmap, record), be16(cmap, record + 2), be32(cmap, record + 4)) {
            (Some(platform), Some(encoding), Some(offset)) => {
                let score = crate::extract::font_cmap::unicode_score(platform, encoding);
                let better = score > 0 && (best matches Some(b) ==> score > b.0);
                let next = if better {
                    Some((score, offset))
                } else {
                    best
                };
                lemma_best(cmap, i + 1, n, next);
                assert(states(cmap, i, platform, encoding, offset));
                if let Some(found) = best_subtable(cmap, i, n, best) {
                    if found is Some && found != best {
                        if found == next {
                            assert forall|j: int, q: int, f: int, o: int|
                                i <= j < i && #[trigger] states(cmap, j, q, f, o) implies if (
                            found->Some_0).0 == 4 {
                                !is_full(q, f)
                            } else {
                                !is_basic(q, f)
                            } by {}
                        } else {
                            let (k, p, e) = choose|k: int, p: int, e: int|
                                i + 1 <= k < n && #[trigger] states(
                                    cmap,
                                    k,
                                    p,
                                    e,
                                    (found->Some_0).1,
                                ) && (if (found->Some_0).0 == 4 {
                                    is_full(p, e)
                                } else {
                                    is_basic(p, e)
                                }) && forall|j: int, q: int, f: int, o: int|
                                    i + 1 <= j < k && #[trigger] states(cmap, j, q, f, o) ==> if (
                                    found->Some_0).0 == 4 {
                                        !is_full(q, f)
                                    } else {
                                        !is_basic(q, f)
                                    };
                            assert(states(cmap, k, p, e, (found->Some_0).1));
                            assert forall|j: int, q: int, f: int, o: int|
                                i <= j < k && #[trigger] states(cmap, j, q, f, o) implies if (
                            found->Some_0).0 == 4 {
                                !is_full(q, f)
                            } else {
                                !is_basic(q, f)
                            } by {
                                if j == i {
                                    assert(q == platform && f == encoding);
                                }
                            }
                        }
                    }
                }
            },
            _ => {},
        }
    }
}

/// The subtable read is the first that covers all of Unicode, else the first that covers the
/// basic plane, else none.
pub proof fn fullest_subtables_are_read(cmap: Seq<u8>, n: int)
    requires
        n >= 0,
    ensures
        best_subtable(cmap, 0, n, None) matches Some(found) ==> {
            let full = exists|k: int, p: int, e: int, o: int|
                0 <= k < n && #[trigger] states(cmap, k, p, e, o) && is_full(p, e);
            let basic = exists|k: int, p: int, e: int, o: int|
                0 <= k < n && #[trigger] states(cmap, k, p, e, o) && is_basic(p, e);
            &&& found is Some <==> full || basic
            &&& full ==> exists|k: int, p: int, e: int|
                0 <= k < n && #[trigger] states(cmap, k, p, e, (found->Some_0).1) && is_full(p, e)
                    && forall|j: int, q: int, f: int, o: int|
                    0 <= j < k && #[trigger] states(cmap, j, q, f, o) ==> !is_full(q, f)
            &&& !full && basic ==> exists|k: int, p: int, e: int|
                0 <= k < n && #[trigger] states(cmap, k, p, e, (found->Some_0).1) && is_basic(p, e)
                    && forall|j: int, q: int, f: int, o: int|
                    0 <= j < k && #[trigger] states(cmap, j, q, f, o) ==> !is_basic(q, f)
        },
{
    lemma_best(cmap, 0, n, None);
}

/// A byte table lists a glyph for each of the first two hundred and fifty-six characters.
pub proof fn byte_tables_list_a_glyph_for_each_byte(sub: Seq<u8>, code: int)
    requires
        sub.len() >= 262,
        0 <= code < 256,
    ensures
        pairs_byte_table(sub) is Some,
        pairs_byte_table(sub)->0.len() == 256,
        pairs_byte_table(sub)->0[code] == (sub[code + 6] as u32, code as u32),
{
}

/// A trimmed table lists its glyphs for the characters from its first on.
pub proof fn trimmed_tables_list_consecutive_characters(
    sub: Seq<u8>,
    first: int,
    count: int,
    i: int,
)
    requires
        be16(sub, 6) == Some(first),
        be16(sub, 8) == Some(count),
        0 <= i < count,
        pairs_trimmed(sub) is Some,
    ensures
        sub.len() >= 10 + 2 * count,
        pairs_trimmed(sub)->0.len() == count,
        pairs_trimmed(sub)->0[i] == (
            (256 * sub[10 + 2 * i] + sub[11 + 2 * i]) as u32,
            (first + i) as u32,
        ),
{
}

proof fn lemma_groups(sub: Seq<u8>, n: int, g: int, k: int)
    requires
        0 <= g < n,
        groups_pairs(sub, n) is Some,
    ensures
        group_pairs(sub, g) is Some,
        0 <= k < group_pairs(sub, g)->0.len() ==> groups_pairs(sub, n)->0.contains(
            group_pairs(sub, g)->0[k],
        ),
    decreases n,
{
    let before = groups_pairs(sub, n - 1)->0;
    let here = group_pairs(sub, n - 1)->0;
    let all = groups_pairs(sub, n)->0;
    if g < n - 1 {
        lemma_groups(sub, n - 1, g, k);
        if 0 <= k < group_pairs(sub, g)->0.len() {
            let x = group_pairs(sub, g)->0[k];
            let at = before.index_of(x);
            assert(all[at] == x);
        }
    } else if 0 <= k < here.len() {
        assert(all[before.len() + k] == here[k]);
    }
}

/// A table of groups lists, for each group, the glyphs from its glyph on for the characters from
/// its first to its last.
pub proof fn groups_list_consecutive_glyphs(
    sub: Seq<u8>,
    n: int,
    g: int,
    start: int,
    end: int,
    glyph: int,
    code: int,
)
    requires
        be32(sub, 12) == Some(n),
        pairs_grouped(sub) is Some,
        0 <= g < n,
        be32(sub, 16 + 12 * g) == Some(start),
        be32(sub, 20 + 12 * g) == Some(end),
        be32(sub, 24 + 12 * g) == Some(glyph),
        start <= code <= end,
    ensures
        pairs_grouped(sub)->0.contains(((glyph + (code - start)) as u32, code as u32)),
        end <= 0x10_FFFF,
        n <= 100_000,
{
    lemma_groups(sub, n, g, code - start);
    assert(group_pairs(sub, g)->0[code - start] == (
        (glyph + (code - start)) as u32,
        code as u32,
    ));
}

proof fn lemma_segment(sub: Seq<u8>, count: int, seg: int, start: int, until: int, code: int)
    requires
        segment_pairs(sub, count, seg, start, until) is Some,
        start <= code < until,
    ensures
        segment_glyph(sub, count, seg, start, code) is Some,
        segment_pairs(sub, count, seg, start, until)->0.contains(
            (segment_glyph(sub, count, seg, start, code)->0 as u32, code as u32),
        ),
    decreases until - start,
{
    let before = segment_pairs(sub, count, seg, start, until - 1)->0;
    let all = segment_pairs(sub, count, seg, start, until)->0;
    if code < until - 1 {
        lemma_segment(sub, count, seg, start, until - 1, code);
        let x = (segment_glyph(sub, count, seg, start, code)->0 as u32, code as u32);
        let at = before.index_of(x);
        assert(all[at] == x);
    } else {
        assert(all[before.len() as int] == (
            segment_glyph(sub, count, seg, start, code)->0 as u32,
            code as u32,
        ));
    }
}

proof fn lemma_segments(sub: Seq<u8>, count: int, n: int, seg: int, x: Pair)
    requires
        0 <= seg < n,
        segments_pairs(sub, count, n) is Some,
    ensures
        whole_segment(sub, count, seg) is Some,
        whole_segment(sub, count, seg)->0.contains(x) ==> segments_pairs(
            sub,
            count,
            n,
        )->0.contains(x),
    decreases n,
{
    let before = segments_pairs(sub, count, n - 1)->0;
    let here = whole_segment(sub, count, n - 1)->0;
    let all = segments_pairs(sub, count, n)->0;
    if seg < n - 1 {
        lemma_segments(sub, count, n - 1, seg, x);
        if before.contains(x) {
            let at = before.index_of(x);
            assert(all[at] == x);
        }
    } else if here.contains(x) {
        let at = here.index_of(x);
        assert(all[before.len() + at] == x);
    }
}

/// A table of segments lists, for a character between the ends of a segment without a glyph list,
/// the glyph that lies off by its difference, around the end of the numbers.
pub proof fn segments_list_shifted_glyphs(
    sub: Seq<u8>,
    count: int,
    seg: int,
    start: int,
    end: int,
    delta: int,
    code: int,
)
    requires
        be16(sub, 6) == Some(2 * count),
        pairs_segmented(sub) is Some,
        0 <= seg < count,
        be16(sub, 14 + 2 * seg) == Some(end),
        be16(sub, 16 + 2 * count + 2 * seg) == Some(start),
        be16(sub, 16 + 4 * count + 2 * seg) == Some(delta),
        be16(sub, 16 + 6 * count + 2 * seg) == Some(0int),
        start <= code <= end,
        code < 0xFFFF,
    ensures
        code + delta < 65_536 ==> pairs_segmented(sub)->0.contains(
            ((code + delta) as u32, code as u32),
        ),
        code + delta >= 65_536 ==> pairs_segmented(sub)->0.contains(
            ((code + delta - 65_536) as u32, code as u32),
        ),
{
    let until = if end < 0xFFFE {
        end + 1
    } else {
        0xFFFF
    };
    let glyph = (code + delta) % 0x1_0000;
    lemma_segments(sub, count, count, seg, (glyph as u32, code as u32));
    lemma_segment(sub, count, seg, start, until, code);
}

/// A table is found under the first record with its tag, at the place and with the length that
/// the record states.
pub proof fn tables_are_found_under_their_tags(
    font: Seq<u8>,
    directory: int,
    tag: Seq<u8>,
    n: int,
    k: int,
    offset: int,
    length: int,
)
    requires
        directory >= 0,
        tag.len() == 4,
        be16(font, directory + 4) == Some(n),
        0 <= k < n,
        directory + 28 + 16 * k <= font.len(),
        font.subrange(directory + 12 + 16 * k, directory + 16 + 16 * k) == tag,
        forall|j: int|
            0 <= j < k ==> #[trigger] slice_of(
                font,
                directory + 12 + j * 16,
                directory + 16 + j * 16,
            ) != Some(tag),
        be32(font, directory + 20 + 16 * k) == Some(offset),
        be32(font, directory + 24 + 16 * k) == Some(length),
    ensures
        offset + length <= font.len() ==> table_of(font, directory, tag) == Some(
            font.subrange(offset, offset + length),
        ),
        offset + length > font.len() ==> table_of(font, directory, tag) is None,
{
    lemma_table(font, directory, tag, 0, n, k);
}

proof fn lemma_table(font: Seq<u8>, directory: int, tag: Seq<u8>, i: int, n: int, k: int)
    requires
        directory >= 0,
        0 <= i <= k < n,
        directory + 28 + 16 * k <= font.len(),
        font.subrange(directory + 12 + 16 * k, directory + 16 + 16 * k) == tag,
        forall|j: int|
            0 <= j < k ==> #[trigger] slice_of(
                font,
                directory + 12 + j * 16,
                directory + 16 + j * 16,
            ) != Some(tag),
    ensures
        table_from(font, directory, tag, i, n) == table_from(font, directory, tag, k, n),
        slice_of(font, directory + 12 + k * 16, directory + 16 + k * 16) == Some(tag),
    decreases k - i,
{
    if i < k {
        assert(slice_of(font, directory + 12 + i * 16, directory + 16 + i * 16) != Some(tag));
        lemma_table(font, directory, tag, i + 1, n, k);
    }
}

} // verus!
