//! A subtable of a font program never borrows bytes from what follows it.

use vstd::prelude::*;

use super::font_cmap::{
    be16, be32, best_subtable, cmap_tag, directory_of, font_pairs, slice_of, subtable_at,
    table_from, table_of, tag_at,
};

verus! {

/// Whether two byte strings of one length agree on a range.
pub open spec fn agree(a: Seq<u8>, b: Seq<u8>, from: int, to: int) -> bool {
    a.len() == b.len() && forall|k: int|
        #![trigger a[k]]
        #![trigger b[k]]
        from <= k < to && 0 <= k < a.len() ==> a[k] == b[k]
}

/// Where the table of the first record with this tag lies, among records `i..n`.
pub open spec fn place_from(font: Seq<u8>, directory: int, tag: Seq<u8>, i: int, n: int) -> Option<
    (int, int),
>
    decreases n - i,
{
    if i >= n {
        None
    } else {
        let record = directory + 12 + i * 16;
        match tag_at(font, record) {
            None => None,
            Some(found) => if found == tag {
                match (be32(font, record + 8), be32(font, record + 12)) {
                    (Some(offset), Some(length)) => Some((offset, offset + length)),
                    _ => None,
                }
            } else {
                place_from(font, directory, tag, i + 1, n)
            },
        }
    }
}

/// What a subtable says of itself.
pub struct Declared {
    pub format: int,
    pub length: int,
}

/// Format and declared length of the subtable at `offset`.
pub open spec fn declared(cmap: Seq<u8>, offset: int) -> Option<Declared> {
    match be16(cmap, offset) {
        None => None,
        Some(format) => {
            let length = if format == 0 || format == 4 || format == 6 {
                be16(cmap, offset + 2)
            } else if format == 12 {
                be32(cmap, offset + 4)
            } else {
                None
            };
            match length {
                None => None,
                Some(l) => Some(Declared { format, length: l }),
            }
        },
    }
}

/// Number of bytes that state the format and the length of a subtable.
pub open spec fn header_size(format: int) -> int {
    if format == 12 {
        8
    } else {
        4
    }
}

/// A table is found at its place.
proof fn lemma_place(font: Seq<u8>, directory: int, tag: Seq<u8>, i: int, n: int)
    ensures
        table_from(font, directory, tag, i, n) == (match place_from(font, directory, tag, i, n) {
            None => None,
            Some((from, to)) => slice_of(font, from, to),
        }),
    decreases n - i,
{
    if i < n {
        lemma_place(font, directory, tag, i + 1, n);
    }
}

/// Equal directories place tables alike.
proof fn lemma_same_place(
    a: Seq<u8>,
    b: Seq<u8>,
    directory: int,
    tag: Seq<u8>,
    i: int,
    n: int,
)
    requires
        0 <= directory,
        0 <= i,
        agree(a, b, directory, directory + 12 + 16 * n),
    ensures
        place_from(a, directory, tag, i, n) == place_from(b, directory, tag, i, n),
    decreases n - i,
{
    if i < n {
        lemma_same_place(a, b, directory, tag, i + 1, n);
        let record = directory + 12 + i * 16;
        lemma_same_tag(a, b, record, directory, directory + 12 + 16 * n);
    }
}

/// A tag is read from its four bytes alone.
proof fn lemma_same_tag(a: Seq<u8>, b: Seq<u8>, at: int, from: int, to: int)
    requires
        agree(a, b, from, to),
        from <= at,
        at + 4 <= to,
    ensures
        tag_at(a, at) == tag_at(b, at),
{
    if 0 <= at && at + 4 <= a.len() {
        assert(a.subrange(at, at + 4) =~= b.subrange(at, at + 4));
    }
}

/// The choice of a subtable reads the list of records alone.
proof fn lemma_same_choice(a: Seq<u8>, b: Seq<u8>, i: int, n: int, best: Option<(int, int)>)
    requires
        0 <= i,
        agree(a, b, 0, 4 + 8 * n),
    ensures
        best_subtable(a, i, n, best) == best_subtable(b, i, n, best),
    decreases n - i,
{
    if i < n {
        let record = 4 + i * 8;
        match (be16(a, record), be16(a, record + 2), be32(a, record + 4)) {
            (Some(platform), Some(encoding), Some(offset)) => {
                let score = super::font_cmap::unicode_score(platform, encoding);
                let better = score > 0 && (best matches Some(b) ==> score > b.0);
                lemma_same_choice(
                    a,
                    b,
                    i + 1,
                    n,
                    if better {
                        Some((score, offset))
                    } else {
                        best
                    },
                );
            },
            _ => {},
        }
    }
}

/// A subtable is cut by what it declares.
proof fn lemma_cut(cmap: Seq<u8>, offset: int)
    requires
        0 <= offset,
        declared(cmap, offset) is Some,
    ensures
        subtable_at(cmap, offset) == (match slice_of(
            cmap,
            offset,
            offset + declared(cmap, offset)->Some_0.length,
        ) {
            None => None,
            Some(sub) => Some((declared(cmap, offset)->Some_0.format, sub)),
        }),
{
    let rest = cmap.subrange(offset, cmap.len() as int);
    let l = declared(cmap, offset)->Some_0.length;
    if offset + l <= cmap.len() {
        assert(rest.subrange(0, l) =~= cmap.subrange(offset, offset + l));
    }
}

/// Whether two fonts agree on the bytes that state the table directory of the first.
pub open spec fn same_directory(a: Seq<u8>, b: Seq<u8>, directory: int) -> bool {
    &&& agree(a, b, 0, 16)
    &&& be16(a, directory + 4) matches Some(n) && agree(
        a,
        b,
        directory,
        directory + 12 + 16 * n,
    )
}

/// Fonts that differ only in bytes of their `cmap` table behind its list of records and past the
/// declared end of the chosen subtable give the same pairs. The bytes that state the directory,
/// and those that state the format and length of the subtable, are not among them.
pub proof fn subtables_borrow_nothing(
    a: Seq<u8>,
    b: Seq<u8>,
    directory: int,
    start: int,
    end: int,
    offset: int,
    from: int,
)
    requires
        a.len() == b.len(),
        directory_of(a) == Some(directory),
        directory >= 0,
        same_directory(a, b, directory),
        place_from(a, directory, cmap_tag(), 0, be16(a, directory + 4)->0) == Some((start, end)),
        0 <= start <= end <= a.len(),
        forall|k: int|
            #![trigger a[k]]
            #![trigger b[k]]
            0 <= k < a.len() && !(from <= k < end) ==> a[k] == b[k],
        ({
            let cmap = a.subrange(start, end);
            &&& be16(cmap, 2) is Some
            &&& best_subtable(cmap, 0, be16(cmap, 2)->0, None) matches Some(Some(best)) && best.1
                == offset
            &&& offset >= 0
            &&& declared(cmap, offset) matches Some(said) && from >= start + offset
                + said.length && from >= start + offset + header_size(said.format)
            &&& from >= start + 4 + 8 * be16(cmap, 2)->0
        }),
    ensures
        font_pairs(a) == font_pairs(b),
        offset + declared(a.subrange(start, end), offset)->Some_0.length > end - start ==> font_pairs(a)
            is None,
{
    let n = be16(a, directory + 4)->0;
    let cmap = a.subrange(start, end);
    let other = b.subrange(start, end);
    lemma_same_tag(a, b, 0, 0, 16);
    lemma_same_tag(a, b, directory, directory, directory + 12 + 16 * n);
    assert(directory_of(b) == Some(directory));
    lemma_same_place(a, b, directory, cmap_tag(), 0, n);
    lemma_place(a, directory, cmap_tag(), 0, n);
    lemma_place(b, directory, cmap_tag(), 0, n);
    assert(table_of(a, directory, cmap_tag()) == Some(cmap));
    assert(table_of(b, directory, cmap_tag()) == Some(other));
    let count = be16(cmap, 2)->0;
    assert forall|k: int|
        #![trigger cmap[k]]
        #![trigger other[k]]
        0 <= k < cmap.len() && k < from - start implies cmap[k] == other[k] by {
        assert(a[start + k] == b[start + k]);
    }
    assert(agree(cmap, other, 0, from - start));
    assert(agree(cmap, other, 0, 4 + 8 * count));
    assert(be16(other, 2) == Some(count));
    lemma_same_choice(cmap, other, 0, count, None);
    let length = declared(cmap, offset)->Some_0.length;
    assert(declared(other, offset) == declared(cmap, offset));
    lemma_cut(cmap, offset);
    lemma_cut(other, offset);
    if offset + length <= cmap.len() {
        assert(cmap.subrange(offset, offset + length) =~= other.subrange(offset, offset + length));
    }
}

} // verus!
