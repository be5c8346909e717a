//! What of a block decides where it is read.

use vstd::prelude::*;

use super::edges::{is_marginal, is_upright_line, seat_of, upended};
use super::reading::{arranged, block_at, repeated_from};
use crate::blocks::Block;
use crate::geometry::Bbox;
use crate::types::WritingDirection;

verus! {

/// Whether an angle is within two degrees of a quarter or three quarters of a turn, either way.
pub open spec fn stands_on_end(angle: int) -> bool {
    880_000 <= angle <= 920_000 || 2_680_000 <= angle <= 2_720_000 || -920_000 <= angle <= -880_000
        || -2_720_000 <= angle <= -2_680_000
}

/// Text stands on end where it is nearly turned by a quarter.
pub proof fn turned_text_stands_on_end(angle: int)
    ensures
        upended(angle) <==> stands_on_end(angle),
{
}

/// A block stands in the margin where it is at least three times as high as wide, and is an aside
/// or has a line that runs down or up the page.
pub proof fn narrow_turned_blocks_stand_in_the_margin(block: Block)
    ensures
        is_marginal(block) <==> block.bbox.bottom - block.bbox.top >= 3 * (block.bbox.right
            - block.bbox.left) && (block.label is AsideText || exists|i: int|
            0 <= i < block.lines@.len() && ((#[trigger] block.lines@[i]).direction
                == WritingDirection::Vertical || stands_on_end(
                block.lines@[i].rotation.angle as int,
            ))),
{
    assert forall|i: int| 0 <= i < block.lines@.len() implies is_upright_line(
        #[trigger] block.lines@[i],
    ) == (block.lines@[i].direction == WritingDirection::Vertical || stands_on_end(
        block.lines@[i].rotation.angle as int,
    )) by {
        turned_text_stands_on_end(block.lines@[i].rotation.angle as int);
    }
    if is_marginal(block) && !(block.label is AsideText) {
        let i = choose|i: int|
            0 <= i < block.lines@.len() && is_upright_line(#[trigger] block.lines@[i]);
        assert(is_upright_line(block.lines@[i]));
    }
    if exists|i: int|
        0 <= i < block.lines@.len() && ((#[trigger] block.lines@[i]).direction
            == WritingDirection::Vertical || stands_on_end(
            block.lines@[i].rotation.angle as int,
        )) {
        let i = choose|i: int|
            0 <= i < block.lines@.len() && ((#[trigger] block.lines@[i]).direction
                == WritingDirection::Vertical || stands_on_end(
                block.lines@[i].rotation.angle as int,
            ));
        assert(is_upright_line(block.lines@[i]));
    }
}

/// A block is read by what it is: charts, images and tables are objects, titles of figures are
/// captions, and its identity, box, region and order are its own.
pub proof fn seats_say_what_blocks_are(block: Block)
    ensures
        seat_of(block).id == block.id,
        seat_of(block).bbox == block.bbox,
        seat_of(block).region == block.model_region_id,
        seat_of(block).model_order == block.model_order,
        seat_of(block).fallback == block.fallback_region_id,
        seat_of(block).visual <==> block.label is Chart || block.label is Image
            || block.label is Table,
        seat_of(block).caption <==> block.label is FigureTitle,
        seat_of(block).marginal <==> is_marginal(block),
{
}

/// An identity is reported as repeated where two blocks have it, and none where no two have one.
pub proof fn repeated_identities_are_found(blocks: Seq<Block>, from: int)
    requires
        0 <= from <= blocks.len(),
    ensures
        match repeated_from(blocks, from) {
            None => forall|a: int, b: int|
                0 <= a < b < blocks.len() && from <= b ==> (#[trigger] blocks[a]).id@ != (
                #[trigger] blocks[b]).id@,
            Some(id) => exists|a: int, b: int|
                0 <= a < b < blocks.len() && (#[trigger] blocks[a]).id@ == id && (
                #[trigger] blocks[b]).id@ == id,
        },
    decreases blocks.len() - from,
{
    if from < blocks.len() {
        if exists|k: int| 0 <= k < from && (#[trigger] blocks[k]).id@ == blocks[from].id@ {
            let k = choose|k: int| 0 <= k < from && (#[trigger] blocks[k]).id@ == blocks[from].id@;
            assert(blocks[k].id@ == blocks[from].id@);
        } else {
            repeated_identities_are_found(blocks, from + 1);
        }
    }
}

proof fn lemma_at(blocks: Seq<Block>, id: Seq<char>, from: int, k: int)
    requires
        0 <= from <= k < blocks.len(),
        blocks[k].id@ == id,
    ensures
        from <= block_at(blocks, id, from) <= k,
        blocks[block_at(blocks, id, from)].id@ == id,
    decreases blocks.len() - from,
{
    if blocks[from].id@ != id {
        lemma_at(blocks, id, from + 1, k);
    }
}

/// Blocks are put in the order of their identities, and numbered from zero in it; all else of
/// them stays.
pub proof fn blocks_are_numbered_in_their_order(
    blocks: Seq<Block>,
    ids: Seq<Seq<char>>,
    k: int,
    at: int,
)
    requires
        0 <= k < ids.len() <= u32::MAX,
        0 <= at < blocks.len(),
        blocks[at].id@ == ids[k],
    ensures
        arranged(blocks, ids).len() == ids.len(),
        arranged(blocks, ids)[k].id@ == ids[k],
        arranged(blocks, ids)[k].final_order == k,
        (forall|j: int| 0 <= j < at ==> (#[trigger] blocks[j]).id@ != ids[k]) ==> arranged(
            blocks,
            ids,
        )[k].bbox == blocks[at].bbox && arranged(blocks, ids)[k].text == blocks[at].text
            && arranged(blocks, ids)[k].label == blocks[at].label,
{
    lemma_at(blocks, ids[k], 0, at);
}

/// Boxes are apart by the space between them, along and across the page, and share none then.
pub proof fn boxes_are_apart_or_share(a: Bbox, b: Bbox)
    requires
        a.left <= a.right,
        b.left <= b.right,
        a.top <= a.bottom,
        b.top <= b.bottom,
    ensures
        a.right < b.left ==> a.gap_x(b) == b.left - a.right && a.overlap_x(b) < 0,
        b.right < a.left ==> a.gap_x(b) == a.left - b.right && a.overlap_x(b) < 0,
        a.left <= b.right && b.left <= a.right ==> a.gap_x(b) == 0 && a.overlap_x(b) >= 0,
        a.left <= b.left && b.right <= a.right ==> a.overlap_x(b) == b.right - b.left,
        a.top <= b.top && b.bottom <= a.bottom ==> a.overlap_y(b) == b.bottom - b.top,
        a.top <= b.top && b.top <= a.bottom && a.bottom <= b.bottom ==> a.overlap_y(b) == a.bottom
            - b.top,
        a.gap_x(b) == b.gap_x(a),
        a.overlap_y(b) == b.overlap_y(a),
        a.holds(b) && b.holds(a) ==> a == b,
        a.holds(b) ==> a.join(b) == a,
{
}

} // verus!
