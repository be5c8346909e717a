//! Which standing and slanted runs share a band.

use vstd::prelude::*;

use super::assemble::{band_size, band_top, same_band, AlignedItem};
use super::assembly_laws::apart;

verus! {

/// A height, taken for at least one point and at most twenty-four.
pub open spec fn kept_low(height: int) -> int {
    if height > 240_000 {
        240_000
    } else if height < 10_000 {
        10_000
    } else {
        height
    }
}

proof fn lemma_top(band: Seq<AlignedItem>, n: int)
    requires
        0 <= n <= band.len(),
        band.len() > 0,
    ensures
        forall|i: int| 0 <= i < n ==> band_top(band, n) <= (#[trigger] band[i]).bbox.top,
        exists|i: int| 0 <= i < band.len() && (#[trigger] band[i]).bbox.top == band_top(band, n),
    decreases n,
{
    if n > 0 {
        lemma_top(band, n - 1);
        assert(band[n - 1].bbox.top == band[n - 1].bbox.top);
    } else {
        assert(band[0].bbox.top == band_top(band, 0));
    }
}

/// The top of a band is that of its highest run.
pub proof fn bands_start_at_their_highest_run(band: Seq<AlignedItem>)
    requires
        band.len() > 0,
    ensures
        forall|i: int|
            0 <= i < band.len() ==> band_top(band, band.len() as int) <= (
            #[trigger] band[i]).bbox.top,
        exists|i: int|
            0 <= i < band.len() && (#[trigger] band[i]).bbox.top == band_top(
                band,
                band.len() as int,
            ),
{
    lemma_top(band, band.len() as int);
}

/// The size of a band is the height of its highest run, between one point and twenty-four.
pub proof fn bands_are_as_high_as_their_runs(band: Seq<AlignedItem>, n: int)
    requires
        0 < n <= band.len(),
    ensures
        10_000 <= band_size(band, n) <= 240_000,
        forall|i: int|
            0 <= i < n ==> kept_low((#[trigger] band[i]).bbox.bottom - band[i].bbox.top)
                <= band_size(band, n),
        exists|i: int|
            0 <= i < n && kept_low((#[trigger] band[i]).bbox.bottom - band[i].bbox.top)
                == band_size(band, n),
    decreases n,
{
    if n > 1 {
        bands_are_as_high_as_their_runs(band, n - 1);
        let i = choose|i: int|
            0 <= i < n - 1 && kept_low((#[trigger] band[i]).bbox.bottom - band[i].bbox.top)
                == band_size(band, n - 1);
        assert(band[i].bbox.top == band[i].bbox.top);
    } else {
        assert(band_size(band, 0) == 10_000);
    }
    assert(band[n - 1].bbox.top == band[n - 1].bbox.top);
}

/// A standing or slanted run shares a band where it stands as the first run does, is turned from
/// it by at most two degrees, and its top is off by less than half of the lower height, or by
/// less than three tenths where the run is higher than twenty-four points and twice the band.
pub proof fn turned_runs_share_a_top(band: Seq<AlignedItem>, item: AlignedItem)
    requires
        band.len() > 0,
        item.bbox.bottom > item.bbox.top,
    ensures
        ({
            let size = band_size(band, band.len() as int);
            let raw = item.bbox.bottom - item.bbox.top;
            let low = if size < kept_low(raw) {
                size
            } else {
                kept_low(raw)
            };
            let high = !item.vertical && raw > 240_000 && raw > 2 * size;
            let off = apart(item.bbox.top as int, band_top(band, band.len() as int));
            same_band(band, item) <==> item.vertical == band[0].vertical && -20_000
                <= item.item.rotation.angle - band[0].item.rotation.angle <= 20_000 && (if high {
                10 * off < 3 * low
            } else {
                2 * off < low
            })
        }),
{
}

} // verus!
