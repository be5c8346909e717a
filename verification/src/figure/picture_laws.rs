//! Which pixels show a part of a page, and which image a block gets.

use vstd::prelude::*;

use crate::blocks::{Block, FigureSource};
use crate::figure::delivery::{asks, block_offer, block_parts};
use crate::figure::images::EmbeddedImage;
use crate::figure::raster::{rows_upto, PixelBounds, RenderedPage};
use crate::geometry::Bbox;

verus! {

proof fn lemma_floor(x: int, pixels: int, extent: int)
    requires
        extent > 0,
    ensures
        ({
            let q = (x * pixels) / extent;
            q * extent <= x * pixels && x * pixels < q * extent + extent
        }),
{
    let top = x * pixels;
    vstd::arithmetic::div_mod::lemma_fundamental_div_mod(top, extent);
    vstd::arithmetic::div_mod::lemma_mod_bound(top, extent);
    assert(extent * (top / extent) == (top / extent) * extent) by (nonlinear_arith);
}

/// The pixels of a box on the page are those that touch it, and no others: its left and upper
/// edge lie in the first, its right and lower edge in the last.
pub proof fn pixels_touch_their_box(page: RenderedPage, b: Bbox)
    requires
        page.viewport_width > 0,
        page.viewport_height > 0,
        0 <= b.left <= b.right <= page.viewport_width,
        0 <= b.top <= b.bottom <= page.viewport_height,
    ensures
        ({
            let p = page.pixels_of(b);
            let (w, h) = (page.width as int, page.height as int);
            let (vw, vh) = (page.viewport_width as int, page.viewport_height as int);
            &&& p.left * vw <= b.left * w && b.left * w < p.left * vw + vw
            &&& p.top * vh <= b.top * h && b.top * h < p.top * vh + vh
            &&& p.right * vw >= b.right * w && b.right * w > p.right * vw - vw
            &&& p.bottom * vh >= b.bottom * h && b.bottom * h > p.bottom * vh - vh
            &&& p.left <= w && p.right <= w && p.top <= h && p.bottom <= h
        }),
{
    let (w, h) = (page.width as int, page.height as int);
    let (vw, vh) = (page.viewport_width as int, page.viewport_height as int);
    lemma_low(b.left as int, w, vw);
    lemma_low(b.top as int, h, vh);
    lemma_high(b.right as int, w, vw);
    lemma_high(b.bottom as int, h, vh);
}

proof fn lemma_low(x: int, n: int, v: int)
    requires
        v > 0,
        0 <= x <= v,
        0 <= n,
    ensures
        ({
            let q = (x * n) / v;
            0 <= q <= n && q * v <= x * n && x * n < q * v + v
        }),
{
    lemma_floor(x, n, v);
    let q = (x * n) / v;
    assert(0 <= q <= n) by (nonlinear_arith)
        requires
            q * v <= x * n,
            x * n < q * v + v,
            0 <= x <= v,
            0 <= n,
            v > 0,
    {
        assert(0 <= x * n);
        assert(x * n <= v * n);
        if q < 0 {
            assert(q * v + v <= 0);
        }
        if q > n {
            assert(q * v >= (n + 1) * v);
            assert((n + 1) * v == n * v + v);
        }
    }
}

proof fn lemma_high(x: int, n: int, v: int)
    requires
        v > 0,
        0 <= x <= v,
        0 <= n,
    ensures
        ({
            let q = -((-x * n) / v);
            0 <= q <= n && q * v >= x * n && x * n > q * v - v
        }),
{
    lemma_floor(-x, n, v);
    let m = (-x * n) / v;
    let q = -m;
    assert(-x * n == -(x * n)) by (nonlinear_arith);
    assert(m * v == -(q * v)) by (nonlinear_arith)
        requires
            m == -q,
    ;
    assert(0 <= q <= n) by (nonlinear_arith)
        requires
            q * v >= x * n,
            x * n > q * v - v,
            0 <= x <= v,
            0 <= n,
            v > 0,
    {
        assert(0 <= x * n);
        assert(x * n <= v * n);
        if q < 0 {
            assert(q * v <= -v);
        }
        if q > n {
            assert(q * v >= (n + 1) * v);
            assert((n + 1) * v == n * v + v);
        }
    }
}

proof fn lemma_rows(pixels: Seq<u8>, width: int, bounds: PixelBounds, n: int, r: int, k: int)
    requires
        0 <= r < n <= bounds.bottom - bounds.top,
        bounds.left <= bounds.right <= width,
        0 <= k < 3 * (bounds.right - bounds.left),
        (bounds.bottom * width) * 3 <= pixels.len(),
    ensures
        ({
            let row = 3 * (bounds.right - bounds.left);
            &&& rows_upto(pixels, width, bounds, n).len() == n * row
            &&& 0 <= r * row + k < n * row
            &&& rows_upto(pixels, width, bounds, n)[r * row + k] == pixels[3 * ((bounds.top + r)
                * width + bounds.left) + k]
        }),
    decreases n,
{
    let row = 3 * (bounds.right - bounds.left);
    let at = (bounds.top + n - 1) * width;
    assert(at + bounds.right <= bounds.bottom * width && at >= 0) by (nonlinear_arith)
        requires
            at == (bounds.top + n - 1) * width,
            0 < n <= bounds.bottom - bounds.top,
            bounds.right <= width,
            width >= 0,
            bounds.top >= 0,
    {
        assert((bounds.top + n - 1) * width <= (bounds.bottom - 1) * width);
        assert((bounds.bottom - 1) * width == bounds.bottom * width - width);
    }
    assert(r * row + k < n * row && r * row >= 0) by (nonlinear_arith)
        requires
            0 <= r < n,
            0 <= k < row,
    {
        assert((r + 1) * row <= n * row);
        assert((r + 1) * row == r * row + row);
    }
    let here = pixels.subrange((at + bounds.left) * 3, (at + bounds.right) * 3);
    assert(here.len() == row);
    assert(n * row == (n - 1) * row + row) by (nonlinear_arith);
    if n > 1 {
        if r < n - 1 {
            lemma_rows(pixels, width, bounds, n - 1, r, k);
        } else {
            lemma_rows(pixels, width, bounds, n - 1, 0, k);
        }
    } else {
        assert(rows_upto(pixels, width, bounds, 0).len() == 0);
        assert((n - 1) * row == 0) by (nonlinear_arith)
            requires
                n == 1,
        ;
    }
    let before = rows_upto(pixels, width, bounds, n - 1);
    assert(before.len() == (n - 1) * row);
    if r == n - 1 {
        assert(r * row == (n - 1) * row);
        assert(rows_upto(pixels, width, bounds, n)[r * row + k] == here[k]);
    }
}

/// A picture of a part of the page holds each of its pixels where it stands: in its row, counted
/// from the upper edge, and its column, counted from the left one.
pub proof fn pictures_hold_their_pixels(
    page: RenderedPage,
    bounds: PixelBounds,
    row: int,
    column: int,
    channel: int,
)
    requires
        page.wf(),
        page.shows(bounds),
        0 <= row < bounds.bottom - bounds.top,
        0 <= column < bounds.right - bounds.left,
        0 <= channel < 3,
    ensures
        ({
            let wide = bounds.right - bounds.left;
            let bytes = page.bytes_of(bounds);
            &&& bytes.len() == 3 * (wide * (bounds.bottom - bounds.top))
            &&& bytes[3 * (row * wide + column) + channel] == page.pixels@[3 * ((bounds.top + row)
                * page.width + bounds.left + column) + channel]
        }),
{
    let wide = bounds.right - bounds.left;
    let high = bounds.bottom - bounds.top;
    let n = page.width as int;
    assert((bounds.bottom * n) * 3 <= page.pixels@.len()) by (nonlinear_arith)
        requires
            page.pixels@.len() == n * page.height * 3,
            bounds.bottom <= page.height,
            n >= 0,
    ;
    let k = 3 * column + channel;
    lemma_rows(page.pixels@, n, bounds, high, row, k);
    assert(row * (3 * wide) + k == 3 * (row * wide + column) + channel) by (nonlinear_arith)
        requires
            k == 3 * column + channel,
    ;
    assert(high * (3 * wide) == 3 * (wide * high)) by (nonlinear_arith);
    assert(3 * ((bounds.top + row) * n + bounds.left) + k == 3 * ((bounds.top + row) * n
        + bounds.left + column) + channel);
}

/// An image file of the document is handed over as it is, with its size; pixels are only encoded
/// where there are four bytes for each; and an image without bytes is cut out of the page.
pub proof fn image_files_are_kept(image: EmbeddedImage, page: RenderedPage)
    ensures
        image.format is None || image.bytes is None || image.bytes->0@.len() == 0
            ==> image.prepared(page) == page.picture(image.bounds),
        image.bytes is Some && image.bytes->0@.len() > 0 && image.format is Some
            && image.format->0 is Encoded ==> image.prepared(page) is Ok && image.prepared(
            page,
        )->Ok_0.bytes == image.bytes->0@ && image.prepared(page)->Ok_0.width
            == image.pixel_width && image.prepared(page)->Ok_0.height == image.pixel_height
            && image.prepared(page)->Ok_0.source == FigureSource::Embedded,
        image.bytes is Some && image.bytes->0@.len() > 0 && image.format is Some
            && image.format->0 is Rgba && image.bytes->0@.len() != 4 * (image.pixel_width
            * image.pixel_height) ==> image.prepared(page) is Err,
{
}

/// A block is offered an image where it shows a picture or was matched to one: a chart, an image
/// in the body, a head or a foot, or a seal. A matched image is offered once; a picture of several
/// images, or without one, is cut out of the page.
pub proof fn pictures_are_offered_images(
    images: Seq<EmbeddedImage>,
    block: Block,
    page: RenderedPage,
    delivered: Seq<bool>,
)
    ensures
        asks(block) <==> block.label is Chart || block.label is FooterImage
            || block.label is HeaderImage || block.label is Image || block.label is Seal
            || block.embedded_image_index is Some,
        !asks(block) ==> block_offer(images, block, page, delivered) is Skip,
        asks(block) && block_parts(images, block, page.viewport()).len() == 0 && (
        block.embedded_image_index matches Some(k) && k < delivered.len() && delivered[k as int])
            ==> block_offer(images, block, page, delivered) is Skip,
        asks(block) && block.embedded_image_index is None ==> !(block_offer(
            images,
            block,
            page,
            delivered,
        ) is Skip),
        block_parts(images, block, page.viewport()).len() > 0 ==> block_offer(
            images,
            block,
            page,
            delivered,
        ) == crate::figure::delivery::offer_of(page.picture(block.bbox)),
        block_parts(images, block, page.viewport()).len() > 0 ==> block.label is Image
            && block_parts(images, block, page.viewport()).len() >= 2,
{
}

} // verus!
