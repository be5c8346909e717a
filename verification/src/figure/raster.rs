//! Rendered pages and crops of them.

use image::codecs::png::PngEncoder;
use image::ImageEncoder;
use vstd::prelude::*;

use crate::blocks::{FigureMediaType, FigureSource};
use crate::chars::push_text;
use crate::figure::images::{PreparedFigure, PreparedModel};
use crate::geometry::{floor_div, Bbox};

verus! {

/// How the bytes of pixels are laid out.
#[derive(Debug, Clone, Copy, PartialEq, Eq, Structural)]
pub enum PixelFormat {
    /// Red, green and blue.
    Rgb8,
    /// Red, green, blue and opacity.
    Rgba8,
}

impl PixelFormat {
    /// Bytes of one pixel.
    pub open spec fn depth(self) -> int {
        match self {
            PixelFormat::Rgb8 => 3,
            PixelFormat::Rgba8 => 4,
        }
    }
}

/// The PNG file of pixels, or why there is none, as the encoder of the `image`
/// crate answers.
pub uninterp spec fn png_of(
    pixels: Seq<u8>,
    width: u32,
    height: u32,
    format: PixelFormat,
) -> Result<Seq<u8>, Seq<char>>;

/// What a list of bytes or a reason says.
pub open spec fn file_model(file: Result<Vec<u8>, String>) -> Result<Seq<u8>, Seq<char>> {
    match file {
        Ok(bytes) => Ok(bytes@),
        Err(reason) => Err(reason@),
    }
}

/// Calls `PngEncoder::write_image` of the `image` crate.
///
/// The result is a function of the pixels, their number in each direction and
/// their layout, and is given a name; the error is its `Display` text. The call
/// asserts that the number of bytes fits the dimensions, which is required.
#[verifier::external_body]
fn encode_png(pixels: &Vec<u8>, width: u32, height: u32, format: PixelFormat) -> (file: Result<
    Vec<u8>,
    String,
>)
    requires
        pixels@.len() == width * height * format.depth(),
    ensures
        file_model(file) == png_of(pixels@, width, height, format),
{
    let color = match format {
        PixelFormat::Rgb8 => image::ExtendedColorType::Rgb8,
        PixelFormat::Rgba8 => image::ExtendedColorType::Rgba8,
    };
    let mut png = Vec::new();
    match PngEncoder::new(&mut png).write_image(pixels, width, height, color) {
        Ok(()) => Ok(png),
        Err(error) => Err(error.to_string()),
    }
}

/// A PNG file of pixels, or a reason that starts with the given words.
pub open spec fn png_or(file: Result<Seq<u8>, Seq<char>>, words: Seq<char>) -> Result<
    Seq<u8>,
    Seq<char>,
> {
    match file {
        Ok(bytes) => Ok(bytes),
        Err(reason) => Err(words + reason),
    }
}

/// Puts words in front of the reason why there is no file.
pub fn explain(file: Result<Vec<u8>, String>, words: &str) -> (explained: Result<Vec<u8>, String>)
    ensures
        file_model(explained) == png_or(file_model(file), words@),
{
    match file {
        Ok(bytes) => Ok(bytes),
        Err(reason) => {
            let mut text: String = String::new();
            push_text(&mut text, words);
            push_text(&mut text, reason.as_str());
            assert(text@ =~= words@ + reason@);
            Err(text)
        },
    }
}

/// Encodes pixels as a PNG file.
pub fn write_png(
    pixels: &Vec<u8>,
    width: u32,
    height: u32,
    format: PixelFormat,
    words: &str,
) -> (file: Result<Vec<u8>, String>)
    requires
        pixels@.len() == width * height * format.depth(),
    ensures
        file_model(file) == png_or(png_of(pixels@, width, height, format), words@),
{
    explain(encode_png(pixels, width, height, format), words)
}

/// A page as pixels of red, green and blue, and the part of the page they show.
#[derive(Debug)]
pub struct RenderedPage {
    pub page_number: u32,
    pub width: u32,
    pub height: u32,
    pub pixels: Vec<u8>,
    /// Size of the shown part in units of the page.
    pub viewport_width: i32,
    pub viewport_height: i32,
}

/// A rectangle of pixels; right and bottom are the first ones outside.
#[derive(Debug, Clone, Copy, PartialEq, Eq, Structural)]
pub struct PixelBounds {
    pub left: u32,
    pub top: u32,
    pub right: u32,
    pub bottom: u32,
}

/// Pixels cut out of a page.
#[derive(Debug)]
pub struct Crop {
    pub width: u32,
    pub height: u32,
    pub pixels: Vec<u8>,
}

/// The number of whole pixels before a coordinate.
pub open spec fn pixel_floor(coordinate: int, pixels: int, extent: int) -> int {
    (coordinate * pixels) / extent
}

/// The number of pixels that hold everything before a coordinate.
pub open spec fn pixel_ceil(coordinate: int, pixels: int, extent: int) -> int {
    -((-coordinate * pixels) / extent)
}

/// A number kept between zero and a limit.
pub open spec fn clipped(n: int, limit: int) -> int {
    if n < 0 {
        0
    } else if n > limit {
        limit
    } else {
        n
    }
}

/// The bytes of the first `n` rows of a rectangle of pixels.
pub open spec fn rows_upto(pixels: Seq<u8>, width: int, bounds: PixelBounds, n: int) -> Seq<u8>
    decreases n,
{
    if n <= 0 {
        Seq::empty()
    } else {
        let row = (bounds.top + n - 1) * width;
        rows_upto(pixels, width, bounds, n - 1) + pixels.subrange(
            (row + bounds.left) * 3,
            (row + bounds.right) * 3,
        )
    }
}

/// A rectangle outside the page or without pixels.
pub open spec fn outside() -> Seq<char> {
    "crop lies outside the rendered page"@
}

/// A coordinate times a number of pixels stays far from the limits.
proof fn lemma_scaled(coordinate: int, pixels: int)
    requires
        -0x8000_0000 <= coordinate <= 0x8000_0000,
        0 <= pixels <= 0x1_0000_0000,
    ensures
        -0x8000_0000_0000_0000 <= coordinate * pixels <= 0x8000_0000_0000_0000,
        -coordinate * pixels == -(coordinate * pixels),
{
    assert(-0x8000_0000_0000_0000 <= coordinate * pixels <= 0x8000_0000_0000_0000)
        by (nonlinear_arith)
        requires
            -0x8000_0000 <= coordinate <= 0x8000_0000,
            0 <= pixels <= 0x1_0000_0000,
    ;
    assert(-coordinate * pixels == -(coordinate * pixels)) by (nonlinear_arith);
}

/// A quotient by a positive number is no farther from zero than the dividend.
proof fn lemma_quotient(n: int, d: int)
    requires
        d > 0,
        -0x8000_0000_0000_0000 <= n <= 0x8000_0000_0000_0000,
    ensures
        -0x8000_0000_0000_0000 <= n / d <= 0x8000_0000_0000_0000,
{
    assert(-0x8000_0000_0000_0000 <= n / d <= 0x8000_0000_0000_0000) by (nonlinear_arith)
        requires
            d > 0,
            -0x8000_0000_0000_0000 <= n <= 0x8000_0000_0000_0000,
    ;
}

/// The number of whole pixels before a coordinate, kept on the page.
fn floor_pixel(coordinate: i32, pixels: u32, extent: i32) -> (at: u32)
    requires
        extent > 0,
    ensures
        at == clipped(pixel_floor(coordinate as int, pixels as int, extent as int), pixels as int),
{
    proof {
        lemma_scaled(coordinate as int, pixels as int);
    }
    let n: i128 = floor_div(coordinate as i128 * pixels as i128, extent as i128);
    if n < 0 {
        0
    } else if n > pixels as i128 {
        pixels
    } else {
        n as u32
    }
}

/// The number of pixels that hold everything before a coordinate, kept on the page.
fn ceil_pixel(coordinate: i32, pixels: u32, extent: i32) -> (at: u32)
    requires
        extent > 0,
    ensures
        at == clipped(pixel_ceil(coordinate as int, pixels as int, extent as int), pixels as int),
{
    let c: i128 = coordinate as i128;
    proof {
        lemma_scaled(-c as int, pixels as int);
        lemma_quotient(-c * pixels, extent as int);
    }
    let q: i128 = floor_div((-c) * pixels as i128, extent as i128);
    let n: i128 = -q;
    if n < 0 {
        0
    } else if n > pixels as i128 {
        pixels
    } else {
        n as u32
    }
}

impl RenderedPage {
    /// Whether there are as many bytes as the dimensions ask for, of a part that is there.
    pub open spec fn wf(self) -> bool {
        &&& self.pixels@.len() == self.width * self.height * 3
        &&& self.viewport_width > 0
        &&& self.viewport_height > 0
    }

    /// The shown part of the page.
    pub open spec fn viewport(self) -> Bbox {
        Bbox { left: 0, top: 0, right: self.viewport_width, bottom: self.viewport_height }
    }

    /// The pixels that show a box, rounded outwards and kept on the page.
    pub open spec fn pixels_of(self, bbox: Bbox) -> PixelBounds {
        let w = self.width as int;
        let h = self.height as int;
        let vw = self.viewport_width as int;
        let vh = self.viewport_height as int;
        PixelBounds {
            left: clipped(pixel_floor(bbox.left as int, w, vw), w) as u32,
            top: clipped(pixel_floor(bbox.top as int, h, vh), h) as u32,
            right: clipped(pixel_ceil(bbox.right as int, w, vw), w) as u32,
            bottom: clipped(pixel_ceil(bbox.bottom as int, h, vh), h) as u32,
        }
    }

    /// Whether pixels lie on the page, at least one of them.
    pub open spec fn shows(self, bounds: PixelBounds) -> bool {
        bounds.left < bounds.right <= self.width && bounds.top < bounds.bottom <= self.height
    }

    /// The bytes of a rectangle of pixels.
    pub open spec fn bytes_of(self, bounds: PixelBounds) -> Seq<u8> {
        rows_upto(self.pixels@, self.width as int, bounds, bounds.bottom - bounds.top)
    }

    /// The picture of a box, or why there is none.
    pub open spec fn picture(self, bbox: Bbox) -> Result<PreparedModel, Seq<char>> {
        let bounds = self.pixels_of(bbox);
        let width = (bounds.right - bounds.left) as u32;
        let height = (bounds.bottom - bounds.top) as u32;
        if !self.shows(bounds) {
            Err(outside())
        } else {
            match png_or(
                png_of(self.bytes_of(bounds), width, height, PixelFormat::Rgb8),
                "failed to encode figure PNG: "@,
            ) {
                Err(reason) => Err(reason),
                Ok(bytes) => Ok(
                    PreparedModel {
                        media_type: FigureMediaType::Png,
                        bytes,
                        width,
                        height,
                        source: FigureSource::Raster,
                    },
                ),
            }
        }
    }

    /// The shown part of the page.
    pub fn page_box(&self) -> (page: Bbox)
        ensures
            page == self.viewport(),
    {
        Bbox { left: 0, top: 0, right: self.viewport_width, bottom: self.viewport_height }
    }

    /// The pixels that show a box, rounded outwards and kept on the page.
    pub fn crop_bounds(&self, bbox: &Bbox) -> (bounds: Result<PixelBounds, String>)
        requires
            self.wf(),
        ensures
            match bounds {
                Ok(found) => found == self.pixels_of(*bbox) && self.shows(found),
                Err(reason) => !self.shows(self.pixels_of(*bbox)) && reason@ == outside(),
            },
    {
        let bounds = PixelBounds {
            left: floor_pixel(bbox.left, self.width, self.viewport_width),
            top: floor_pixel(bbox.top, self.height, self.viewport_height),
            right: ceil_pixel(bbox.right, self.width, self.viewport_width),
            bottom: ceil_pixel(bbox.bottom, self.height, self.viewport_height),
        };
        if bounds.left >= bounds.right || bounds.top >= bounds.bottom {
            let mut reason: String = String::new();
            push_text(&mut reason, "crop lies outside the rendered page");
            assert(reason@ =~= outside());
            return Err(reason);
        }
        Ok(bounds)
    }

    /// Cuts a rectangle of pixels out of the page.
    pub fn crop_pixels(&self, bounds: &PixelBounds) -> (crop: Result<Crop, String>)
        requires
            self.wf(),
        ensures
            match crop {
                Ok(cut) => self.shows(*bounds) && cut.width == bounds.right - bounds.left
                    && cut.height == bounds.bottom - bounds.top && cut.pixels@ == self.bytes_of(
                    *bounds,
                ) && cut.pixels@.len() == cut.width * cut.height * 3,
                Err(reason) => !self.shows(*bounds) && reason@ == outside(),
            },
    {
        if bounds.left >= bounds.right || bounds.right > self.width || bounds.top >= bounds.bottom
            || bounds.bottom > self.height {
            let mut reason: String = String::new();
            push_text(&mut reason, "crop lies outside the rendered page");
            assert(reason@ =~= outside());
            return Err(reason);
        }
        let width: u32 = bounds.right - bounds.left;
        let height: u32 = bounds.bottom - bounds.top;
        let total: usize = self.pixels.len();
        let mut pixels: Vec<u8> = Vec::new();
        let mut n: u32 = 0;
        assert(0 == 0 * width * 3) by (nonlinear_arith);
        while n < height
            invariant
                self.wf(),
                self.shows(*bounds),
                width == bounds.right - bounds.left,
                height == bounds.bottom - bounds.top,
                total == self.pixels@.len(),
                n <= height,
                pixels@ == rows_upto(self.pixels@, self.width as int, *bounds, n as int),
                pixels@.len() == n * width * 3,
            decreases height - n,
        {
            let ghost row = (bounds.top + n) * self.width;
            proof {
                lemma_row(
                    bounds.top + n,
                    self.width as int,
                    self.height as int,
                    bounds.right as int,
                );
                let y = bounds.top + n;
                let w = self.width as int;
                assert(0 <= y * w) by (nonlinear_arith)
                    requires
                        0 <= y,
                        0 <= w,
                ;
            }
            let start: u128 = (bounds.top as u128 + n as u128) * (self.width as u128);
            let first: usize = ((start + bounds.left as u128) * 3) as usize;
            let last: usize = ((start + bounds.right as u128) * 3) as usize;
            let ghost before = pixels@;
            let mut k: usize = first;
            while k < last
                invariant
                    first <= k <= last <= self.pixels@.len(),
                    pixels@ == before + self.pixels@.subrange(first as int, k as int),
                decreases last - k,
            {
                pixels.push(self.pixels[k]);
                k = k + 1;
                assert(pixels@ =~= before + self.pixels@.subrange(first as int, k as int));
            }
            proof {
                let m = n as int;
                let w = width as int;
                assert((m + 1) * w * 3 == m * w * 3 + w * 3) by (nonlinear_arith);
            }
            n = n + 1;
        }
        assert(height * width * 3 == width * height * 3) by (nonlinear_arith);
        Ok(Crop { width, height, pixels })
    }

    /// The picture of a box as a PNG file.
    pub fn cropped_figure(&self, bbox: &Bbox) -> (figure: Result<PreparedFigure, String>)
        requires
            self.wf(),
        ensures
            match figure {
                Ok(made) => self.picture(*bbox) == Ok::<PreparedModel, Seq<char>>(made@),
                Err(reason) => self.picture(*bbox) == Err::<PreparedModel, Seq<char>>(reason@),
            },
    {
        let bounds: PixelBounds = match self.crop_bounds(bbox) {
            Err(reason) => {
                return Err(reason);
            },
            Ok(bounds) => bounds,
        };
        let crop: Crop = match self.crop_pixels(&bounds) {
            Err(reason) => {
                return Err(reason);
            },
            Ok(crop) => crop,
        };
        match write_png(
            &crop.pixels,
            crop.width,
            crop.height,
            PixelFormat::Rgb8,
            "failed to encode figure PNG: ",
        ) {
            Err(reason) => Err(reason),
            Ok(bytes) => {
                let figure = PreparedFigure {
                    media_type: FigureMediaType::Png,
                    bytes,
                    width: crop.width,
                    height: crop.height,
                    source: FigureSource::Raster,
                };
                assert(figure@ =~= self.picture(*bbox)->Ok_0);
                Ok(figure)
            },
        }
    }
}

/// The bytes before a column of a row are no more than those of the page.
proof fn lemma_row(y: int, w: int, h: int, right: int)
    requires
        0 <= y < h,
        0 <= right <= w,
        h <= 0x1_0000_0000,
        w <= 0x1_0000_0000,
    ensures
        (y * w + right) * 3 <= w * h * 3,
        0 <= y * w <= 0x1_0000_0000_0000_0000,
{
    assert(y * w + right <= w * h) by (nonlinear_arith)
        requires
            0 <= y < h,
            0 <= right <= w,
    ;
    assert(0 <= y * w <= 0x1_0000_0000_0000_0000) by (nonlinear_arith)
        requires
            0 <= y <= 0x1_0000_0000,
            0 <= w <= 0x1_0000_0000,
    ;
}

} // verus!
