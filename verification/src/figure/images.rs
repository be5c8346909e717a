//! Embedded images and the files made of them.

use base64::Engine;
use vstd::prelude::*;

use crate::blocks::{FigureDelivery, FigureImage, FigureMediaType, FigureSource};
use crate::chars::push_text;
use crate::figure::raster::{png_of, png_or, write_png, PixelFormat, RenderedPage};
use crate::geometry::Bbox;

verus! {

/// Format of an embedded image; raw pixels are encoded only when needed.
#[derive(Debug, Clone, Copy, PartialEq, Eq, Structural)]
pub enum EmbeddedImageFormat {
    Encoded(FigureMediaType),
    Rgba,
}

/// One image placed on a page.
#[derive(Debug)]
pub struct EmbeddedImage {
    pub bounds: Bbox,
    pub pixel_width: u32,
    pub pixel_height: u32,
    pub format: Option<EmbeddedImageFormat>,
    pub bytes: Option<Vec<u8>>,
}

/// One image file ready to inline or write.
#[derive(Debug)]
pub struct PreparedFigure {
    pub media_type: FigureMediaType,
    pub bytes: Vec<u8>,
    pub width: u32,
    pub height: u32,
    pub source: FigureSource,
}

/// What an image file holds.
#[verifier::ext_equal]
pub struct PreparedModel {
    pub media_type: FigureMediaType,
    pub bytes: Seq<u8>,
    pub width: u32,
    pub height: u32,
    pub source: FigureSource,
}

impl View for PreparedFigure {
    type V = PreparedModel;

    open spec fn view(&self) -> PreparedModel {
        PreparedModel {
            media_type: self.media_type,
            bytes: self.bytes@,
            width: self.width,
            height: self.height,
            source: self.source,
        }
    }
}

/// What is known of a prepared image, or why there is none.
pub open spec fn prepared_model(figure: Result<PreparedFigure, String>) -> Result<
    PreparedModel,
    Seq<char>,
> {
    match figure {
        Ok(made) => Ok(made@),
        Err(reason) => Err(reason@),
    }
}

/// Copies bytes.
fn copy_bytes(bytes: &Vec<u8>) -> (copy: Vec<u8>)
    ensures
        copy@ == bytes@,
{
    let mut copy: Vec<u8> = Vec::new();
    let mut i: usize = 0;
    while i < bytes.len()
        invariant
            i <= bytes@.len(),
            copy@ == bytes@.take(i as int),
        decreases bytes@.len() - i,
    {
        copy.push(bytes[i]);
        i = i + 1;
        assert(copy@ =~= bytes@.take(i as int));
    }
    assert(bytes@.take(bytes@.len() as int) =~= bytes@);
    copy
}

/// The number of bytes that RGBA pixels take.
proof fn lemma_rgba(w: int, h: int)
    requires
        0 <= w <= 0xFFFF_FFFF,
        0 <= h <= 0xFFFF_FFFF,
    ensures
        0 <= w * h <= 0xFFFF_FFFF * 0xFFFF_FFFF,
        w * h * 4 <= 0x4_0000_0000_0000_0000,
{
    assert(0 <= w * h <= 0xFFFF_FFFF * 0xFFFF_FFFF) by (nonlinear_arith)
        requires
            0 <= w <= 0xFFFF_FFFF,
            0 <= h <= 0xFFFF_FFFF,
    ;
}

impl EmbeddedImage {
    /// The file of the image, or of the page where it has none.
    pub open spec fn prepared(self, rendered: RenderedPage) -> Result<PreparedModel, Seq<char>> {
        match (self.format, self.bytes) {
            (Some(format), Some(bytes)) => if bytes@.len() == 0 {
                rendered.picture(self.bounds)
            } else {
                match format {
                    EmbeddedImageFormat::Encoded(media_type) => Ok(
                        PreparedModel {
                            media_type,
                            bytes: bytes@,
                            width: self.pixel_width,
                            height: self.pixel_height,
                            source: FigureSource::Embedded,
                        },
                    ),
                    EmbeddedImageFormat::Rgba => if bytes@.len() != self.pixel_width
                        * self.pixel_height * 4 {
                        Err("invalid embedded RGBA dimensions or length"@)
                    } else {
                        match png_or(
                            png_of(
                                bytes@,
                                self.pixel_width,
                                self.pixel_height,
                                PixelFormat::Rgba8,
                            ),
                            "failed to encode embedded PNG: "@,
                        ) {
                            Err(reason) => Err(reason),
                            Ok(file) => Ok(
                                PreparedModel {
                                    media_type: FigureMediaType::Png,
                                    bytes: file,
                                    width: self.pixel_width,
                                    height: self.pixel_height,
                                    source: FigureSource::Embedded,
                                },
                            ),
                        }
                    },
                }
            },
            _ => rendered.picture(self.bounds),
        }
    }

    /// Takes the original file, or encodes the pixels; without either the page
    /// is cropped.
    pub fn prepare(&self, rendered: &RenderedPage) -> (figure: Result<PreparedFigure, String>)
        requires
            rendered.wf(),
        ensures
            prepared_model(figure) == self.prepared(*rendered),
    {
        let (format, bytes): (EmbeddedImageFormat, &Vec<u8>) = match (self.format, &self.bytes) {
            (Some(format), Some(bytes)) => {
                if bytes.len() == 0 {
                    return rendered.cropped_figure(&self.bounds);
                }
                (format, bytes)
            },
            _ => {
                return rendered.cropped_figure(&self.bounds);
            },
        };
        match format {
            EmbeddedImageFormat::Encoded(media_type) => {
                let figure = PreparedFigure {
                    media_type,
                    bytes: copy_bytes(bytes),
                    width: self.pixel_width,
                    height: self.pixel_height,
                    source: FigureSource::Embedded,
                };
                assert(figure@ =~= self.prepared(*rendered)->Ok_0);
                Ok(figure)
            },
            EmbeddedImageFormat::Rgba => {
                proof {
                    lemma_rgba(self.pixel_width as int, self.pixel_height as int);
                    if self.pixel_width == 0 || self.pixel_height == 0 {
                        let w = self.pixel_width as int;
                        let h = self.pixel_height as int;
                        assert(w * h * 4 == 0) by (nonlinear_arith)
                            requires
                                w == 0 || h == 0,
                        ;
                    }
                }
                let expected: u128 = self.pixel_width as u128 * self.pixel_height as u128 * 4;
                if bytes.len() as u128 != expected {
                    let mut reason: String = String::new();
                    push_text(&mut reason, "invalid embedded RGBA dimensions or length");
                    assert(reason@ =~= "invalid embedded RGBA dimensions or length"@);
                    return Err(reason);
                }
                match write_png(
                    bytes,
                    self.pixel_width,
                    self.pixel_height,
                    PixelFormat::Rgba8,
                    "failed to encode embedded PNG: ",
                ) {
                    Err(reason) => Err(reason),
                    Ok(file) => {
                        let figure = PreparedFigure {
                            media_type: FigureMediaType::Png,
                            bytes: file,
                            width: self.pixel_width,
                            height: self.pixel_height,
                            source: FigureSource::Embedded,
                        };
                        assert(figure@ =~= self.prepared(*rendered)->Ok_0);
                        Ok(figure)
                    },
                }
            },
        }
    }
}

/// A byte of a list, or zero behind its end.
pub open spec fn byte_or_zero(bytes: Seq<u8>, i: int) -> int {
    if i < bytes.len() {
        bytes[i] as int
    } else {
        0
    }
}

/// The symbol at place `j` of the four that spell three bytes, from byte `at` on: each spells six
/// bits, the highest first, and `=` stands where no byte is left.
pub open spec fn base64_symbol(bytes: Seq<u8>, at: int, j: int) -> char {
    let bits = byte_or_zero(bytes, at) * 0x1_0000 + byte_or_zero(bytes, at + 1) * 0x100
        + byte_or_zero(bytes, at + 2);
    let digit = if j == 0 {
        bits / 0x4_0000
    } else if j == 1 {
        bits / 0x1000 % 64
    } else if j == 2 {
        bits / 64 % 64
    } else {
        bits % 64
    };
    if at + j > bytes.len() {
        '='
    } else {
        "ABCDEFGHIJKLMNOPQRSTUVWXYZabcdefghijklmnopqrstuvwxyz0123456789+/"@[digit]
    }
}

/// The base64 spelling of bytes in the standard alphabet, padded to whole groups of four symbols.
pub open spec fn base64_of(bytes: Seq<u8>) -> Seq<char> {
    Seq::new(
        (4 * ((bytes.len() + 2) / 3)) as nat,
        |k: int| base64_symbol(bytes, 3 * (k / 4), k % 4),
    )
}

/// Calls `Engine::encode` of the `base64` crate on its engine `STANDARD`, which uses the standard
/// alphabet and pads what it encodes.
///
/// The result is taken to be the base64 spelling of the bytes. The length of the result has to
/// fit in `usize`, which the call demands.
#[verifier::external_body]
fn encode_base64(bytes: &Vec<u8>) -> (text: String)
    requires
        bytes@.len() <= usize::MAX / 4,
    ensures
        text@ == base64_of(bytes@),
{
    base64::engine::general_purpose::STANDARD.encode(bytes)
}

/// What is known of a way of delivery.
#[verifier::ext_equal]
pub enum DeliveryModel {
    Inline { data: Seq<char> },
    File { path: Seq<char> },
}

impl View for FigureDelivery {
    type V = DeliveryModel;

    open spec fn view(&self) -> DeliveryModel {
        match self {
            FigureDelivery::Inline { data_base64 } => DeliveryModel::Inline { data: data_base64@ },
            FigureDelivery::File { path } => DeliveryModel::File { path: path@ },
        }
    }
}

/// What is known of the image of a figure.
#[verifier::ext_equal]
pub struct ImageModel {
    pub source: FigureSource,
    pub media_type: FigureMediaType,
    pub width: u32,
    pub height: u32,
    pub delivery: DeliveryModel,
}

impl View for FigureImage {
    type V = ImageModel;

    open spec fn view(&self) -> ImageModel {
        ImageModel {
            source: self.source,
            media_type: self.media_type,
            width: self.width,
            height: self.height,
            delivery: self.delivery@,
        }
    }
}

/// The image of a figure that was delivered in a way.
pub open spec fn delivered_as(figure: PreparedModel, delivery: DeliveryModel) -> ImageModel {
    ImageModel {
        source: figure.source,
        media_type: figure.media_type,
        width: figure.width,
        height: figure.height,
        delivery,
    }
}

/// What is known of a delivery, or why there is none.
pub open spec fn outcome_model(outcome: Result<FigureDelivery, String>) -> Result<
    DeliveryModel,
    Seq<char>,
> {
    match outcome {
        Ok(delivery) => Ok(delivery@),
        Err(reason) => Err(reason@),
    }
}

impl PreparedModel {
    /// Whether there is nothing to hand over.
    pub open spec fn hollow(self) -> bool {
        self.width == 0 || self.height == 0 || self.bytes.len() == 0
    }

    /// The file as text, or why there is none.
    pub open spec fn inlined(self) -> Result<DeliveryModel, Seq<char>> {
        if self.hollow() {
            Err("image file is empty"@)
        } else if self.bytes.len() > usize::MAX / 4 {
            Err("image file is too large"@)
        } else {
            Ok(DeliveryModel::Inline { data: base64_of(self.bytes) })
        }
    }
}

impl PreparedFigure {
    /// Whether there is nothing to hand over.
    pub fn is_hollow(&self) -> (yes: bool)
        ensures
            yes == self@.hollow(),
    {
        self.width == 0 || self.height == 0 || self.bytes.len() == 0
    }

    /// The file as text; a file that no text could hold is refused.
    pub fn inline(&self) -> (outcome: Result<FigureDelivery, String>)
        ensures
            outcome_model(outcome) == self@.inlined(),
    {
        let mut reason: String = String::new();
        if self.is_hollow() {
            push_text(&mut reason, "image file is empty");
            assert(reason@ =~= "image file is empty"@);
            return Err(reason);
        }
        if self.bytes.len() > usize::MAX / 4 {
            push_text(&mut reason, "image file is too large");
            assert(reason@ =~= "image file is too large"@);
            return Err(reason);
        }
        Ok(FigureDelivery::Inline { data_base64: encode_base64(&self.bytes) })
    }
}

} // verus!
