//! Rendered pages on their way between the two processes.

use vstd::prelude::*;

use super::ipc::PdfiumRuntimeError;
use crate::figure::images::EmbeddedImage;
use crate::figure::raster::RenderedPage;

verus! {

/// One embedded image whose payload travels apart from its facts.
#[derive(Debug)]
pub struct ImageMessage {
    /// Everything but the bytes.
    pub facts: EmbeddedImage,
    pub payload: Option<Vec<u8>>,
}

/// A page with its pixels and the images placed on it.
#[derive(Debug)]
pub struct Raster {
    pub page_number: u32,
    pub width: u32,
    pub height: u32,
    pub pixels: Vec<u8>,
    pub viewport_width: i32,
    pub viewport_height: i32,
    pub images: Vec<ImageMessage>,
}

/// The message of an image.
pub open spec fn message_of(image: EmbeddedImage) -> ImageMessage {
    ImageMessage {
        facts: EmbeddedImage { bytes: None, ..image },
        payload: image.bytes,
    }
}

/// The image of a message.
pub open spec fn image_of(message: ImageMessage) -> EmbeddedImage {
    EmbeddedImage { bytes: message.payload, ..message.facts }
}

/// The messages of images.
pub open spec fn messages_of(images: Seq<EmbeddedImage>) -> Seq<ImageMessage> {
    Seq::new(images.len(), |i: int| message_of(images[i]))
}

/// The images of messages.
pub open spec fn images_of(messages: Seq<ImageMessage>) -> Seq<EmbeddedImage> {
    Seq::new(messages.len(), |i: int| image_of(messages[i]))
}

/// The same values from the last to the first.
fn reversed<T>(list: Vec<T>) -> (back: Vec<T>)
    ensures
        back@ == list@.reverse(),
{
    let ghost given = list@;
    let mut list: Vec<T> = list;
    let mut back: Vec<T> = Vec::new();
    while list.len() > 0
        invariant
            list@.len() + back@.len() == given.len(),
            list@ == given.take(list@.len() as int),
            back@ == given.reverse().take(back@.len() as int),
        decreases list@.len(),
    {
        let value: T = list.pop().unwrap();
        back.push(value);
        assert(list@ =~= given.take(list@.len() as int));
        assert(back@ =~= given.reverse().take(back@.len() as int));
    }
    assert(given.reverse().take(given.len() as int) =~= given.reverse());
    back
}

impl Raster {
    /// Whether there is a page and as many bytes as its pixels take.
    pub open spec fn is_complete(self) -> bool {
        self.page_number != 0 && self.pixels@.len() == self.width * self.height * 3
    }

    /// Publishes pixels and payloads without putting them into the facts.
    pub fn new(page: RenderedPage, images: Vec<EmbeddedImage>) -> (raster: Raster)
        ensures
            raster.page_number == page.page_number,
            raster.width == page.width,
            raster.height == page.height,
            raster.pixels == page.pixels,
            raster.viewport_width == page.viewport_width,
            raster.viewport_height == page.viewport_height,
            raster.images@ == messages_of(images@),
    {
        let ghost given = images@;
        let mut left: Vec<EmbeddedImage> = reversed(images);
        let mut messages: Vec<ImageMessage> = Vec::new();
        while left.len() > 0
            invariant
                messages@.len() + left@.len() == given.len(),
                left@ == given.reverse().take(left@.len() as int),
                messages@ == messages_of(given).take(messages@.len() as int),
            decreases left@.len(),
        {
            let ghost n = messages@.len() as int;
            let image: EmbeddedImage = left.pop().unwrap();
            assert(image == given[n]);
            let facts = EmbeddedImage {
                bounds: image.bounds,
                pixel_width: image.pixel_width,
                pixel_height: image.pixel_height,
                format: image.format,
                bytes: None,
            };
            messages.push(ImageMessage { facts, payload: image.bytes });
            assert(left@ =~= given.reverse().take(left@.len() as int));
            assert(messages@ =~= messages_of(given).take(n + 1));
        }
        assert(messages_of(given).take(given.len() as int) =~= messages_of(given));
        Raster {
            page_number: page.page_number,
            width: page.width,
            height: page.height,
            pixels: page.pixels,
            viewport_width: page.viewport_width,
            viewport_height: page.viewport_height,
            images: messages,
        }
    }

    /// Checks the length of the pixels and brings payloads back to their images.
    pub fn restore(self) -> (restored: Result<
        (RenderedPage, Vec<EmbeddedImage>),
        PdfiumRuntimeError,
    >)
        ensures
            match restored {
                Ok((page, images)) => self.is_complete() && page == (RenderedPage {
                    page_number: self.page_number,
                    width: self.width,
                    height: self.height,
                    pixels: self.pixels,
                    viewport_width: self.viewport_width,
                    viewport_height: self.viewport_height,
                }) && images@ == images_of(self.images@),
                Err(error) => !self.is_complete() && error.is_transport(
                    "invalid IPC page or raster buffer length"@,
                ),
            },
    {
        proof {
            let w = self.width as int;
            let h = self.height as int;
            assert(0 <= w * h <= 0xFFFF_FFFF * 0xFFFF_FFFF) by (nonlinear_arith)
                requires
                    0 <= w <= 0xFFFF_FFFF,
                    0 <= h <= 0xFFFF_FFFF,
            ;
        }
        let expected: u128 = self.width as u128 * self.height as u128 * 3;
        if self.page_number == 0 || expected != self.pixels.len() as u128 {
            return Err(PdfiumRuntimeError::transport("invalid IPC page or raster buffer length"));
        }
        let ghost given = self.images@;
        let mut left: Vec<ImageMessage> = reversed(self.images);
        let mut images: Vec<EmbeddedImage> = Vec::new();
        while left.len() > 0
            invariant
                images@.len() + left@.len() == given.len(),
                left@ == given.reverse().take(left@.len() as int),
                images@ == images_of(given).take(images@.len() as int),
            decreases left@.len(),
        {
            let ghost n = images@.len() as int;
            let message: ImageMessage = left.pop().unwrap();
            assert(message == given[n]);
            images.push(
                EmbeddedImage {
                    bounds: message.facts.bounds,
                    pixel_width: message.facts.pixel_width,
                    pixel_height: message.facts.pixel_height,
                    format: message.facts.format,
                    bytes: message.payload,
                },
            );
            assert(left@ =~= given.reverse().take(left@.len() as int));
            assert(images@ =~= images_of(given).take(n + 1));
        }
        assert(images_of(given).take(given.len() as int) =~= images_of(given));
        let page = RenderedPage {
            page_number: self.page_number,
            width: self.width,
            height: self.height,
            pixels: self.pixels,
            viewport_width: self.viewport_width,
            viewport_height: self.viewport_height,
        };
        Ok((page, images))
    }
}

/// Images come back from their messages as they were, and facts travel without bytes.
pub proof fn messages_bring_images_back(images: Seq<EmbeddedImage>)
    ensures
        images_of(messages_of(images)) == images,
        forall|i: int|
            0 <= i < images.len() ==> (#[trigger] messages_of(images)[i]).facts.bytes is None,
{
    assert(images_of(messages_of(images)) =~= images);
}

} // verus!
