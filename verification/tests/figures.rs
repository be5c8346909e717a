use base64::Engine;
use docparse_core::blocks::{
    Block, BlockId, FigureDelivery, FigureMediaType, FigureSource, LabelSource,
};
use docparse_core::figure::catalog::{union_bbox, FigureCatalog};
use docparse_core::figure::delivery::{is_figure, FigureRun, Offer};
use docparse_core::figure::images::{EmbeddedImage, EmbeddedImageFormat};
use docparse_core::figure::raster::{write_png, PixelBounds, PixelFormat, RenderedPage};
use docparse_core::geometry::Bbox;
use docparse_core::layout::{GeometrySource, LayoutDetection, LayoutLabel};

fn pt(length: f64) -> i32 {
    (length * 10_000.0).round() as i32
}

fn bbox(value: [f64; 4]) -> Bbox {
    Bbox::new(pt(value[0]), pt(value[1]), pt(value[2]), pt(value[3])).expect("bbox")
}

/// Viewport bounds of the matching tests.
fn page() -> Bbox {
    bbox([0.0, 0.0, 400.0, 600.0])
}

/// One model detection with a stable source identity.
fn detection(index: u32, label: LayoutLabel, bounds: [f64; 4]) -> LayoutDetection {
    LayoutDetection {
        source_detection_index: index,
        raw_label: String::new(),
        class_id: 0,
        label,
        confidence: 900_000,
        bbox: bbox(bounds),
        outline: None,
        geometry_source: GeometrySource::ModelBox,
        model_order: i64::from(index),
    }
}

/// An embedded image with or without encoded bytes.
fn image_at(bounds: [f64; 4], file: bool) -> EmbeddedImage {
    EmbeddedImage {
        bounds: bbox(bounds),
        pixel_width: 20,
        pixel_height: 10,
        format: if file {
            Some(EmbeddedImageFormat::Encoded(FigureMediaType::Jpeg))
        } else {
            None
        },
        bytes: if file { Some(vec![0xff, 0xd8, 0xff, 0xd9]) } else { None },
    }
}

/// A visual block with optional image-matching evidence.
fn figure_block(
    index: u32,
    label: LayoutLabel,
    bounds: [f64; 4],
    embedded_image_index: Option<u32>,
    figure_bounds: Option<[f64; 4]>,
) -> Block {
    let mut made = Block::new(
        BlockId::model(1, index, 0),
        label,
        LabelSource::Model,
        bbox(bounds),
    );
    made.final_order = index;
    made.embedded_image_index = embedded_image_index;
    made.figure_bounds = figure_bounds.map(bbox);
    made
}

/// A small raster: white, with a black middle.
fn rendered_page() -> RenderedPage {
    let mut pixels = vec![255_u8; 4 * 4 * 3];
    for y in 1..3 {
        for x in 1..3 {
            let offset = (y * 4 + x) * 3;
            pixels[offset..offset + 3].fill(0);
        }
    }
    RenderedPage {
        page_number: 1,
        width: 4,
        height: 4,
        pixels,
        viewport_width: pt(4.0),
        viewport_height: pt(4.0),
    }
}

fn source_of(block: &Block) -> Option<FigureSource> {
    block.image.as_ref().map(|image| image.source)
}

/// An image is associated by geometry even when the model calls it algorithm or text.
#[test]
fn image_matching_does_not_depend_on_layout_label() {
    let images = vec![image_at([20.0, 20.0, 90.0, 90.0], true)];
    for label in [
        LayoutLabel::Algorithm,
        LayoutLabel::Content,
        LayoutLabel::Text,
        LayoutLabel::Chart,
    ] {
        let detections = vec![detection(0, label, [25.0, 25.0, 85.0, 85.0])];
        assert_eq!(
            FigureCatalog::new(&images)
                .match_detections(&detections, &page())
                .len(),
            1
        );
    }
}

/// Tiny, full-page and extra images survive, and an image matched twice comes once.
#[test]
fn every_embedded_placement_is_delivered_once() {
    let images = vec![
        image_at([0.0, 0.0, 2.0, 2.0], true),
        image_at([0.0, 0.0, 4.0, 4.0], true),
        image_at([3.0, 3.0, 3.1, 3.1], true),
    ];
    let mut blocks = vec![
        figure_block(0, LayoutLabel::Algorithm, [0.0, 0.0, 2.0, 2.0], Some(0), None),
        figure_block(1, LayoutLabel::Text, [0.0, 0.0, 2.0, 2.0], Some(0), None),
    ];
    let run = FigureCatalog::new(&images).attach(&mut blocks, &rendered_page());
    assert!(run.warnings.is_empty());
    assert_eq!(blocks.iter().filter(|block| block.image.is_some()).count(), 1);
    assert_eq!(run.remaining.len(), 2);
    assert!(run
        .remaining
        .iter()
        .all(|asset| asset.image.source == FigureSource::Embedded));
}

/// Pixels keep their alpha as a PNG file, and a wrong length is refused.
#[test]
fn deferred_pixels_encode_without_losing_transparency() {
    let pixels = vec![255, 0, 0, 0, 0, 255, 0, 128];
    let mut embedded = EmbeddedImage {
        bounds: bbox([0.0, 0.0, 2.0, 1.0]),
        pixel_width: 2,
        pixel_height: 1,
        format: Some(EmbeddedImageFormat::Rgba),
        bytes: Some(pixels.clone()),
    };
    let prepared = embedded.prepare(&rendered_page()).expect("prepare");
    assert_eq!(prepared.media_type, FigureMediaType::Png);
    assert_eq!(prepared.source, FigureSource::Embedded);
    assert_eq!(
        image::load_from_memory(&prepared.bytes)
            .expect("PNG")
            .to_rgba8()
            .into_raw(),
        pixels
    );
    embedded.bytes.as_mut().expect("pixels").pop();
    assert!(embedded.prepare(&rendered_page()).is_err());
}

/// Cropping clips page edges and preserves exact row bytes.
#[test]
fn crop_rounds_outward_clips_edges_and_preserves_pixels() {
    let rendered = rendered_page();
    let bounds = rendered.crop_bounds(&bbox([-1.0, 1.2, 2.1, 5.0])).expect("bounds");
    assert_eq!(bounds, PixelBounds { left: 0, top: 1, right: 3, bottom: 4 });
    let crop = rendered.crop_pixels(&bounds).expect("crop");
    assert_eq!((crop.width, crop.height), (3, 3));
    let expected: Vec<u8> = [12..21, 24..33, 36..45]
        .into_iter()
        .flat_map(|range: std::ops::Range<usize>| rendered.pixels[range].to_vec())
        .collect();
    assert_eq!(crop.pixels, expected);
    assert!(rendered
        .crop_pixels(&PixelBounds { left: 0, top: 0, right: 5, bottom: 4 })
        .is_err());
    assert!(rendered
        .crop_pixels(&PixelBounds { left: 2, top: 2, right: 2, bottom: 3 })
        .is_err());
    assert!(rendered.crop_bounds(&bbox([5.0, 5.0, 6.0, 6.0])).is_err());
}

/// A unique image is recorded, but the detection box stays put.
#[test]
fn matching_records_the_image_without_moving_the_detection() {
    let detections = vec![
        detection(0, LayoutLabel::Image, [20.0, 30.0, 70.0, 80.0]),
        detection(1, LayoutLabel::Seal, [110.0, 40.0, 140.0, 70.0]),
        detection(2, LayoutLabel::Text, [20.0, 30.0, 70.0, 80.0]),
        detection(3, LayoutLabel::Chart, [200.0, 200.0, 260.0, 260.0]),
    ];
    let images = vec![
        image_at([10.0, 20.0, 90.0, 100.0], true),
        image_at([100.0, 30.0, 150.0, 80.0], false),
    ];
    let matches = FigureCatalog::new(&images).match_detections(&detections, &page());
    assert_eq!(detections[0].bbox, bbox([20.0, 30.0, 70.0, 80.0]));
    assert_eq!(matches.get(&0).expect("image match").bounds, images[0].bounds);
    assert_eq!(matches.get(&1).expect("seal match").image_index, 1);
    assert_eq!(matches.get(&2).expect("text image").image_index, 0);
    assert!(!matches.contains_key(&3));
}

/// A composite region uses one raster crop and does not publish its pieces separately.
#[test]
fn composite_image_layout_uses_raster_and_consumes_parts() {
    let images = vec![
        image_at([10.0, 10.0, 130.0, 130.0], true),
        image_at([100.0, 30.0, 130.0, 60.0], true),
    ];
    assert!(FigureCatalog::new(&images)
        .match_detections(
            &vec![
                detection(0, LayoutLabel::Image, [20.0, 20.0, 120.0, 120.0]),
                detection(1, LayoutLabel::Text, [20.0, 20.0, 120.0, 120.0]),
            ],
            &page(),
        )
        .is_empty());
    let images = vec![
        image_at([0.0, 0.0, 2.0, 4.0], true),
        image_at([2.0, 0.0, 4.0, 4.0], true),
    ];
    let mut blocks =
        vec![figure_block(0, LayoutLabel::Image, [0.0, 0.0, 4.0, 4.0], Some(0), None)];
    let run = FigureCatalog::new(&images).attach(&mut blocks, &rendered_page());
    assert!(run.warnings.is_empty());
    assert_eq!(source_of(&blocks[0]), Some(FigureSource::Raster));
    assert!(run.remaining.is_empty());
    // A page-sized layout may itself be composed of several page-sized layers.
    let images = vec![
        image_at([0.0, 0.0, 4.0, 4.0], true),
        image_at([0.0, 0.0, 4.0, 4.0], true),
    ];
    let mut blocks =
        vec![figure_block(1, LayoutLabel::Image, [0.0, 0.0, 4.0, 4.0], None, None)];
    let run = FigureCatalog::new(&images).attach(&mut blocks, &rendered_page());
    assert_eq!(source_of(&blocks[0]), Some(FigureSource::Raster));
    assert!(run.remaining.is_empty());
}

/// Expansion that would contain another block is refused; an isolated figure still expands.
#[test]
fn placement_skips_boxes_that_would_nest() {
    let mut blocks = vec![
        figure_block(
            0,
            LayoutLabel::Image,
            [20.0, 30.0, 70.0, 80.0],
            Some(0),
            Some([10.0, 20.0, 90.0, 100.0]),
        ),
        figure_block(1, LayoutLabel::Text, [30.0, 40.0, 40.0, 50.0], None, None),
        figure_block(
            2,
            LayoutLabel::Seal,
            [110.0, 40.0, 140.0, 70.0],
            Some(1),
            Some([100.0, 30.0, 150.0, 80.0]),
        ),
    ];
    FigureCatalog::place(&mut blocks);
    assert_eq!(blocks[0].bbox, bbox([20.0, 30.0, 70.0, 80.0]));
    assert!(blocks[0].figure_bounds.is_none());
    assert_eq!(blocks[2].bbox, bbox([100.0, 30.0, 150.0, 80.0]));
    assert!(blocks[0].evidence.is_empty());
    assert_eq!(blocks[2].evidence.len(), 1);
    assert_eq!(blocks[2].evidence[0].kind, "embedded_image_bounds");
    assert_eq!(
        blocks[2].evidence[0].details,
        vec![("model_bbox".to_owned(), "110,40,140,70".to_owned())]
    );
}

/// Candidate order and equal-area ties must not change figure selection.
#[test]
fn smallest_container_and_ambiguity_do_not_depend_on_input_order() {
    let layout = bbox([40.0, 40.0, 60.0, 60.0]);
    let boxes = [
        [0.0, 0.0, 100.0, 100.0],
        [30.0, 30.0, 70.0, 70.0],
        [20.0, 20.0, 80.0, 80.0],
    ];
    for order in [
        [0, 1, 2],
        [0, 2, 1],
        [1, 0, 2],
        [1, 2, 0],
        [2, 0, 1],
        [2, 1, 0],
    ] {
        let mut images: Vec<_> = order
            .into_iter()
            .map(|index: usize| image_at(boxes[index], true))
            .collect();
        let matched = FigureCatalog::new(&images)
            .container(&layout, &page())
            .expect("unique smallest");
        assert_eq!(matched.bounds, bbox(boxes[1]));
        images.push(image_at(boxes[1], true));
        assert!(FigureCatalog::new(&images).container(&layout, &page()).is_none());
    }
}

/// Two similarly sized containers, a full-page image, and a corner overlap do nothing.
#[test]
fn ambiguous_page_sized_and_partial_images_are_left_alone() {
    let original = [40.0, 40.0, 80.0, 80.0];
    let detections = vec![
        detection(0, LayoutLabel::Chart, original),
        detection(1, LayoutLabel::Image, original),
        detection(2, LayoutLabel::HeaderImage, [10.0, 10.0, 30.0, 25.0]),
    ];
    let images = vec![
        image_at([30.0, 30.0, 90.0, 90.0], true),
        image_at([32.0, 32.0, 92.0, 92.0], true),
        image_at([0.0, 0.0, 390.0, 590.0], true),
        image_at([70.0, 70.0, 120.0, 120.0], true),
    ];
    assert!(FigureCatalog::new(&images)
        .match_detections(&detections, &page())
        .is_empty());
}

/// Inline delivery keeps the original bytes; a vector figure falls back to the page crop.
#[test]
fn inline_delivery_prefers_the_embedded_file_and_crops_otherwise() {
    let mut blocks = vec![
        figure_block(0, LayoutLabel::Image, [0.0, 0.0, 4.0, 2.0], Some(0), None),
        figure_block(1, LayoutLabel::Chart, [1.0, 1.0, 3.0, 3.0], None, None),
    ];
    let jpeg = vec![0xff, 0xd8, 0xff, 0x00, 0xff, 0xd9];
    let images = vec![EmbeddedImage {
        bounds: bbox([0.0, 0.0, 4.0, 2.0]),
        pixel_width: 8,
        pixel_height: 4,
        format: Some(EmbeddedImageFormat::Encoded(FigureMediaType::Jpeg)),
        bytes: Some(jpeg.clone()),
    }];
    let run = FigureCatalog::new(&images).attach(&mut blocks, &rendered_page());
    assert!(run.warnings.is_empty());
    let embedded = blocks[0].image.as_ref().expect("embedded");
    assert_eq!(embedded.source, FigureSource::Embedded);
    assert_eq!((embedded.width, embedded.height), (8, 4));
    match &embedded.delivery {
        FigureDelivery::Inline { data_base64 } => assert_eq!(
            base64::engine::general_purpose::STANDARD
                .decode(data_base64)
                .expect("base64"),
            jpeg
        ),
        FigureDelivery::File { .. } => panic!("inline delivery"),
    }
    let raster = blocks[1].image.as_ref().expect("raster");
    assert_eq!(raster.source, FigureSource::Raster);
    assert_eq!(raster.media_type, FigureMediaType::Png);
    let data = match &raster.delivery {
        FigureDelivery::Inline { data_base64 } => base64::engine::general_purpose::STANDARD
            .decode(data_base64)
            .expect("base64"),
        FigureDelivery::File { .. } => panic!("inline delivery"),
    };
    assert_eq!(
        image::load_from_memory(&data).expect("PNG").to_rgb8().into_raw(),
        vec![0; 12]
    );
}

/// A written file is recorded with its path, and a failed write is reported.
#[test]
fn offered_figures_are_settled_by_their_outcome() {
    let images: Vec<EmbeddedImage> = Vec::new();
    let catalog = FigureCatalog::new(&images);
    for (outcome, written) in [
        (Ok(FigureDelivery::File { path: "p1.png".to_owned() }), true),
        (Err("disk full".to_owned()), false),
    ] {
        let mut blocks =
            vec![figure_block(0, LayoutLabel::Chart, [1.0, 1.0, 3.0, 3.0], None, None)];
        let mut run = FigureRun::new(0);
        let offered = run.offer_block(&catalog, &blocks[0], &rendered_page());
        assert!(matches!(offered, Offer::Ready { .. }));
        run.settle_block(&catalog, &mut blocks, &rendered_page(), 0, offered, outcome);
        assert_eq!(blocks[0].image.is_some(), written);
        assert_eq!(run.warnings.is_empty(), written);
    }
}

/// Pixels come back from their PNG file.
#[test]
fn png_files_hold_their_pixels() {
    let pixels = vec![1, 2, 3, 4, 5, 6];
    let file = write_png(&pixels, 2, 1, PixelFormat::Rgb8, "cannot encode").expect("PNG");
    assert_eq!(
        image::load_from_memory(&file).expect("PNG").to_rgb8().into_raw(),
        pixels
    );
    assert!(write_png(&Vec::new(), 0, 0, PixelFormat::Rgb8, "cannot encode").is_err());
}

#[test]
fn figures_are_known_by_label() {
    assert!(is_figure(&LayoutLabel::Chart));
    assert!(!is_figure(&LayoutLabel::Text));
    assert_eq!(
        union_bbox(&bbox([0.0, 0.0, 2.0, 2.0]), &bbox([1.0, 1.0, 4.0, 3.0])),
        Some(bbox([0.0, 0.0, 4.0, 3.0]))
    );
}

/// Inline data is spelled in the standard alphabet and padded to whole groups.
#[test]
fn inline_data_is_padded_base64() {
    for (bytes, expected) in [
        (vec![0xfb_u8], "+w=="),
        (vec![0xfb, 0xff], "+/8="),
        (vec![0x4d, 0x61, 0x6e], "TWFu"),
        (vec![0x4d, 0x61, 0x6e, 0xff], "TWFu/w=="),
    ] {
        let images = vec![EmbeddedImage {
            bounds: bbox([0.0, 0.0, 4.0, 2.0]),
            pixel_width: 8,
            pixel_height: 4,
            format: Some(EmbeddedImageFormat::Encoded(FigureMediaType::Jpeg)),
            bytes: Some(bytes),
        }];
        let mut blocks =
            vec![figure_block(0, LayoutLabel::Image, [0.0, 0.0, 4.0, 2.0], Some(0), None)];
        FigureCatalog::new(&images).attach(&mut blocks, &rendered_page());
        match &blocks[0].image.as_ref().expect("embedded").delivery {
            FigureDelivery::Inline { data_base64 } => assert_eq!(data_base64, expected),
            FigureDelivery::File { .. } => panic!("inline delivery"),
        }
    }
}
