//! Matching embedded images to layouts.

use std::collections::BTreeMap;
use vstd::math::abs;
use vstd::prelude::*;

use crate::blocks::{evidence_models, Block, Evidence, EvidenceModel};
use crate::chars::push_text;
use crate::figure::images::EmbeddedImage;
use crate::geometry::{distance, valid_box_has_area, Bbox};
use crate::layout::{LayoutDetection, LayoutLabel};
use crate::numerals::{points_text, push_points};

verus! {

/// Least side of an image that may replace a layout box, in units.
pub const MIN_SIDE: i64 = 80_000;

/// Placement noise that does not expand a block, in units.
pub const BOUNDS_NOISE: i64 = 5_000;

/// A unique embedded-image match. The layout box is unchanged until after merging.
#[derive(Debug, Clone, Copy, PartialEq, Eq, Structural)]
pub struct FigureMatch {
    pub image_index: u32,
    pub bounds: Bbox,
}

/// The part of a box that lies in another, whether or not there is one.
pub open spec fn cut(b: Bbox, page: Bbox) -> Bbox {
    Bbox {
        left: if b.left < page.left {
            page.left
        } else {
            b.left
        },
        top: if b.top < page.top {
            page.top
        } else {
            b.top
        },
        right: if b.right > page.right {
            page.right
        } else {
            b.right
        },
        bottom: if b.bottom > page.bottom {
            page.bottom
        } else {
            b.bottom
        },
    }
}

/// Whether a box takes more than nine tenths of the page in both directions.
pub open spec fn exceeds_page(b: Bbox, page: Bbox) -> bool {
    10 * b.wide() > 9 * page.wide() && 10 * b.high() > 9 * page.high()
}

/// Whether a box takes nine tenths of the page or more in both directions.
pub open spec fn fills_page(b: Bbox, page: Bbox) -> bool {
    10 * b.wide() >= 9 * page.wide() && 10 * b.high() >= 9 * page.high()
}

/// The rectangle of an image when it may replace a layout box.
pub open spec fn placement_of(bounds: Bbox, page: Bbox) -> Option<Bbox> {
    let b = cut(bounds, page);
    if !b.valid() || b.wide() < MIN_SIDE || b.high() < MIN_SIDE || exceeds_page(b, page) {
        None
    } else {
        Some(b)
    }
}

/// Whether a box shares at least a number of hundredths of another one's area.
pub open spec fn covers(layout: Bbox, bounds: Bbox, whole: Bbox, hundredths: int) -> bool {
    whole.size() > 0 && 100 * layout.shared_area(bounds) >= hundredths * whole.size()
}

/// Whether an image belongs to a layout: it is mostly inside, or covers it.
pub open spec fn is_part(bounds: Bbox, layout: Bbox, page: Bbox) -> bool {
    &&& fills_page(layout, page) || !exceeds_page(bounds, page)
    &&& covers(layout, bounds, layout, 85) || covers(layout, bounds, bounds, 50)
}

/// The first `n` images that belong to a layout.
pub open spec fn parts_upto(images: Seq<EmbeddedImage>, layout: Bbox, page: Bbox, n: int) -> Seq<
    usize,
>
    decreases n,
{
    if n <= 0 {
        Seq::empty()
    } else {
        let before = parts_upto(images, layout, page, n - 1);
        if is_part(images[n - 1].bounds, layout, page) {
            before.push((n - 1) as usize)
        } else {
            before
        }
    }
}

/// The images that belong to a layout.
pub open spec fn parts_of(images: Seq<EmbeddedImage>, layout: Bbox, page: Bbox) -> Seq<usize> {
    parts_upto(images, layout, page, images.len() as int)
}

/// Whether an image contains nearly all of a layout box.
pub open spec fn is_container(bounds: Bbox, layout: Bbox, page: Bbox) -> bool {
    match placement_of(bounds, page) {
        None => false,
        Some(b) => covers(layout, b, layout, 85),
    }
}

/// The boxes of images.
pub open spec fn bounds_of(images: Seq<EmbeddedImage>) -> Seq<Bbox> {
    Seq::new(images.len(), |i: int| images[i].bounds)
}

/// The first smallest container among the first `n` boxes.
pub open spec fn smallest_upto(boxes: Seq<Bbox>, layout: Bbox, page: Bbox, n: int) -> Option<int>
    decreases n,
{
    if n <= 0 {
        None
    } else {
        let before = smallest_upto(boxes, layout, page, n - 1);
        if !is_container(boxes[n - 1], layout, page) {
            before
        } else {
            match before {
                None => Some(n - 1),
                Some(best) => if cut(boxes[n - 1], page).size() < cut(boxes[best], page).size() {
                    Some(n - 1)
                } else {
                    before
                },
            }
        }
    }
}

/// Whether another container is hardly larger than the one at `best`.
pub open spec fn ambiguous(boxes: Seq<Bbox>, layout: Bbox, page: Bbox, best: int) -> bool {
    exists|j: int| #[trigger] rivals(boxes, layout, page, best, j)
}

/// Whether box `j` is another container hardly larger than the one at `best`.
pub open spec fn rivals(boxes: Seq<Bbox>, layout: Bbox, page: Bbox, best: int, j: int) -> bool {
    0 <= j < boxes.len() && j != best && is_container(boxes[j], layout, page) && 100 * cut(
        boxes[j],
        page,
    ).size() <= 115 * cut(boxes[best], page).size()
}

/// The smallest image that contains nearly all of a layout box, if it is
/// clearly the smallest.
pub open spec fn container_of(boxes: Seq<Bbox>, layout: Bbox, page: Bbox) -> Option<FigureMatch> {
    match smallest_upto(boxes, layout, page, boxes.len() as int) {
        None => None,
        Some(best) => if ambiguous(boxes, layout, page, best) {
            None
        } else {
            Some(
                FigureMatch { image_index: best as u32, bounds: cut(boxes[best], page) },
            )
        },
    }
}

/// Whether a detection shows a picture of several images.
pub open spec fn is_composite(
    images: Seq<EmbeddedImage>,
    detection: LayoutDetection,
    page: Bbox,
) -> bool {
    detection.label is Image && parts_of(images, detection.bbox, page).len() > 1
}

/// Whether a row of the model is a picture of several images.
pub open spec fn composite_row(
    images: Seq<EmbeddedImage>,
    detections: Seq<LayoutDetection>,
    page: Bbox,
    row: u32,
) -> bool {
    exists|d: int|
        0 <= d < detections.len() && is_composite(images, #[trigger] detections[d], page)
            && detections[d].source_detection_index == row
}

/// Whether an image is one of several of a picture.
pub open spec fn composite_image(
    images: Seq<EmbeddedImage>,
    detections: Seq<LayoutDetection>,
    page: Bbox,
    image: u32,
) -> bool {
    exists|d: int|
        0 <= d < detections.len() && is_composite(images, #[trigger] detections[d], page)
            && parts_of(images, detections[d].bbox, page).contains(image as usize)
}

/// The match of one detection.
pub open spec fn match_of(
    images: Seq<EmbeddedImage>,
    detections: Seq<LayoutDetection>,
    page: Bbox,
    d: int,
) -> Option<FigureMatch> {
    if composite_row(images, detections, page, detections[d].source_detection_index) {
        None
    } else {
        match container_of(bounds_of(images), detections[d].bbox, page) {
            None => None,
            Some(found) => if composite_image(images, detections, page, found.image_index) {
                None
            } else {
                Some(found)
            },
        }
    }
}

/// The matches of the first `n` detections by their rows of the model.
pub open spec fn matches_upto(
    images: Seq<EmbeddedImage>,
    detections: Seq<LayoutDetection>,
    page: Bbox,
    n: int,
) -> Map<u32, FigureMatch>
    decreases n,
{
    if n <= 0 {
        Map::empty()
    } else {
        let before = matches_upto(images, detections, page, n - 1);
        match match_of(images, detections, page, n - 1) {
            None => before,
            Some(found) => before.insert(detections[n - 1].source_detection_index, found),
        }
    }
}

/// Whether two boxes differ by more than placement noise.
pub open spec fn differ(a: Bbox, b: Bbox) -> bool {
    abs(a.left - b.left) > BOUNDS_NOISE || abs(a.top - b.top) > BOUNDS_NOISE || abs(
        a.right - b.right,
    ) > BOUNDS_NOISE || abs(a.bottom - b.bottom) > BOUNDS_NOISE
}

/// Whether a box nests with the box of another block than the one at `i`.
pub open spec fn nests(blocks: Seq<Block>, candidate: Bbox, i: int) -> bool {
    exists|k: int|
        0 <= k < blocks.len() && k != i && (candidate.holds((#[trigger] blocks[k]).bbox)
            || blocks[k].bbox.holds(candidate))
}

/// The box to which the block at `i` is expanded: that of its image, where it nests with no other
/// block.
pub open spec fn widened(blocks: Seq<Block>, i: int) -> Option<Bbox> {
    let block = blocks[i];
    match block.figure_bounds {
        None => None,
        Some(bounds) => {
            let candidate = bounds.join(block.bbox);
            if !candidate.valid() || !differ(block.bbox, candidate) || nests(blocks, candidate, i) {
                None
            } else {
                Some(candidate)
            }
        },
    }
}

/// What is kept of the box that the model gave an expanded block.
pub open spec fn bounds_evidence(model: Bbox) -> EvidenceModel {
    EvidenceModel {
        kind: "embedded_image_bounds"@,
        details: seq![
            (
                "model_bbox"@,
                points_text(model.left as int) + ","@ + points_text(model.top as int) + ","@
                    + points_text(model.right as int) + ","@ + points_text(model.bottom as int),
            ),
        ],
    }
}

/// Whether a block is the one at `i`, expanded where it may be.
pub open spec fn is_placed(blocks: Seq<Block>, i: int, block: Block) -> bool {
    match widened(blocks, i) {
        None => block == (Block { figure_bounds: None, ..blocks[i] }),
        Some(candidate) => {
            &&& block == (Block {
                figure_bounds: None,
                bbox: candidate,
                evidence: block.evidence,
                ..blocks[i]
            })
            &&& evidence_models(block.evidence@) == evidence_models(blocks[i].evidence@).push(
                bounds_evidence(blocks[i].bbox),
            )
        },
    }
}

/// What is kept of the box that the model gave an expanded block.
fn bounds_record(model: &Bbox) -> (evidence: Evidence)
    ensures
        evidence@ == bounds_evidence(*model),
{
    let mut kind: String = String::new();
    push_text(&mut kind, "embedded_image_bounds");
    let mut name: String = String::new();
    push_text(&mut name, "model_bbox");
    let mut sides: String = String::new();
    push_points(&mut sides, model.left);
    push_text(&mut sides, ",");
    push_points(&mut sides, model.top);
    push_text(&mut sides, ",");
    push_points(&mut sides, model.right);
    push_text(&mut sides, ",");
    push_points(&mut sides, model.bottom);
    let mut details: Vec<(String, String)> = Vec::new();
    details.push((name, sides));
    let evidence = Evidence { kind, details };
    proof {
        let want = bounds_evidence(*model);
        assert(evidence@.kind =~= want.kind);
        assert(evidence@.details[0].0 =~= want.details[0].0);
        assert(evidence@.details[0].1 =~= want.details[0].1);
        assert(evidence@.details =~= want.details);
    }
    evidence
}

/// The part of a box that lies in another.
fn clip(b: &Bbox, page: &Bbox) -> (part: Bbox)
    ensures
        part == cut(*b, *page),
{
    Bbox {
        left: if b.left < page.left {
            page.left
        } else {
            b.left
        },
        top: if b.top < page.top {
            page.top
        } else {
            b.top
        },
        right: if b.right > page.right {
            page.right
        } else {
            b.right
        },
        bottom: if b.bottom > page.bottom {
            page.bottom
        } else {
            b.bottom
        },
    }
}

/// Whether a box shares at least a number of hundredths of another one's area.
fn does_cover(layout: &Bbox, bounds: &Bbox, whole: &Bbox, hundredths: i128) -> (yes: bool)
    requires
        0 <= hundredths <= 100,
    ensures
        yes == covers(*layout, *bounds, *whole, hundredths as int),
{
    let area: i128 = whole.area();
    let common: i128 = layout.intersection_area(bounds);
    if area <= 0 {
        return false;
    }
    assert(hundredths * area <= 100 * 0x2_0000_0000_0000_0000) by (nonlinear_arith)
        requires
            0 <= hundredths <= 100,
            0 < area <= 0x2_0000_0000_0000_0000,
    ;
    assert(0 <= hundredths * area) by (nonlinear_arith)
        requires
            0 <= hundredths,
            0 < area,
    ;
    100 * common >= hundredths * area
}

/// Whether a box takes more than nine tenths of the page in both directions.
fn does_exceed(b: &Bbox, page: &Bbox) -> (yes: bool)
    ensures
        yes == exceeds_page(*b, *page),
{
    10 * b.width() > 9 * page.width() && 10 * b.height() > 9 * page.height()
}

/// Whether two boxes differ by more than placement noise.
pub fn boxes_differ(a: &Bbox, b: &Bbox) -> (yes: bool)
    ensures
        yes == differ(*a, *b),
{
    let noise: i128 = BOUNDS_NOISE as i128;
    distance(a.left as i64, b.left as i64) > noise || distance(a.top as i64, b.top as i64) > noise
        || distance(a.right as i64, b.right as i64) > noise || distance(
        a.bottom as i64,
        b.bottom as i64,
    ) > noise
}

/// The extent of two boxes, where it is a box.
pub fn union_bbox(a: &Bbox, b: &Bbox) -> (extent: Option<Bbox>)
    ensures
        extent == (if a.join(*b).valid() {
            Some(a.join(*b))
        } else {
            None
        }),
{
    let extent: Bbox = a.union(b);
    if extent.is_valid() {
        Some(extent)
    } else {
        None
    }
}

impl EmbeddedImage {
    /// The placed rectangle when this image may replace a layout box.
    pub fn placement(&self, page: &Bbox) -> (placed: Option<Bbox>)
        ensures
            placed == placement_of(self.bounds, *page),
    {
        let b: Bbox = clip(&self.bounds, page);
        if !b.is_valid() || b.width() < MIN_SIDE || b.height() < MIN_SIDE || does_exceed(&b, page) {
            None
        } else {
            Some(b)
        }
    }
}

/// The first smallest container is one, and none before it is as small.
proof fn lemma_smallest(boxes: Seq<Bbox>, layout: Bbox, page: Bbox, n: int)
    requires
        0 <= n <= boxes.len(),
    ensures
        match smallest_upto(boxes, layout, page, n) {
            None => forall|j: int|
                0 <= j < n ==> !is_container(#[trigger] boxes[j], layout, page),
            Some(best) => 0 <= best < n && is_container(boxes[best], layout, page) && forall|j: int|
                0 <= j < n && is_container(#[trigger] boxes[j], layout, page) ==> cut(
                    boxes[best],
                    page,
                ).size() <= cut(boxes[j], page).size(),
        },
    decreases n,
{
    if n > 0 {
        lemma_smallest(boxes, layout, page, n - 1);
    }
}

/// Embedded images of one page, for matching and delivery.
#[derive(Debug)]
pub struct FigureCatalog<'a> {
    pub images: &'a Vec<EmbeddedImage>,
}

impl<'a> FigureCatalog<'a> {
    /// A catalog of the page's embedded images.
    pub fn new(images: &'a Vec<EmbeddedImage>) -> (catalog: FigureCatalog<'a>)
        ensures
            catalog.images == images,
    {
        FigureCatalog { images }
    }

    /// The images mostly inside an image layout or covering most of it.
    pub fn parts(&self, layout: &Bbox, page: &Bbox) -> (parts: Vec<usize>)
        ensures
            parts@ == parts_of(self.images@, *layout, *page),
    {
        let fills: bool = 10 * layout.width() >= 9 * page.width() && 10 * layout.height() >= 9
            * page.height();
        let mut parts: Vec<usize> = Vec::new();
        let mut i: usize = 0;
        while i < self.images.len()
            invariant
                fills == fills_page(*layout, *page),
                i <= self.images@.len(),
                parts@ == parts_upto(self.images@, *layout, *page, i as int),
            decreases self.images@.len() - i,
        {
            let bounds: Bbox = self.images[i].bounds;
            if (fills || !does_exceed(&bounds, page)) && (does_cover(layout, &bounds, layout, 85)
                || does_cover(layout, &bounds, &bounds, 50)) {
                parts.push(i);
            }
            i = i + 1;
        }
        parts
    }

    /// Picks the smallest image that contains nearly all of the layout box.
    pub fn container(&self, layout: &Bbox, page: &Bbox) -> (found: Option<FigureMatch>)
        requires
            self.images@.len() <= u32::MAX,
        ensures
            found == container_of(bounds_of(self.images@), *layout, *page),
    {
        let ghost boxes = bounds_of(self.images@);
        let mut best: Option<(usize, Bbox, i128)> = None;
        let mut i: usize = 0;
        while i < self.images.len()
            invariant
                boxes == bounds_of(self.images@),
                i <= self.images@.len(),
                match (best, smallest_upto(boxes, *layout, *page, i as int)) {
                    (None, None) => true,
                    (Some((at, bounds, area)), Some(expected)) => at == expected && at < i
                        && bounds == cut(boxes[at as int], *page) && area == bounds.size() && area
                        <= 0x2_0000_0000_0000_0000,
                    _ => false,
                },
            decreases self.images@.len() - i,
        {
            assert(boxes[i as int] == self.images@[i as int].bounds);
            if let Some(bounds) = self.images[i].placement(page) {
                if does_cover(layout, &bounds, layout, 85) {
                    let area: i128 = bounds.area();
                    let better: bool = match best {
                        None => true,
                        Some((_, _, least)) => area < least,
                    };
                    if better {
                        best = Some((i, bounds, area));
                    }
                }
            }
            i = i + 1;
        }
        let (at, bounds, least): (usize, Bbox, i128) = match best {
            None => {
                return None;
            },
            Some(found) => found,
        };
        proof {
            lemma_smallest(boxes, *layout, *page, boxes.len() as int);
            valid_box_has_area(bounds);
        }
        let mut j: usize = 0;
        while j < self.images.len()
            invariant
                boxes == bounds_of(self.images@),
                j <= self.images@.len(),
                at < self.images@.len(),
                smallest_upto(boxes, *layout, *page, boxes.len() as int) == Some(at as int),
                least == cut(boxes[at as int], *page).size(),
                0 < least <= 0x2_0000_0000_0000_0000,
                forall|k: int| 0 <= k < j ==> !#[trigger] rivals(
                    boxes,
                    *layout,
                    *page,
                    at as int,
                    k,
                ),
            decreases self.images@.len() - j,
        {
            assert(boxes[j as int] == self.images@[j as int].bounds);
            if j != at {
                if let Some(other) = self.images[j].placement(page) {
                    let area: i128 = other.area();
                    if does_cover(layout, &other, layout, 85) && 100 * area <= 115 * least {
                        assert(rivals(boxes, *layout, *page, at as int, j as int));
                        return None;
                    }
                }
            }
            j = j + 1;
        }
        assert(!ambiguous(boxes, *layout, *page, at as int));
        Some(FigureMatch { image_index: at as u32, bounds })
    }

    /// Whether a row of the model is a picture of several images.
    fn is_composite_row(&self, detections: &Vec<LayoutDetection>, page: &Bbox, row: u32) -> (yes:
        bool)
        ensures
            yes == composite_row(self.images@, detections@, *page, row),
    {
        let mut d: usize = 0;
        while d < detections.len()
            invariant
                d <= detections@.len(),
                forall|k: int|
                    0 <= k < d ==> !(is_composite(self.images@, #[trigger] detections@[k], *page)
                        && detections@[k].source_detection_index == row),
            decreases detections@.len() - d,
        {
            let detection: &LayoutDetection = &detections[d];
            if detection.source_detection_index == row && matches!(
                detection.label,
                LayoutLabel::Image
            ) && self.parts(&detection.bbox, page).len() > 1 {
                assert(is_composite(self.images@, detections@[d as int], *page));
                return true;
            }
            d = d + 1;
        }
        false
    }

    /// Whether an image is one of several of a picture.
    fn is_composite_image(&self, detections: &Vec<LayoutDetection>, page: &Bbox, image: u32) -> (yes:
        bool)
        ensures
            yes == composite_image(self.images@, detections@, *page, image),
    {
        let mut d: usize = 0;
        while d < detections.len()
            invariant
                d <= detections@.len(),
                forall|k: int|
                    0 <= k < d ==> !(is_composite(self.images@, #[trigger] detections@[k], *page)
                        && parts_of(self.images@, detections@[k].bbox, *page).contains(
                        image as usize,
                    )),
            decreases detections@.len() - d,
        {
            let detection: &LayoutDetection = &detections[d];
            if matches!(detection.label, LayoutLabel::Image) {
                let parts: Vec<usize> = self.parts(&detection.bbox, page);
                if parts.len() > 1 {
                    let mut k: usize = 0;
                    while k < parts.len()
                        invariant
                            d < detections@.len(),
                            parts@ == parts_of(self.images@, detections@[d as int].bbox, *page),
                            is_composite(self.images@, detections@[d as int], *page),
                            k <= parts@.len(),
                            forall|p: int| 0 <= p < k ==> #[trigger] parts@[p] != image as usize,
                        decreases parts@.len() - k,
                    {
                        if parts[k] == image as usize {
                            assert(parts@.contains(parts@[k as int]));
                            return true;
                        }
                        k = k + 1;
                    }
                }
            }
            d = d + 1;
        }
        false
    }

    /// Records geometric image matches independently of the model's label.
    pub fn match_detections(&self, detections: &Vec<LayoutDetection>, page: &Bbox) -> (matches:
        BTreeMap<u32, FigureMatch>)
        requires
            self.images@.len() <= u32::MAX,
        ensures
            matches@ == matches_upto(self.images@, detections@, *page, detections@.len() as int),
    {
        broadcast use vstd::std_specs::btree::group_btree_axioms;

        let mut matches: BTreeMap<u32, FigureMatch> = BTreeMap::new();
        let mut d: usize = 0;
        while d < detections.len()
            invariant
                self.images@.len() <= u32::MAX,
                d <= detections@.len(),
                matches@ == matches_upto(self.images@, detections@, *page, d as int),
            decreases detections@.len() - d,
        {
            let detection: &LayoutDetection = &detections[d];
            if !self.is_composite_row(detections, page, detection.source_detection_index) {
                if let Some(found) = self.container(&detection.bbox, page) {
                    if !self.is_composite_image(detections, page, found.image_index) {
                        matches.insert(detection.source_detection_index, found);
                    }
                }
            }
            d = d + 1;
        }
        matches
    }

    /// Expands figure boxes only when the image rectangle does not nest with another block.
    pub fn place(blocks: &mut Vec<Block>)
        ensures
            final(blocks)@.len() == old(blocks)@.len(),
            forall|i: int|
                0 <= i < old(blocks)@.len() ==> is_placed(
                    old(blocks)@,
                    i,
                    #[trigger] final(blocks)@[i],
                ),
    {
        let ghost given = blocks@;
        let n: usize = blocks.len();
        let mut current: Vec<Bbox> = Vec::new();
        let mut i: usize = 0;
        while i < n
            invariant
                n == blocks@.len(),
                blocks@ == given,
                i <= n,
                current@.len() == i,
                forall|k: int| 0 <= k < i ==> #[trigger] current@[k] == given[k].bbox,
            decreases n - i,
        {
            current.push(blocks[i].bbox);
            i = i + 1;
        }
        i = 0;
        while i < n
            invariant
                n == given.len(),
                i <= n,
                current@.len() == n,
                forall|k: int| 0 <= k < n ==> #[trigger] current@[k] == given[k].bbox,
                blocks@.len() == n,
                forall|k: int| 0 <= k < i ==> is_placed(given, k, #[trigger] blocks@[k]),
                forall|k: int| i <= k < n ==> #[trigger] blocks@[k] == given[k],
            decreases n - i,
        {
            if let Some(bounds) = blocks[i].figure_bounds {
                let own: Bbox = current[i];
                blocks[i].figure_bounds = None;
                if let Some(candidate) = union_bbox(&bounds, &own) {
                    if boxes_differ(&own, &candidate) && !nests_among(
                        &current,
                        &candidate,
                        i,
                        Ghost(given),
                    ) {
                        blocks[i].bbox = candidate;
                        let record: Evidence = bounds_record(&own);
                        let ghost before = blocks@[i as int].evidence@;
                        blocks[i].evidence.push(record);
                        assert(evidence_models(blocks@[i as int].evidence@) =~= evidence_models(
                            before,
                        ).push(record@));
                    }
                }
            }
            assert(is_placed(given, i as int, blocks@[i as int]));
            i = i + 1;
        }
    }
}

/// Whether a box nests with the box of another block than the one at `i`.
fn nests_among(
    current: &Vec<Bbox>,
    candidate: &Bbox,
    i: usize,
    Ghost(blocks): Ghost<Seq<Block>>,
) -> (yes: bool)
    requires
        current@.len() == blocks.len(),
        forall|k: int| 0 <= k < blocks.len() ==> #[trigger] current@[k] == blocks[k].bbox,
    ensures
        yes == nests(blocks, *candidate, i as int),
{
    let mut k: usize = 0;
    while k < current.len()
        invariant
            current@.len() == blocks.len(),
            forall|k: int| 0 <= k < blocks.len() ==> #[trigger] current@[k] == blocks[k].bbox,
            k <= current@.len(),
            forall|p: int|
                0 <= p < k && p != i ==> !(candidate.holds((#[trigger] blocks[p]).bbox)
                    || blocks[p].bbox.holds(*candidate)),
        decreases current@.len() - k,
    {
        assert(current@[k as int] == blocks[k as int].bbox);
        if k != i && (candidate.contains(&current[k]) || current[k].contains(candidate)) {
            return true;
        }
        k = k + 1;
    }
    false
}

/// Two places of one value, where it is counted twice.
proof fn lemma_twice(s: Seq<Bbox>, x: Bbox, i: int) -> (j: int)
    requires
        0 <= i < s.len(),
        s[i] == x,
        s.to_multiset().count(x) >= 2,
    ensures
        0 <= j < s.len(),
        j != i,
        s[j] == x,
{
    let rest = s.remove(i);
    s.to_multiset_ensures();
    rest.to_multiset_ensures();
    assert(rest.to_multiset() =~= s.to_multiset().remove(x));
    assert(rest.to_multiset().count(x) >= 1);
    assert(rest.contains(x));
    let k = rest.index_of(x);
    if k < i {
        k
    } else {
        k + 1
    }
}

/// A value counted once in two places of a sequence.
proof fn lemma_counted_twice(s: Seq<Bbox>, i: int, j: int)
    requires
        0 <= i < s.len(),
        0 <= j < s.len(),
        i != j,
        s[i] == s[j],
    ensures
        s.to_multiset().count(s[i]) >= 2,
{
    let rest = s.remove(i);
    s.to_multiset_ensures();
    rest.to_multiset_ensures();
    assert(rest.to_multiset() =~= s.to_multiset().remove(s[i]));
    let k = if j < i {
        j
    } else {
        j - 1
    };
    assert(rest[k] == s[j]);
    assert(rest.contains(s[j]));
    assert(rest.to_multiset().count(s[j]) > 0);
    assert(s.contains(s[i]));
    assert(s.to_multiset().count(s[i]) > 0);
}

/// A clear match stays one, with the same box, however the images are arranged.
proof fn lemma_container_kept(a: Seq<Bbox>, b: Seq<Bbox>, layout: Bbox, page: Bbox)
    requires
        a.to_multiset() == b.to_multiset(),
        container_of(a, layout, page) is Some,
    ensures
        container_of(b, layout, page) is Some,
        container_of(b, layout, page)->0.bounds == container_of(a, layout, page)->0.bounds,
{
    a.to_multiset_ensures();
    b.to_multiset_ensures();
    lemma_smallest(a, layout, page, a.len() as int);
    lemma_smallest(b, layout, page, b.len() as int);
    let best = smallest_upto(a, layout, page, a.len() as int)->0;
    let x = a[best];
    assert(a.contains(x));
    assert(a.to_multiset().count(x) > 0);
    assert(b.contains(x));
    let at = b.index_of(x);
    assert(is_container(b[at], layout, page));
    let found = smallest_upto(b, layout, page, b.len() as int)->0;
    valid_box_has_area(cut(x, page));
    if found != at {
        let y = b[found];
        assert(b.contains(y));
        assert(b.to_multiset().count(y) > 0);
        assert(a.contains(y));
        let k = a.index_of(y);
        if k == best {
            lemma_counted_twice(b, at, found);
            let j = lemma_twice(a, x, best);
            assert(rivals(a, layout, page, best, j));
        } else {
            assert(rivals(a, layout, page, best, k));
        }
        assert(false);
    }
    if ambiguous(b, layout, page, at) {
        let j = choose|j: int| #[trigger] rivals(b, layout, page, at, j);
        let y = b[j];
        assert(b.contains(y));
        assert(b.to_multiset().count(y) > 0);
        assert(a.contains(y));
        let k = a.index_of(y);
        if k == best {
            lemma_counted_twice(b, at, j);
            let m = lemma_twice(a, x, best);
            assert(rivals(a, layout, page, best, m));
        } else {
            assert(rivals(a, layout, page, best, k));
        }
        assert(false);
    }
}

/// Which image a layout is matched to, and whether it is, does not depend on the
/// order in which the images are listed.
pub proof fn matching_forgets_arrival(a: Seq<Bbox>, b: Seq<Bbox>, layout: Bbox, page: Bbox)
    requires
        a.to_multiset() == b.to_multiset(),
    ensures
        container_of(a, layout, page) is Some <==> container_of(b, layout, page) is Some,
        container_of(a, layout, page) matches Some(found) ==> container_of(
            b,
            layout,
            page,
        )->0.bounds == found.bounds,
{
    if container_of(a, layout, page) is Some {
        lemma_container_kept(a, b, layout, page);
    } else if container_of(b, layout, page) is Some {
        lemma_container_kept(b, a, layout, page);
    }
}

/// No block is expanded into a box that nests with the box another block had.
pub proof fn placement_never_nests(blocks: Seq<Block>, i: int, k: int, block: Block)
    requires
        0 <= i < blocks.len(),
        0 <= k < blocks.len(),
        i != k,
        is_placed(blocks, i, block),
        block.bbox != blocks[i].bbox,
    ensures
        !block.bbox.holds(blocks[k].bbox),
        !blocks[k].bbox.holds(block.bbox),
        evidence_models(block.evidence@).last() == bounds_evidence(blocks[i].bbox),
{
}

} // verus!
