//! Handing images over, each of them once.

use vstd::prelude::*;

use crate::blocks::{Block, FigureDelivery, FigureImage};
use crate::chars::{push_decimal, push_text, text_of_decimal};
use crate::figure::catalog::{parts_of, FigureCatalog};
use crate::figure::images::{
    delivered_as, outcome_model, prepared_model, DeliveryModel, EmbeddedImage, ImageModel,
    PreparedFigure, PreparedModel,
};
use crate::figure::raster::RenderedPage;
use crate::geometry::Bbox;
use crate::layout::LayoutLabel;
use crate::types::{warning_models, PageWarning, WarningModel};

verus! {

/// An image of the page that no block holds.
#[derive(Debug)]
pub struct PageImageAsset {
    pub id: String,
    pub bbox: Bbox,
    pub image: FigureImage,
}

/// What is known of an image of the page.
#[verifier::ext_equal]
pub struct AssetModel {
    pub id: Seq<char>,
    pub bbox: Bbox,
    pub image: ImageModel,
}

impl View for PageImageAsset {
    type V = AssetModel;

    open spec fn view(&self) -> AssetModel {
        AssetModel { id: self.id@, bbox: self.bbox, image: self.image@ }
    }
}

/// What is known of images of the page.
pub open spec fn asset_models(assets: Seq<PageImageAsset>) -> Seq<AssetModel> {
    assets.map_values(|a: PageImageAsset| a@)
}

/// Whether a label stands for a picture.
pub open spec fn is_picture(label: LayoutLabel) -> bool {
    label is Chart || label is FooterImage || label is HeaderImage || label is Image
        || label is Seal
}

/// Whether a label stands for a picture.
pub fn is_figure(label: &LayoutLabel) -> (yes: bool)
    ensures
        yes == is_picture(*label),
{
    matches!(
        label,
        LayoutLabel::Chart | LayoutLabel::FooterImage | LayoutLabel::HeaderImage
            | LayoutLabel::Image | LayoutLabel::Seal
    )
}

/// What is said of a figure without an image.
pub open spec fn missing_of(id: Seq<char>, message: Seq<char>) -> WarningModel {
    WarningModel {
        code: "VisualAssetUnavailable"@,
        stage: "figure"@,
        message: "figure "@ + id + " has no image: "@ + message,
    }
}

/// What is said of a figure without an image.
pub fn missing(id: &str, message: &str) -> (warning: PageWarning)
    ensures
        warning@ == missing_of(id@, message@),
{
    let mut text: String = String::new();
    push_text(&mut text, "figure ");
    push_text(&mut text, id);
    push_text(&mut text, " has no image: ");
    push_text(&mut text, message);
    assert(text@ =~= "figure "@ + id@ + " has no image: "@ + message@);
    let warning: PageWarning = PageWarning::new("VisualAssetUnavailable", "figure", text);
    assert(warning@ =~= missing_of(id@, message@));
    warning
}

/// Identity of an image of the page that no block holds.
pub open spec fn image_id_of(page: nat, index: nat) -> Seq<char> {
    "p"@ + text_of_decimal(page) + ":image"@ + text_of_decimal(index)
}

/// What comes next.
#[derive(Debug)]
pub enum Offer {
    /// Nothing is owed.
    Skip,
    /// There is no image, for a reason.
    Failed { reason: String },
    /// An image file to hand over.
    Ready { figure: PreparedFigure },
}

/// What is known of what comes next.
#[verifier::ext_equal]
pub enum OfferModel {
    Skip,
    Failed { reason: Seq<char> },
    Ready { figure: PreparedModel },
}

impl View for Offer {
    type V = OfferModel;

    open spec fn view(&self) -> OfferModel {
        match self {
            Offer::Skip => OfferModel::Skip,
            Offer::Failed { reason } => OfferModel::Failed { reason: reason@ },
            Offer::Ready { figure } => OfferModel::Ready { figure: figure@ },
        }
    }
}

/// An offer of an image that was prepared, or was not; one without content fails.
pub open spec fn offer_of(figure: Result<PreparedModel, Seq<char>>) -> OfferModel {
    match figure {
        Err(reason) => OfferModel::Failed { reason },
        Ok(made) => if made.hollow() {
            OfferModel::Failed { reason: "image file is empty"@ }
        } else {
            OfferModel::Ready { figure: made }
        },
    }
}

/// An offer of an image that was prepared, or was not.
fn offer(figure: Result<PreparedFigure, String>) -> (offered: Offer)
    ensures
        offered@ == offer_of(prepared_model(figure)),
{
    match figure {
        Err(reason) => Offer::Failed { reason },
        Ok(made) => {
            if made.is_hollow() {
                let mut reason: String = String::new();
                push_text(&mut reason, "image file is empty");
                assert(reason@ =~= "image file is empty"@);
                Offer::Failed { reason }
            } else {
                Offer::Ready { figure: made }
            }
        },
    }
}

/// The images a block shows together, if it is a picture of more than one.
pub open spec fn block_parts(images: Seq<EmbeddedImage>, block: Block, page: Bbox) -> Seq<usize> {
    if block.label is Image {
        let parts = parts_of(images, block.bbox, page);
        if parts.len() > 1 {
            parts
        } else {
            Seq::empty()
        }
    } else {
        Seq::empty()
    }
}

/// Whether a flag is there and set.
pub open spec fn flagged(flags: Seq<bool>, index: int) -> bool {
    0 <= index < flags.len() && flags[index]
}

/// Whether a block asks for an image.
pub open spec fn asks(block: Block) -> bool {
    is_picture(block.label) || block.embedded_image_index is Some
}

/// The image offered to a block.
pub open spec fn block_offer(
    images: Seq<EmbeddedImage>,
    block: Block,
    rendered: RenderedPage,
    delivered: Seq<bool>,
) -> OfferModel {
    let parts = block_parts(images, block, rendered.viewport());
    if !asks(block) {
        OfferModel::Skip
    } else if parts.len() > 0 {
        offer_of(rendered.picture(block.bbox))
    } else {
        match block.embedded_image_index {
            None => offer_of(rendered.picture(block.bbox)),
            Some(index) => if flagged(delivered, index as int) {
                OfferModel::Skip
            } else if index < images.len() {
                offer_of(images[index as int].prepared(rendered))
            } else {
                offer_of(rendered.picture(block.bbox))
            },
        }
    }
}

/// The images delivered once a block got its image.
pub open spec fn block_delivered(
    images: Seq<EmbeddedImage>,
    block: Block,
    page: Bbox,
    delivered: Seq<bool>,
) -> Seq<bool> {
    let parts = block_parts(images, block, page);
    Seq::new(
        delivered.len(),
        |i: int|
            delivered[i] || (if parts.len() > 0 {
                parts.contains(i as usize)
            } else {
                block.embedded_image_index matches Some(index) && index == i
            }),
    )
}

/// What handing over has come to: the images of blocks, what was delivered, the
/// images no block holds, and what is said of missing ones.
#[verifier::ext_equal]
pub struct RunModel {
    pub images: Seq<Option<ImageModel>>,
    pub delivered: Seq<bool>,
    pub remaining: Seq<AssetModel>,
    pub warnings: Seq<WarningModel>,
}

/// What became of one image file.
pub open spec fn settled_image(offer: OfferModel, outcome: Result<DeliveryModel, Seq<char>>) -> Option<
    ImageModel,
> {
    match (offer, outcome) {
        (OfferModel::Ready { figure }, Ok(delivery)) => Some(delivered_as(figure, delivery)),
        _ => None,
    }
}

/// Why there is no image.
pub open spec fn settled_reason(
    offer: OfferModel,
    outcome: Result<DeliveryModel, Seq<char>>,
) -> Option<Seq<char>> {
    match (offer, outcome) {
        (OfferModel::Failed { reason }, _) => Some(reason),
        (OfferModel::Ready { figure }, Err(reason)) => Some(reason),
        _ => None,
    }
}

/// Handing over after one more block.
pub open spec fn block_settled(
    run: RunModel,
    images: Seq<EmbeddedImage>,
    blocks: Seq<Block>,
    rendered: RenderedPage,
    b: int,
    outcome: Result<DeliveryModel, Seq<char>>,
) -> RunModel {
    let offer = block_offer(images, blocks[b], rendered, run.delivered);
    match (settled_image(offer, outcome), settled_reason(offer, outcome)) {
        (Some(image), _) => RunModel {
            images: run.images.update(b, Some(image)),
            delivered: block_delivered(images, blocks[b], rendered.viewport(), run.delivered),
            ..run
        },
        (None, Some(reason)) => RunModel {
            warnings: run.warnings.push(missing_of(blocks[b].id@, reason)),
            ..run
        },
        (None, None) => run,
    }
}

/// The image offered as one of the page.
pub open spec fn image_offer(
    images: Seq<EmbeddedImage>,
    rendered: RenderedPage,
    delivered: Seq<bool>,
    i: int,
) -> OfferModel {
    if flagged(delivered, i) {
        OfferModel::Skip
    } else {
        offer_of(images[i].prepared(rendered))
    }
}

/// Handing over after one more image of the page.
pub open spec fn image_settled(
    run: RunModel,
    images: Seq<EmbeddedImage>,
    rendered: RenderedPage,
    i: int,
    outcome: Result<DeliveryModel, Seq<char>>,
) -> RunModel {
    let offer = image_offer(images, rendered, run.delivered, i);
    let id = image_id_of(rendered.page_number as nat, i as nat);
    match (settled_image(offer, outcome), settled_reason(offer, outcome)) {
        (Some(image), _) => RunModel {
            remaining: run.remaining.push(AssetModel { id, bbox: images[i].bounds, image }),
            ..run
        },
        (None, Some(reason)) => RunModel {
            warnings: run.warnings.push(missing_of(id, reason)),
            ..run
        },
        (None, None) => run,
    }
}

/// The images blocks hold.
pub open spec fn block_images(blocks: Seq<Block>) -> Seq<Option<ImageModel>> {
    Seq::new(
        blocks.len(),
        |b: int|
            match blocks[b].image {
                None => None::<ImageModel>,
                Some(image) => Some(image@),
            },
    )
}

/// Images on their way from a page to those who hold them.
#[derive(Debug)]
pub struct FigureRun {
    pub delivered: Vec<bool>,
    pub remaining: Vec<PageImageAsset>,
    pub warnings: Vec<PageWarning>,
}

impl FigureRun {
    /// What handing over has come to.
    pub open spec fn model(self, blocks: Seq<Block>) -> RunModel {
        RunModel {
            images: block_images(blocks),
            delivered: self.delivered@,
            remaining: asset_models(self.remaining@),
            warnings: warning_models(self.warnings@),
        }
    }

    /// Nothing handed over yet.
    pub fn new(count: usize) -> (run: FigureRun)
        ensures
            run.delivered@ == Seq::new(count as nat, |i: int| false),
            run.remaining@.len() == 0,
            run.warnings@.len() == 0,
    {
        let mut delivered: Vec<bool> = Vec::new();
        let mut i: usize = 0;
        while i < count
            invariant
                i <= count,
                delivered@ == Seq::new(i as nat, |i: int| false),
            decreases count - i,
        {
            delivered.push(false);
            i = i + 1;
            assert(delivered@ =~= Seq::new(i as nat, |i: int| false));
        }
        FigureRun { delivered, remaining: Vec::new(), warnings: Vec::new() }
    }

    /// Whether an image was delivered.
    fn is_delivered(&self, index: u32) -> (yes: bool)
        ensures
            yes == flagged(self.delivered@, index as int),
    {
        (index as usize) < self.delivered.len() && self.delivered[index as usize]
    }

    /// The image offered to a block.
    pub fn offer_block(
        &self,
        catalog: &FigureCatalog,
        block: &Block,
        rendered: &RenderedPage,
    ) -> (offered: Offer)
        requires
            rendered.wf(),
        ensures
            offered@ == block_offer(catalog.images@, *block, *rendered, self.delivered@),
    {
        if !is_figure(&block.label) && block.embedded_image_index.is_none() {
            return Offer::Skip;
        }
        if matches!(block.label, LayoutLabel::Image) && catalog.parts(
            &block.bbox,
            &rendered.page_box(),
        ).len() > 1 {
            return offer(rendered.cropped_figure(&block.bbox));
        }
        match block.embedded_image_index {
            None => offer(rendered.cropped_figure(&block.bbox)),
            Some(index) => {
                if self.is_delivered(index) {
                    Offer::Skip
                } else if (index as usize) < catalog.images.len() {
                    offer(catalog.images[index as usize].prepare(rendered))
                } else {
                    offer(rendered.cropped_figure(&block.bbox))
                }
            },
        }
    }

    /// Records what became of the image offered to the block at `b`.
    pub fn settle_block(
        &mut self,
        catalog: &FigureCatalog,
        blocks: &mut Vec<Block>,
        rendered: &RenderedPage,
        b: usize,
        offered: Offer,
        outcome: Result<FigureDelivery, String>,
    )
        requires
            b < old(blocks)@.len(),
            offered@ == block_offer(
                catalog.images@,
                old(blocks)@[b as int],
                *rendered,
                old(self).delivered@,
            ),
        ensures
            final(self).model(final(blocks)@) == block_settled(
                old(self).model(old(blocks)@),
                catalog.images@,
                old(blocks)@,
                *rendered,
                b as int,
                outcome_model(outcome),
            ),
            final(blocks)@.len() == old(blocks)@.len(),
            forall|k: int|
                0 <= k < final(blocks)@.len() && k != b ==> #[trigger] final(blocks)@[k] == old(
                    blocks,
                )@[k],
            final(blocks)@[b as int] == (Block {
                image: final(blocks)@[b as int].image,
                embedded_image_index: if asks(old(blocks)@[b as int]) {
                    None
                } else {
                    old(blocks)@[b as int].embedded_image_index
                },
                ..old(blocks)@[b as int]
            }),
    {
        let ghost given = blocks@;
        let ghost run = self.model(blocks@);
        let ghost page = rendered.viewport();
        let asking: bool = is_figure(&blocks[b].label) || blocks[b].embedded_image_index.is_some();
        let reason: Option<String> = match offered {
            Offer::Skip => None,
            Offer::Failed { reason } => Some(reason),
            Offer::Ready { figure } => match outcome {
                Err(reason) => Some(reason),
                Ok(delivery) => {
                    let parts: Vec<usize> = if matches!(blocks[b].label, LayoutLabel::Image) {
                        catalog.parts(&blocks[b].bbox, &rendered.page_box())
                    } else {
                        Vec::new()
                    };
                    let own: Option<u32> = blocks[b].embedded_image_index;
                    let image = FigureImage {
                        source: figure.source,
                        media_type: figure.media_type,
                        width: figure.width,
                        height: figure.height,
                        delivery,
                    };
                    assert(image@ =~= delivered_as(figure@, delivery@));
                    blocks[b].image = Some(image);
                    if parts.len() > 1 {
                        assert(parts@ == block_parts(catalog.images@, given[b as int], page));
                        self.mark_parts(&parts);
                    } else {
                        assert(block_parts(catalog.images@, given[b as int], page).len() == 0);
                        if let Some(index) = own {
                            if (index as usize) < self.delivered.len() {
                                self.delivered.set(index as usize, true);
                            }
                        }
                    }
                    assert(self.delivered@ =~= block_delivered(
                        catalog.images@,
                        given[b as int],
                        page,
                        run.delivered,
                    ));
                    None
                },
            },
        };
        if let Some(why) = &reason {
            let warning: PageWarning = missing(blocks[b].id.as_str(), why.as_str());
            let ghost before = self.warnings@;
            self.warnings.push(warning);
            assert(warning_models(self.warnings@) =~= warning_models(before).push(warning@));
        }
        if asking {
            blocks[b].embedded_image_index = None;
        }
        proof {
            let want = block_settled(
                run,
                catalog.images@,
                given,
                *rendered,
                b as int,
                outcome_model(outcome),
            );
            assert(block_images(blocks@) =~= want.images);
            assert(self.model(blocks@) =~= want);
        }
    }

    /// Marks images as delivered.
    fn mark_parts(&mut self, parts: &Vec<usize>)
        ensures
            final(self).delivered@ == Seq::new(
                old(self).delivered@.len(),
                |i: int| old(self).delivered@[i] || parts@.contains(i as usize),
            ),
            final(self).remaining == old(self).remaining,
            final(self).warnings == old(self).warnings,
    {
        let ghost given = self.delivered@;
        let total: usize = self.delivered.len();
        let mut k: usize = 0;
        while k < parts.len()
            invariant
                total == given.len(),
                k <= parts@.len(),
                self.remaining == old(self).remaining,
                self.warnings == old(self).warnings,
                self.delivered@.len() == given.len(),
                forall|i: int|
                    0 <= i < given.len() ==> (#[trigger] self.delivered@[i] <==> given[i]
                        || exists|p: int| 0 <= p < k && #[trigger] parts@[p] == i),
            decreases parts@.len() - k,
        {
            let ghost before = self.delivered@;
            if parts[k] < self.delivered.len() {
                self.delivered.set(parts[k], true);
            }
            proof {
                assert forall|i: int| 0 <= i < given.len() implies (#[trigger] self.delivered@[i]
                    <==> given[i] || exists|p: int| 0 <= p < k + 1 && #[trigger] parts@[p] == i) by {
                    assert(before[i] <==> given[i] || exists|p: int|
                        0 <= p < k && #[trigger] parts@[p] == i);
                    if i == parts@[k as int] {
                        assert(parts@[k as int] == i);
                    }
                }
            }
            k = k + 1;
        }
        proof {
            let want = Seq::new(
                given.len(),
                |i: int| given[i] || parts@.contains(i as usize),
            );
            assert forall|i: int| 0 <= i < given.len() implies self.delivered@[i] == want[i] by {
                if exists|p: int| 0 <= p < parts@.len() && #[trigger] parts@[p] == i {
                    let p = choose|p: int| 0 <= p < parts@.len() && #[trigger] parts@[p] == i;
                    assert(parts@.contains(parts@[p]));
                }
                if parts@.contains(i as usize) {
                    let p = parts@.index_of(i as usize);
                    assert(parts@[p] == i);
                }
            }
            assert(self.delivered@ =~= want);
        }
    }

    /// The image offered as one of the page.
    pub fn offer_image(&self, catalog: &FigureCatalog, rendered: &RenderedPage, i: usize) -> (offered:
        Offer)
        requires
            rendered.wf(),
            i < catalog.images@.len(),
        ensures
            offered@ == image_offer(catalog.images@, *rendered, self.delivered@, i as int),
    {
        if i < self.delivered.len() && self.delivered[i] {
            Offer::Skip
        } else {
            offer(catalog.images[i].prepare(rendered))
        }
    }

    /// Records what became of an image of the page.
    pub fn settle_image(
        &mut self,
        catalog: &FigureCatalog,
        rendered: &RenderedPage,
        i: usize,
        offered: Offer,
        outcome: Result<FigureDelivery, String>,
    )
        requires
            i < catalog.images@.len(),
            offered@ == image_offer(catalog.images@, *rendered, old(self).delivered@, i as int),
        ensures
            forall|blocks: Seq<Block>| #[trigger]
                final(self).model(blocks) == image_settled(
                    old(self).model(blocks),
                    catalog.images@,
                    *rendered,
                    i as int,
                    outcome_model(outcome),
                ),
    {
        let mut id: String = String::new();
        push_text(&mut id, "p");
        push_decimal(&mut id, rendered.page_number as u64);
        push_text(&mut id, ":image");
        push_decimal(&mut id, i as u64);
        assert(id@ =~= image_id_of(rendered.page_number as nat, i as nat));
        let reason: String = match offered {
            Offer::Skip => {
                return;
            },
            Offer::Failed { reason } => reason,
            Offer::Ready { figure } => match outcome {
                Err(reason) => reason,
                Ok(delivery) => {
                    let image = FigureImage {
                        source: figure.source,
                        media_type: figure.media_type,
                        width: figure.width,
                        height: figure.height,
                        delivery,
                    };
                    assert(image@ =~= delivered_as(figure@, delivery@));
                    let ghost before = self.remaining@;
                    let asset = PageImageAsset { id, bbox: catalog.images[i].bounds, image };
                    self.remaining.push(asset);
                    assert(asset_models(self.remaining@) =~= asset_models(before).push(asset@));
                    return;
                },
            },
        };
        let warning: PageWarning = missing(id.as_str(), reason.as_str());
        let ghost before = self.warnings@;
        self.warnings.push(warning);
        assert(warning_models(self.warnings@) =~= warning_models(before).push(warning@));
    }
}

/// What becomes of an offered image that is handed over as text.
pub open spec fn inline_outcome(offer: OfferModel) -> Result<DeliveryModel, Seq<char>> {
    match offer {
        OfferModel::Ready { figure } => figure.inlined(),
        _ => Err(Seq::empty()),
    }
}

/// Handing over as text after the first `n` blocks.
pub open spec fn blocks_run(
    run: RunModel,
    images: Seq<EmbeddedImage>,
    blocks: Seq<Block>,
    rendered: RenderedPage,
    n: int,
) -> RunModel
    decreases n,
{
    if n <= 0 {
        run
    } else {
        let before = blocks_run(run, images, blocks, rendered, n - 1);
        let offer = block_offer(images, blocks[n - 1], rendered, before.delivered);
        block_settled(before, images, blocks, rendered, n - 1, inline_outcome(offer))
    }
}

/// Handing over as text after the first `n` images of the page.
pub open spec fn images_run(
    run: RunModel,
    images: Seq<EmbeddedImage>,
    rendered: RenderedPage,
    n: int,
) -> RunModel
    decreases n,
{
    if n <= 0 {
        run
    } else {
        let before = images_run(run, images, rendered, n - 1);
        let offer = image_offer(images, rendered, before.delivered, n - 1);
        image_settled(before, images, rendered, n - 1, inline_outcome(offer))
    }
}

/// Before anything is handed over.
pub open spec fn run_start(images: Seq<EmbeddedImage>, blocks: Seq<Block>) -> RunModel {
    RunModel {
        images: block_images(blocks),
        delivered: Seq::new(images.len(), |i: int| false),
        remaining: Seq::empty(),
        warnings: Seq::empty(),
    }
}

/// Handing over as text, all of it.
pub open spec fn attached(
    images: Seq<EmbeddedImage>,
    blocks: Seq<Block>,
    rendered: RenderedPage,
) -> RunModel {
    let after = blocks_run(
        run_start(images, blocks),
        images,
        blocks,
        rendered,
        blocks.len() as int,
    );
    images_run(after, images, rendered, images.len() as int)
}

/// The file of an offer as text.
fn inline_offer(offered: &Offer) -> (outcome: Result<FigureDelivery, String>)
    ensures
        outcome_model(outcome) == inline_outcome(offered@),
{
    match offered {
        Offer::Ready { figure } => figure.inline(),
        _ => {
            let reason: String = String::new();
            assert(reason@ =~= Seq::empty());
            Err(reason)
        },
    }
}

impl<'a> FigureCatalog<'a> {
    /// Hands over embedded images once, as text; those no block claims are
    /// returned whatever the labels of the layout are.
    pub fn attach(&self, blocks: &mut Vec<Block>, rendered: &RenderedPage) -> (run: FigureRun)
        requires
            rendered.wf(),
        ensures
            run.model(final(blocks)@) == attached(self.images@, old(blocks)@, *rendered),
            final(blocks)@.len() == old(blocks)@.len(),
            forall|b: int|
                0 <= b < final(blocks)@.len() ==> #[trigger] final(blocks)@[b] == (Block {
                    image: final(blocks)@[b].image,
                    embedded_image_index: if asks(old(blocks)@[b]) {
                        None
                    } else {
                        old(blocks)@[b].embedded_image_index
                    },
                    ..old(blocks)@[b]
                }),
    {
        let ghost given = blocks@;
        let ghost start = run_start(self.images@, given);
        let n: usize = blocks.len();
        let mut run = FigureRun::new(self.images.len());
        assert(run.model(given) =~= start);
        let mut b: usize = 0;
        while b < n
            invariant
                rendered.wf(),
                n == given.len(),
                b <= n,
                blocks@.len() == n,
                run.model(blocks@) == blocks_run(start, self.images@, given, *rendered, b as int),
                forall|k: int| b <= k < n ==> #[trigger] blocks@[k] == given[k],
                forall|k: int|
                    0 <= k < b ==> #[trigger] blocks@[k] == (Block {
                        image: blocks@[k].image,
                        embedded_image_index: if asks(given[k]) {
                            None
                        } else {
                            given[k].embedded_image_index
                        },
                        ..given[k]
                    }),
            decreases n - b,
        {
            let ghost before = run.model(blocks@);
            let ghost held = blocks@;
            assert(blocks@[b as int] == given[b as int]);
            let offered: Offer = run.offer_block(self, &blocks[b], rendered);
            let outcome: Result<FigureDelivery, String> = inline_offer(&offered);
            run.settle_block(self, blocks, rendered, b, offered, outcome);
            assert(run.model(blocks@) == block_settled(
                before,
                self.images@,
                held,
                *rendered,
                b as int,
                outcome_model(outcome),
            ));
            b = b + 1;
        }
        let ghost settled = run.model(blocks@);
        let count: usize = self.images.len();
        let mut i: usize = 0;
        while i < count
            invariant
                rendered.wf(),
                count == self.images@.len(),
                i <= count,
                run.model(blocks@) == images_run(settled, self.images@, *rendered, i as int),
            decreases count - i,
        {
            let offered: Offer = run.offer_image(self, rendered, i);
            let outcome: Result<FigureDelivery, String> = inline_offer(&offered);
            run.settle_image(self, rendered, i, offered, outcome);
            i = i + 1;
        }
        run
    }
}

/// What was delivered stays so, whatever becomes of the image of one more block.
pub proof fn deliveries_are_kept(
    run: RunModel,
    images: Seq<EmbeddedImage>,
    blocks: Seq<Block>,
    rendered: RenderedPage,
    b: int,
    outcome: Result<DeliveryModel, Seq<char>>,
    i: int,
)
    requires
        0 <= b < blocks.len(),
        flagged(run.delivered, i),
    ensures
        flagged(block_settled(run, images, blocks, rendered, b, outcome).delivered, i),
{
}

/// An image that was delivered is offered neither to another block nor as one of
/// the page.
pub proof fn delivered_images_are_not_offered(
    images: Seq<EmbeddedImage>,
    block: Block,
    rendered: RenderedPage,
    delivered: Seq<bool>,
    i: int,
)
    requires
        flagged(delivered, i),
    ensures
        image_offer(images, rendered, delivered, i) is Skip,
        block.embedded_image_index is Some && block.embedded_image_index->0 == i && block_parts(
            images,
            block,
            rendered.viewport(),
        ).len() == 0 ==> block_offer(images, block, rendered, delivered) is Skip,
{
}

/// Once a block got an image, or a picture of several, each of them is delivered.
pub proof fn held_images_are_delivered(
    run: RunModel,
    images: Seq<EmbeddedImage>,
    blocks: Seq<Block>,
    rendered: RenderedPage,
    b: int,
    outcome: Result<DeliveryModel, Seq<char>>,
    i: int,
)
    requires
        0 <= b < blocks.len(),
        run.delivered.len() == images.len() <= usize::MAX,
        0 <= i < images.len(),
        settled_image(block_offer(images, blocks[b], rendered, run.delivered), outcome) is Some,
        ({
            let parts = block_parts(images, blocks[b], rendered.viewport());
            if parts.len() > 0 {
                parts.contains(i as usize)
            } else {
                blocks[b].embedded_image_index is Some && blocks[b].embedded_image_index->0 == i
            }
        }),
    ensures
        flagged(block_settled(run, images, blocks, rendered, b, outcome).delivered, i),
{
}

/// Every image of the page that no block holds is handed over, or something is
/// said of it.
pub proof fn no_image_is_lost(
    run: RunModel,
    images: Seq<EmbeddedImage>,
    rendered: RenderedPage,
    i: int,
    n: int,
)
    requires
        0 <= i < n <= images.len(),
        !flagged(run.delivered, i),
    ensures
        ({
            let after = images_run(run, images, rendered, n);
            let id = image_id_of(rendered.page_number as nat, i as nat);
            ||| exists|k: int|
                0 <= k < after.remaining.len() && (#[trigger] after.remaining[k]).id == id
                    && after.remaining[k].bbox == images[i].bounds
            ||| exists|k: int, reason: Seq<char>|
                0 <= k < after.warnings.len() && #[trigger] after.warnings[k]
                    == #[trigger] missing_of(id, reason)
        }),
        images_run(run, images, rendered, n).delivered == run.delivered,
    decreases n,
{
    let before = images_run(run, images, rendered, n - 1);
    let after = images_run(run, images, rendered, n);
    let id = image_id_of(rendered.page_number as nat, i as nat);
    lemma_images_keep(run, images, rendered, n - 1);
    if i == n - 1 {
        let offer = image_offer(images, rendered, before.delivered, i);
        let outcome = inline_outcome(offer);
        match settled_image(offer, outcome) {
            Some(image) => {
                let k = before.remaining.len() as int;
                assert(after.remaining[k].id == id);
            },
            None => {
                let reason = settled_reason(offer, outcome)->0;
                let k = before.warnings.len() as int;
                assert(after.warnings[k] == missing_of(id, reason));
            },
        }
    } else {
        no_image_is_lost(run, images, rendered, i, n - 1);
        if exists|k: int|
            0 <= k < before.remaining.len() && (#[trigger] before.remaining[k]).id == id
                && before.remaining[k].bbox == images[i].bounds {
            let k = choose|k: int|
                0 <= k < before.remaining.len() && (#[trigger] before.remaining[k]).id == id
                    && before.remaining[k].bbox == images[i].bounds;
            assert(after.remaining[k] == before.remaining[k]);
        } else {
            let (k, reason) = choose|k: int, reason: Seq<char>|
                0 <= k < before.warnings.len() && #[trigger] before.warnings[k]
                    == #[trigger] missing_of(id, reason);
            assert(after.warnings[k] == missing_of(id, reason));
        }
    }
}

/// Images of the page change nothing of what blocks were given.
proof fn lemma_images_keep(
    run: RunModel,
    images: Seq<EmbeddedImage>,
    rendered: RenderedPage,
    n: int,
)
    ensures
        images_run(run, images, rendered, n).delivered == run.delivered,
        images_run(run, images, rendered, n).images == run.images,
    decreases n,
{
    if n > 0 {
        lemma_images_keep(run, images, rendered, n - 1);
    }
}

} // verus!
