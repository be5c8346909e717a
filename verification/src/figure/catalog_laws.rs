//! Which embedded image a layout is matched to, and when a block grows to its image.

use vstd::prelude::*;

use crate::blocks::Block;
use crate::figure::catalog::{
    bounds_of, container_of, cut, is_container, is_part, is_placed, match_of, matches_upto,
    parts_of, parts_upto, rivals, smallest_upto, FigureMatch,
};
use crate::figure::images::EmbeddedImage;
use crate::geometry::Bbox;
use crate::layout::LayoutDetection;
use crate::ocr::plan_laws::common_area;

verus! {

/// The part of an image on the page: each side moved onto the page.
pub open spec fn on_page(b: Bbox, page: Bbox, part: Bbox) -> bool {
    &&& part.left >= b.left && part.left >= page.left && (part.left == b.left || part.left
        == page.left)
    &&& part.top >= b.top && part.top >= page.top && (part.top == b.top || part.top == page.top)
    &&& part.right <= b.right && part.right <= page.right && (part.right == b.right || part.right
        == page.right)
    &&& part.bottom <= b.bottom && part.bottom <= page.bottom && (part.bottom == b.bottom
        || part.bottom == page.bottom)
}

/// The area of a box.
pub open spec fn extent(b: Bbox) -> int {
    (b.right - b.left) * (b.bottom - b.top)
}

/// Whether a part of an image can stand for a layout box: its sides are at least eight points, it
/// does not take more than nine tenths of the page both ways, and it covers at least eighty-five
/// hundredths of the layout.
pub open spec fn can_stand_for(part: Bbox, layout: Bbox, page: Bbox) -> bool {
    &&& part.right - part.left >= 80_000 && part.bottom - part.top >= 80_000
    &&& 10 * (part.right - part.left) <= 9 * (page.right - page.left) || 10 * (part.bottom
        - part.top) <= 9 * (page.bottom - page.top)
    &&& extent(layout) > 0
    &&& 100 * common_area(layout, part) >= 85 * extent(layout)
}

proof fn lemma_container(b: Bbox, layout: Bbox, page: Bbox)
    ensures
        on_page(b, page, cut(b, page)),
        is_container(b, layout, page) <==> can_stand_for(cut(b, page), layout, page),
{
    let part = cut(b, page);
    assert(layout.shared_area(part) == common_area(layout, part)) by (nonlinear_arith)
        requires
            layout.shared_area(part) == vstd::math::max(layout.overlap_x(part), 0)
                * vstd::math::max(layout.overlap_y(part), 0),
    {
    }
    assert(part.size() == extent(part));
    assert(layout.size() == extent(layout));
}

proof fn lemma_smallest(boxes: Seq<Bbox>, layout: Bbox, page: Bbox, n: int)
    requires
        0 <= n <= boxes.len(),
    ensures
        match smallest_upto(boxes, layout, page, n) {
            None => forall|i: int| 0 <= i < n ==> !is_container(#[trigger] boxes[i], layout, page),
            Some(best) => 0 <= best < n && is_container(boxes[best], layout, page) && forall|i: int|
                0 <= i < n && is_container(#[trigger] boxes[i], layout, page) ==> cut(
                    boxes[i],
                    page,
                ).size() >= cut(boxes[best], page).size(),
        },
    decreases n,
{
    if n > 0 {
        lemma_smallest(boxes, layout, page, n - 1);
    }
}

/// A layout is matched to an image that can stand for it, where every other that can is more
/// than fifteen hundredths larger; and where there is exactly one, it is matched to that.
pub proof fn layouts_take_clearly_smallest_images(boxes: Seq<Bbox>, layout: Bbox, page: Bbox)
    requires
        boxes.len() <= u32::MAX,
    ensures
        container_of(boxes, layout, page) matches Some(m) ==> {
            &&& m.image_index < boxes.len()
            &&& on_page(boxes[m.image_index as int], page, m.bounds)
            &&& can_stand_for(m.bounds, layout, page)
            &&& forall|j: int, part: Bbox|
                0 <= j < boxes.len() && j != m.image_index && #[trigger] on_page(
                    boxes[j],
                    page,
                    part,
                ) && can_stand_for(part, layout, page) ==> 100 * extent(part) > 115 * extent(
                    m.bounds,
                )
        },
        forall|i: int, part: Bbox|
            0 <= i < boxes.len() && #[trigger] on_page(boxes[i], page, part) && can_stand_for(
                part,
                layout,
                page,
            ) && (forall|j: int, other: Bbox|
                0 <= j < boxes.len() && j != i && #[trigger] on_page(boxes[j], page, other)
                    && can_stand_for(other, layout, page) ==> 100 * extent(other) > 115 * extent(
                    part,
                )) ==> container_of(boxes, layout, page) == Some(
                FigureMatch { image_index: i as u32, bounds: part },
            ),
{
    let n = boxes.len() as int;
    lemma_smallest(boxes, layout, page, n);
    assert forall|j: int, part: Bbox|
        0 <= j < n && #[trigger] on_page(boxes[j], page, part) implies part == cut(boxes[j], page)
        && (is_container(boxes[j], layout, page) <==> can_stand_for(part, layout, page)) by {
        lemma_container(boxes[j], layout, page);
    }
    assert forall|b: Bbox| cut(b, page).size() == #[trigger] extent(cut(b, page)) by {}
    if let Some(m) = container_of(boxes, layout, page) {
        let best = smallest_upto(boxes, layout, page, n)->0;
        lemma_container(boxes[best], layout, page);
        assert forall|j: int, part: Bbox|
            0 <= j < n && j != m.image_index && #[trigger] on_page(boxes[j], page, part)
                && can_stand_for(part, layout, page) implies 100 * extent(part) > 115 * extent(
            m.bounds,
        ) by {
            assert(!rivals(boxes, layout, page, best, j));
            assert(extent(cut(boxes[j], page)) == cut(boxes[j], page).size());
        }
    }
    assert forall|i: int, part: Bbox|
        0 <= i < n && #[trigger] on_page(boxes[i], page, part) && can_stand_for(part, layout, page)
            && (forall|j: int, other: Bbox|
            0 <= j < n && j != i && #[trigger] on_page(boxes[j], page, other) && can_stand_for(
                other,
                layout,
                page,
            ) ==> 100 * extent(other) > 115 * extent(part)) implies container_of(
        boxes,
        layout,
        page,
    ) == Some(FigureMatch { image_index: i as u32, bounds: part }) by {
        assert(is_container(boxes[i], layout, page));
        let best = smallest_upto(boxes, layout, page, n)->0;
        lemma_container(boxes[best], layout, page);
        assert(extent(part) > 0) by (nonlinear_arith)
            requires
                part.right - part.left >= 80_000,
                part.bottom - part.top >= 80_000,
                extent(part) == (part.right - part.left) * (part.bottom - part.top),
        ;
        assert(cut(boxes[i], page).size() == extent(part));
        if best != i {
            assert(on_page(boxes[best], page, cut(boxes[best], page)));
            assert(cut(boxes[best], page).size() == extent(cut(boxes[best], page)));
        }
        assert forall|j: int| !#[trigger] rivals(boxes, layout, page, i, j) by {
            if rivals(boxes, layout, page, i, j) {
                lemma_container(boxes[j], layout, page);
                assert(on_page(boxes[j], page, cut(boxes[j], page)));
                assert(cut(boxes[j], page).size() == extent(cut(boxes[j], page)));
            }
        }
    }
}

/// Whether an image belongs to a picture: it covers eighty-five hundredths of the picture or lies
/// to a half in it, and does not fill the page unless the picture does.
pub open spec fn belongs_to(bounds: Bbox, layout: Bbox, page: Bbox) -> bool {
    let wide = page.right - page.left;
    let high = page.bottom - page.top;
    &&& 10 * (layout.right - layout.left) >= 9 * wide && 10 * (layout.bottom - layout.top) >= 9
        * high || 10 * (bounds.right - bounds.left) <= 9 * wide || 10 * (bounds.bottom - bounds.top)
        <= 9 * high
    &&& extent(layout) > 0 && 100 * common_area(layout, bounds) >= 85 * extent(layout) || extent(
        bounds,
    ) > 0 && 2 * common_area(layout, bounds) >= extent(bounds)
}

proof fn lemma_part(bounds: Bbox, layout: Bbox, page: Bbox)
    ensures
        is_part(bounds, layout, page) <==> belongs_to(bounds, layout, page),
{
    assert(layout.shared_area(bounds) == common_area(layout, bounds)) by (nonlinear_arith)
        requires
            layout.shared_area(bounds) == vstd::math::max(layout.overlap_x(bounds), 0)
                * vstd::math::max(layout.overlap_y(bounds), 0),
    {
    }
    assert(bounds.size() == extent(bounds));
    assert(layout.size() == extent(layout));
}

proof fn lemma_parts(images: Seq<EmbeddedImage>, layout: Bbox, page: Bbox, n: int)
    requires
        0 <= n <= images.len() <= usize::MAX,
    ensures
        parts_upto(images, layout, page, n).len() <= n,
        forall|p: int|
            0 <= p < parts_upto(images, layout, page, n).len() ==> 0 <= (#[trigger] parts_upto(
                images,
                layout,
                page,
                n,
            )[p]) < n && is_part(
                images[parts_upto(images, layout, page, n)[p] as int].bounds,
                layout,
                page,
            ),
        forall|p: int, q: int|
            0 <= p < q < parts_upto(images, layout, page, n).len() ==> (#[trigger] parts_upto(
                images,
                layout,
                page,
                n,
            )[p]) < (#[trigger] parts_upto(images, layout, page, n)[q]),
        forall|i: int|
            0 <= i < n && is_part((#[trigger] images[i]).bounds, layout, page) ==> exists|p: int|
                0 <= p < parts_upto(images, layout, page, n).len() && #[trigger] parts_upto(
                    images,
                    layout,
                    page,
                    n,
                )[p] == i,
    decreases n,
{
    if n > 0 {
        lemma_parts(images, layout, page, n - 1);
        let before = parts_upto(images, layout, page, n - 1);
        let after = parts_upto(images, layout, page, n);
        assert forall|i: int|
            0 <= i < n && is_part(
                (#[trigger] images[i]).bounds,
                layout,
                page,
            ) implies exists|p: int| 0 <= p < after.len() && #[trigger] after[p] == i by {
            if i < n - 1 {
                let p = choose|p: int| 0 <= p < before.len() && #[trigger] before[p] == i;
                assert(after[p] == i);
            } else {
                assert(after[before.len() as int] == i);
            }
        }
    }
}

/// A picture to which two images belong is matched to none, and neither of the two is matched to
/// any layout.
pub proof fn pictures_of_several_images_take_none(
    images: Seq<EmbeddedImage>,
    detections: Seq<LayoutDetection>,
    page: Bbox,
    d: int,
    i: int,
    j: int,
    e: int,
)
    requires
        images.len() <= u32::MAX,
        0 <= d < detections.len(),
        0 <= e < detections.len(),
        0 <= i < images.len(),
        0 <= j < images.len(),
        i != j,
        detections[d].label is Image,
        belongs_to(images[i].bounds, detections[d].bbox, page),
        belongs_to(images[j].bounds, detections[d].bbox, page),
    ensures
        match_of(images, detections, page, d) is None,
        match_of(images, detections, page, e) matches Some(m) ==> m.image_index != i
            && m.image_index != j,
{
    let layout = detections[d].bbox;
    let parts = parts_of(images, layout, page);
    lemma_part(images[i].bounds, layout, page);
    lemma_part(images[j].bounds, layout, page);
    lemma_parts(images, layout, page, images.len() as int);
    let p = choose|p: int| 0 <= p < parts.len() && #[trigger] parts[p] == i;
    let q = choose|q: int| 0 <= q < parts.len() && #[trigger] parts[q] == j;
    assert(p != q);
    assert(crate::figure::catalog::is_composite(images, detections[d], page));
    assert(parts.contains(i as usize)) by {
        assert(parts[p] == i as usize);
    }
    assert(parts.contains(j as usize)) by {
        assert(parts[q] == j as usize);
    }
}

/// A layout that shares no picture with other images is matched to its clearly smallest image.
pub proof fn single_images_are_matched(
    images: Seq<EmbeddedImage>,
    detections: Seq<LayoutDetection>,
    page: Bbox,
    d: int,
)
    requires
        images.len() <= u32::MAX,
        0 <= d < detections.len(),
        forall|e: int|
            0 <= e < detections.len() ==> !((#[trigger] detections[e]).label is Image) || forall|
                i: int,
                j: int,
            |
                0 <= i < j < images.len() ==> !(belongs_to(
                    (#[trigger] images[i]).bounds,
                    detections[e].bbox,
                    page,
                ) && belongs_to((#[trigger] images[j]).bounds, detections[e].bbox, page)),
    ensures
        match_of(images, detections, page, d) == container_of(
            bounds_of(images),
            detections[d].bbox,
            page,
        ),
{
    assert forall|e: int| 0 <= e < detections.len() implies !crate::figure::catalog::is_composite(
        images,
        #[trigger] detections[e],
        page,
    ) by {
        let layout = detections[e].bbox;
        let parts = parts_of(images, layout, page);
        lemma_parts(images, layout, page, images.len() as int);
        if detections[e].label is Image && parts.len() > 1 {
            let (a, b) = (parts[0] as int, parts[1] as int);
            lemma_part(images[a].bounds, layout, page);
            lemma_part(images[b].bounds, layout, page);
            assert(0 <= a < b < images.len());
        }
    }
}

/// Where each row of the model occurs once, a row has a match exactly where its detection has
/// one, and the same.
pub proof fn matches_are_kept_by_row(
    images: Seq<EmbeddedImage>,
    detections: Seq<LayoutDetection>,
    page: Bbox,
    n: int,
)
    requires
        0 <= n <= detections.len(),
        forall|a: int, b: int|
            0 <= a < b < detections.len() ==> (#[trigger] detections[a]).source_detection_index != (
            #[trigger] detections[b]).source_detection_index,
    ensures
        forall|d: int|
            0 <= d < n ==> ({
                let row = (#[trigger] detections[d]).source_detection_index;
                let all = matches_upto(images, detections, page, n);
                match match_of(images, detections, page, d) {
                    None => !all.contains_key(row),
                    Some(m) => all.contains_key(row) && all[row] == m,
                }
            }),
        forall|row: u32|
            matches_upto(images, detections, page, n).contains_key(row) ==> exists|d: int|
                0 <= d < n && (#[trigger] detections[d]).source_detection_index == row,
    decreases n,
{
    if n > 0 {
        matches_are_kept_by_row(images, detections, page, n - 1);
        let before = matches_upto(images, detections, page, n - 1);
        assert(!before.contains_key(detections[n - 1].source_detection_index));
    }
}

/// The least box around two.
pub open spec fn around(a: Bbox, b: Bbox, joined: Bbox) -> bool {
    &&& joined.left <= a.left && joined.left <= b.left && (joined.left == a.left || joined.left
        == b.left)
    &&& joined.top <= a.top && joined.top <= b.top && (joined.top == a.top || joined.top == b.top)
    &&& joined.right >= a.right && joined.right >= b.right && (joined.right == a.right
        || joined.right == b.right)
    &&& joined.bottom >= a.bottom && joined.bottom >= b.bottom && (joined.bottom == a.bottom
        || joined.bottom == b.bottom)
}

/// Whether one of two boxes lies in the other.
pub open spec fn one_in_other(a: Bbox, b: Bbox) -> bool {
    a.left <= b.left && a.top <= b.top && a.right >= b.right && a.bottom >= b.bottom || b.left
        <= a.left && b.top <= a.top && b.right >= a.right && b.bottom >= a.bottom
}

/// A block grows to the box around itself and its image where that moves a side by more than
/// half a point and nests with no other block; else it keeps its box. Either way its text and its
/// place in the order stay.
pub proof fn blocks_grow_to_their_images(blocks: Seq<Block>, i: int, block: Block, joined: Bbox)
    requires
        0 <= i < blocks.len(),
        is_placed(blocks, i, block),
        blocks[i].figure_bounds is Some ==> around(
            blocks[i].figure_bounds->0,
            blocks[i].bbox,
            joined,
        ),
    ensures
        block.figure_bounds is None,
        block.id == blocks[i].id,
        block.text == blocks[i].text,
        block.final_order == blocks[i].final_order,
        block.label == blocks[i].label,
        blocks[i].figure_bounds is None ==> block.bbox == blocks[i].bbox,
        blocks[i].figure_bounds is Some && blocks[i].bbox.left < blocks[i].bbox.right
            && blocks[i].bbox.top < blocks[i].bbox.bottom ==> {
            let own = blocks[i].bbox;
            if (own.left - joined.left > 5_000 || own.top - joined.top > 5_000 || joined.right
                - own.right > 5_000 || joined.bottom - own.bottom > 5_000) && (forall|k: int|
                0 <= k < blocks.len() && k != i ==> !one_in_other(
                    joined,
                    (#[trigger] blocks[k]).bbox,
                )) {
                block.bbox == joined
            } else {
                block.bbox == own
            }
        },
{
    if let Some(bounds) = blocks[i].figure_bounds {
        let own = blocks[i].bbox;
        let candidate = bounds.join(own);
        assert(candidate == joined);
        assert forall|k: int| 0 <= k < blocks.len() implies one_in_other(
            joined,
            (#[trigger] blocks[k]).bbox,
        ) == (candidate.holds(blocks[k].bbox) || blocks[k].bbox.holds(candidate)) by {}
    }
}

} // verus!
