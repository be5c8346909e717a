//! Geometry-first line assembly without speculative merges across columns.

use vstd::math::{abs, max, min};
use vstd::prelude::*;

use super::axes::{
    across, is_level, is_parallel, level, oblique, parallel, Frame, TextAxes, TWO_UNITS,
};
use super::bidi::{canonical_rotation, snapped, ItemOrder};
use super::fragment::{
    fragment_fault, fragment_of, models, ordered_fragment, sort_fragments, FragmentModel,
    FragmentOrder, LineFragment,
};
use super::metrics::{line_fault, LineMetrics};
use super::scripts::{scripts_fault, with_scripts};
use crate::chars::{str_before, text_before, text_order_is_strict_weak};
use crate::config::FusionConfig;
use crate::error::LineError;
use crate::geometry::{distance, Baseline, Bbox, GeometryError, Point, POINT};
use crate::sorting::{sort, sorted, Order, Sorter};
use crate::types::{copy_items, TextItem, WritingDirection};

verus! {

/// Largest inline gap within one fragment: fifteen points.
pub const MAX_HORIZONTAL_GAP: i64 = 150_000;

/// Largest line height taken at face value: twenty-four points.
pub const CROSS_AXIS_SIZE_CAP: i64 = 240_000;

/// One run with a box aligned to its orientation group's reference direction.
#[derive(Debug)]
pub struct AlignedItem {
    pub item: TextItem,
    pub bbox: Frame,
    pub vertical: bool,
}

/// What nested lists stand for.
pub open spec fn nested<T>(lists: Seq<Vec<T>>) -> Seq<Seq<T>> {
    Seq::new(lists.len(), |i: int| lists[i]@)
}

/// A value kept between one and twenty-four points.
pub open spec fn capped(n: int) -> int {
    if n < POINT {
        POINT as int
    } else if n > CROSS_AXIS_SIZE_CAP {
        CROSS_AXIS_SIZE_CAP as int
    } else {
        n
    }
}

/// A value kept between one and twenty-four points.
fn cap(n: i128) -> (m: i128)
    ensures
        m == capped(n as int),
        10_000 <= m <= 240_000,
{
    if n < POINT as i128 {
        POINT as i128
    } else if n > CROSS_AXIS_SIZE_CAP as i128 {
        CROSS_AXIS_SIZE_CAP as i128
    } else {
        n
    }
}

/// Whether a run at this angle is read down or up the page.
pub open spec fn stands(angle: int) -> bool {
    snapped(angle) == 90 || snapped(angle) == 270
}

/// The displayed height of a run across its line, where the style states one.
pub open spec fn styled_height(item: TextItem) -> Option<i32> {
    match item.style {
        None => None,
        Some(style) => match style.font_height {
            Some(h) => Some(h),
            None => style.font_size,
        },
    }
}

/// The inline extent of a stated baseline, if it has one.
pub open spec fn baseline_flow(item: TextItem, axes: TextAxes) -> Option<(int, int)> {
    match item.baseline {
        None => None,
        Some(line) => {
            let start = axes.inline_of(line.start);
            let end = axes.inline_of(line.end);
            if start == end {
                None
            } else {
                Some((min(start, end), max(start, end)))
            }
        },
    }
}

/// Where a slanted run sits across its line.
pub open spec fn cross_anchor(item: TextItem, axes: TextAxes) -> int {
    match item.baseline {
        Some(line) => axes.cross_of(line.start),
        None => across(axes.rotation, item.bbox.mid_x2(), item.bbox.mid_y2()) / (TWO_UNITS as int),
    }
}

/// The aligned box of a slanted run: its baseline and font height, where they
/// are stated, describe the line without the inflation of its page box.
pub open spec fn slanted_frame(item: TextItem, axes: TextAxes) -> Result<Frame, GeometryError> {
    let (left, top, right, bottom) = axes.frame_of(item.bbox);
    if right <= left {
        Err(GeometryError::EmptyWidth)
    } else if bottom <= top {
        Err(GeometryError::EmptyHeight)
    } else {
        let y = cross_anchor(item, axes);
        let high = match styled_height(item) {
            Some(h) => if h > 0 {
                h as int
            } else {
                bottom - top
            },
            None => bottom - top,
        };
        let (from, to) = match baseline_flow(item, axes) {
            Some(flow) => flow,
            None => (left, right),
        };
        Ok(
            Frame {
                left: from as i64,
                top: y as i64,
                right: to as i64,
                bottom: (y + high) as i64,
            },
        )
    }
}

/// The aligned box of a run within its orientation group.
pub open spec fn frame_within(item: TextItem, axes: TextAxes) -> Result<Frame, GeometryError> {
    let b = item.bbox;
    if oblique(axes.rotation.angle as int) {
        slanted_frame(item, axes)
    } else if stands(item.rotation.angle as int) {
        if b.bottom <= b.top {
            Err(GeometryError::EmptyWidth)
        } else if b.right <= b.left {
            Err(GeometryError::EmptyHeight)
        } else {
            Ok(
                Frame {
                    left: b.top as i64,
                    top: b.left as i64,
                    right: b.bottom as i64,
                    bottom: b.right as i64,
                },
            )
        }
    } else {
        Ok(
            Frame {
                left: b.left as i64,
                top: b.top as i64,
                right: b.right as i64,
                bottom: b.bottom as i64,
            },
        )
    }
}

/// A run aligned to its orientation group.
pub open spec fn aligned(item: TextItem, axes: TextAxes) -> Result<AlignedItem, GeometryError> {
    match frame_within(item, axes) {
        Ok(bbox) => Ok(AlignedItem { item, bbox, vertical: stands(item.rotation.angle as int) }),
        Err(e) => Err(e),
    }
}

impl AlignedItem {
    /// Aligns a run, keeping its page geometry.
    pub fn align(item: &TextItem, axes: TextAxes) -> (made: Result<AlignedItem, GeometryError>)
        ensures
            made == aligned(*item, axes),
    {
        let degrees: i32 = canonical_rotation(item.rotation.angle);
        let vertical: bool = degrees == 90 || degrees == 270;
        let b: Bbox = item.bbox;
        let bbox: Frame = if axes.is_oblique() {
            let projected: Frame = match axes.project_bbox(b) {
                Ok(frame) => frame,
                Err(e) => {
                    return Err(e);
                },
            };
            let y: i64 = match item.baseline {
                Some(line) => axes.project(line.start).1,
                None => axes.project_doubled(b.center_x2(), b.center_y2()).1,
            };
            let stated: Option<i32> = match &item.style {
                None => None,
                Some(style) => match style.font_height {
                    Some(h) => Some(h),
                    None => style.font_size,
                },
            };
            let high: i64 = match stated {
                Some(h) => if h > 0 {
                    h as i64
                } else {
                    projected.bottom - projected.top
                },
                None => projected.bottom - projected.top,
            };
            let (left, right): (i64, i64) = match item.baseline {
                None => (projected.left, projected.right),
                Some(line) => {
                    let start: i64 = axes.project(line.start).0;
                    let end: i64 = axes.project(line.end).0;
                    if start < end {
                        (start, end)
                    } else if end < start {
                        (end, start)
                    } else {
                        (projected.left, projected.right)
                    }
                },
            };
            Frame { left, top: y, right, bottom: y + high }
        } else if vertical {
            if b.bottom <= b.top {
                return Err(GeometryError::EmptyWidth);
            }
            if b.right <= b.left {
                return Err(GeometryError::EmptyHeight);
            }
            Frame {
                left: b.top as i64,
                top: b.left as i64,
                right: b.bottom as i64,
                bottom: b.right as i64,
            }
        } else {
            Frame {
                left: b.left as i64,
                top: b.top as i64,
                right: b.right as i64,
                bottom: b.bottom as i64,
            }
        };
        Ok(AlignedItem { item: item.copy(), bbox, vertical })
    }

    /// An equal value.
    pub fn copy(&self) -> (copy: AlignedItem)
        ensures
            copy == *self,
    {
        AlignedItem { item: self.item.copy(), bbox: self.bbox, vertical: self.vertical }
    }
}

/// The ways in which aligned runs are put in order; ties go by identity.
#[derive(Debug, Clone, Copy, PartialEq, Eq, Structural)]
pub enum AlignedOrder {
    /// Across lines, then along them.
    Across,
    /// Along the line.
    Along,
}

impl Order<AlignedItem> for AlignedOrder {
    open spec fn lt(&self, a: AlignedItem, b: AlignedItem) -> bool {
        let ka = if self == AlignedOrder::Across {
            a.bbox.top
        } else {
            0
        };
        let kb = if self == AlignedOrder::Across {
            b.bbox.top
        } else {
            0
        };
        ka < kb || (ka == kb && (a.bbox.left < b.bbox.left || (a.bbox.left == b.bbox.left
            && text_before(a.item.id@, b.item.id@))))
    }

    proof fn is_strict_weak(&self, a: AlignedItem, b: AlignedItem, c: AlignedItem) {
        text_order_is_strict_weak(a.item.id@, b.item.id@, c.item.id@);
    }
}

impl Sorter<AlignedItem> for AlignedOrder {
    fn precedes(&self, a: &AlignedItem, b: &AlignedItem) -> (yes: bool) {
        let ka: i64 = if *self == AlignedOrder::Across {
            a.bbox.top
        } else {
            0
        };
        let kb: i64 = if *self == AlignedOrder::Across {
            b.bbox.top
        } else {
            0
        };
        ka < kb || (ka == kb && (a.bbox.left < b.bbox.left || (a.bbox.left == b.bbox.left
            && str_before(a.item.id.as_str(), b.item.id.as_str()))))
    }
}

/// Right edge of the rightmost of the first `n` runs, at least zero.
pub open spec fn right_edge(items: Seq<TextItem>, n: int) -> int
    decreases n,
{
    if n <= 0 {
        0
    } else {
        max(right_edge(items, n - 1), items[n - 1].bbox.right as int)
    }
}

/// Width of the page as far as its runs show, at least one point.
pub open spec fn seen_width(items: Seq<TextItem>) -> int {
    max(right_edge(items, items.len() as int), POINT as int)
}

/// Whether a run belongs to the orientation group that `first` opened.
pub open spec fn same_orientation(first: TextItem, item: TextItem) -> bool {
    parallel(item.rotation.angle as int, first.rotation.angle as int) && oblique(
        item.rotation.angle as int,
    ) == oblique(first.rotation.angle as int)
}

/// The first `n` runs in orientation groups.
pub open spec fn orientations(items: Seq<TextItem>, n: int) -> Seq<Seq<TextItem>>
    decreases n,
{
    if n <= 0 {
        Seq::empty()
    } else {
        let groups = orientations(items, n - 1);
        let item = items[n - 1];
        if groups.len() > 0 && same_orientation(groups.last()[0], item) {
            groups.update(groups.len() - 1, groups.last().push(item))
        } else {
            groups.push(seq![item])
        }
    }
}

/// The first `n` runs of a group, aligned.
pub open spec fn aligned_upto(items: Seq<TextItem>, n: int, axes: TextAxes) -> Result<
    Seq<AlignedItem>,
    GeometryError,
>
    decreases n,
{
    if n <= 0 {
        Ok(Seq::empty())
    } else {
        match aligned_upto(items, n - 1, axes) {
            Err(e) => Err(e),
            Ok(before) => match aligned(items[n - 1], axes) {
                Err(e) => Err(e),
                Ok(item) => Ok(before.push(item)),
            },
        }
    }
}

/// The font size of a run, or its height where no positive size is stated.
pub open spec fn body_size(a: AlignedItem) -> int {
    match a.item.size() {
        Some(size) => if size > 0 {
            size as int
        } else {
            a.bbox.high()
        },
        None => a.bbox.high(),
    }
}

/// The height on which a run rests.
pub open spec fn body_line(a: AlignedItem) -> int {
    match a.item.baseline {
        Some(line) => line.start.y as int,
        None => a.bbox.bottom as int,
    }
}

/// Whether two runs of upright text rest on one line in one size.
pub open spec fn same_body(a: AlignedItem, b: AlignedItem, tolerance: int) -> bool {
    abs(body_size(a) - body_size(b)) <= tolerance && 5 * abs(body_line(a) - body_line(b)) <= capped(
        min(body_size(a), body_size(b)),
    )
}

/// First band, from `i` on, whose first run shares the body of `item`.
pub open spec fn body_band(bands: Seq<Seq<AlignedItem>>, i: int, item: AlignedItem, tolerance: int) -> Option<
    int,
>
    decreases bands.len() - i,
{
    if i >= bands.len() || i < 0 {
        None
    } else if same_body(item, bands[i][0], tolerance) {
        Some(i)
    } else {
        body_band(bands, i + 1, item, tolerance)
    }
}

/// Smallest top edge of the first `n` runs of a band; `n` is at least one.
pub open spec fn band_top(band: Seq<AlignedItem>, n: int) -> int
    decreases n,
{
    if n <= 1 {
        band[0].bbox.top as int
    } else {
        min(band_top(band, n - 1), band[n - 1].bbox.top as int)
    }
}

/// Largest capped height of the first `n` runs of a band, at least one point.
pub open spec fn band_size(band: Seq<AlignedItem>, n: int) -> int
    decreases n,
{
    if n <= 0 {
        POINT as int
    } else {
        max(band_size(band, n - 1), capped(band[n - 1].bbox.high()))
    }
}

/// Whether a standing or slanted run shares the band.
pub open spec fn same_band(band: Seq<AlignedItem>, item: AlignedItem) -> bool {
    let first = band[0];
    let size = band_size(band, band.len() as int);
    let raw = item.bbox.high();
    let inflated = !item.vertical && raw > CROSS_AXIS_SIZE_CAP && raw > 2 * size;
    &&& item.vertical == first.vertical
    &&& parallel(item.item.rotation.angle as int, first.item.rotation.angle as int)
    &&& 10 * abs(item.bbox.top - band_top(band, band.len() as int)) < min(size, capped(raw)) * if inflated {
        3int
    } else {
        5
    }
}

/// The first `n` aligned runs in bands across their lines.
pub open spec fn bands_upto(items: Seq<AlignedItem>, n: int, slanted: bool, tolerance: int) -> Seq<
    Seq<AlignedItem>,
>
    decreases n,
{
    if n <= 0 {
        Seq::empty()
    } else {
        let bands = bands_upto(items, n - 1, slanted, tolerance);
        let item = items[n - 1];
        let home = if !item.vertical && !slanted {
            body_band(bands, 0, item, tolerance)
        } else if bands.len() > 0 && same_band(bands.last(), item) {
            Some(bands.len() - 1)
        } else {
            None
        };
        match home {
            Some(i) => bands.update(i, bands[i].push(item)),
            None => bands.push(seq![item]),
        }
    }
}

/// The size by which a run's neighbours are judged.
pub open spec fn flow_size(a: AlignedItem) -> int {
    let stated = if oblique(a.item.rotation.angle as int) {
        styled_height(a.item)
    } else {
        a.item.size()
    };
    match stated {
        Some(size) => size as int,
        None => a.bbox.high(),
    }
}

/// Overlap, font and gap policies for two runs that follow each other.
pub open spec fn compatible(left: AlignedItem, right: AlignedItem, tolerance: int) -> bool {
    let overlap = max(
        min(left.bbox.bottom as int, right.bbox.bottom as int) - max(
            left.bbox.top as int,
            right.bbox.top as int,
        ),
        0,
    );
    let room = max(min(left.bbox.high(), right.bbox.high()), POINT as int);
    let gap = right.bbox.left - left.bbox.right;
    &&& parallel(left.item.rotation.angle as int, right.item.rotation.angle as int)
    &&& 2 * overlap >= room
    &&& left.vertical || (abs(flow_size(left) - flow_size(right)) <= tolerance && -flow_size(left)
        <= gap <= MAX_HORIZONTAL_GAP)
}

/// Largest inline extent of the first `n` runs of a band, at least zero.
pub open spec fn band_reach(band: Seq<AlignedItem>, n: int) -> int
    decreases n,
{
    if n <= 0 {
        0
    } else {
        max(band_reach(band, n - 1), band[n - 1].bbox.wide())
    }
}

/// Whether a run follows `previous` in one fragment.
pub open spec fn follows(
    previous: AlignedItem,
    item: AlignedItem,
    vertical: bool,
    reach: int,
    tolerance: int,
) -> bool {
    (!vertical || item.bbox.left - previous.bbox.right <= 3 * reach) && compatible(
        previous,
        item,
        tolerance,
    )
}

/// The first `n` runs of an ordered band in fragments along the line.
pub open spec fn flow_upto(
    band: Seq<AlignedItem>,
    n: int,
    vertical: bool,
    reach: int,
    tolerance: int,
) -> Seq<Seq<AlignedItem>>
    decreases n,
{
    if n <= 0 {
        Seq::empty()
    } else {
        let groups = flow_upto(band, n - 1, vertical, reach, tolerance);
        let item = band[n - 1];
        if groups.len() > 0 && follows(groups.last().last(), item, vertical, reach, tolerance) {
            groups.update(groups.len() - 1, groups.last().push(item))
        } else {
            groups.push(seq![item])
        }
    }
}

/// The fragments of one band.
pub open spec fn band_groups(band: Seq<AlignedItem>, tolerance: int) -> Seq<Seq<AlignedItem>> {
    let ordered = sorted(band, AlignedOrder::Along);
    flow_upto(
        ordered,
        ordered.len() as int,
        band[0].vertical,
        band_reach(band, band.len() as int),
        tolerance,
    )
}

/// The fragments of the first `n` bands.
pub open spec fn bands_groups(bands: Seq<Seq<AlignedItem>>, n: int, tolerance: int) -> Seq<
    Seq<AlignedItem>,
>
    decreases n,
{
    if n <= 0 {
        Seq::empty()
    } else {
        bands_groups(bands, n - 1, tolerance) + band_groups(bands[n - 1], tolerance)
    }
}

/// The fragments of one orientation group.
pub open spec fn orientation_groups(group: Seq<TextItem>, tolerance: int) -> Result<
    Seq<Seq<AlignedItem>>,
    GeometryError,
> {
    let axes = TextAxes { rotation: group[0].rotation };
    match aligned_upto(group, group.len() as int, axes) {
        Err(e) => Err(e),
        Ok(items) => {
            let ordered = sorted(items, AlignedOrder::Across);
            let bands = bands_upto(
                ordered,
                ordered.len() as int,
                oblique(group[0].rotation.angle as int),
                tolerance,
            );
            Ok(bands_groups(bands, bands.len() as int, tolerance))
        },
    }
}

/// The fragments of the first `n` orientation groups.
pub open spec fn groups_upto(groups: Seq<Seq<TextItem>>, n: int, tolerance: int) -> Result<
    Seq<Seq<AlignedItem>>,
    GeometryError,
>
    decreases n,
{
    if n <= 0 {
        Ok(Seq::empty())
    } else {
        match groups_upto(groups, n - 1, tolerance) {
            Err(e) => Err(e),
            Ok(before) => match orientation_groups(groups[n - 1], tolerance) {
                Err(e) => Err(e),
                Ok(here) => Ok(before + here),
            },
        }
    }
}

/// The runs behind aligned runs.
pub open spec fn plain(group: Seq<AlignedItem>) -> Seq<TextItem> {
    Seq::new(group.len(), |i: int| group[i].item)
}

/// Every group as a fragment.
pub open spec fn as_fragments(groups: Seq<Seq<AlignedItem>>, page_width: int) -> Seq<FragmentModel> {
    Seq::new(groups.len(), |i: int| fragment_of(plain(groups[i]), page_width))
}

/// Why the first `n` groups make no fragments, if they make none.
pub open spec fn groups_fault(groups: Seq<Seq<AlignedItem>>, n: int) -> Option<LineError>
    decreases n,
{
    if n <= 0 {
        None
    } else {
        match groups_fault(groups, n - 1) {
            Some(e) => Some(e),
            None => fragment_fault(plain(groups[n - 1])),
        }
    }
}

/// Whether every list has an element.
spec fn all_filled<T>(lists: Seq<Seq<T>>) -> bool {
    forall|i: int| 0 <= i < lists.len() ==> (#[trigger] lists[i]).len() > 0
}

/// Adds a value to one of several lists.
fn push_into<T>(lists: &mut Vec<Vec<T>>, at: usize, value: T)
    requires
        at < old(lists)@.len(),
    ensures
        nested(final(lists)@) == nested(old(lists)@).update(
            at as int,
            nested(old(lists)@)[at as int].push(value),
        ),
{
    let ghost before = nested(lists@);
    lists[at].push(value);
    assert(nested(lists@) =~= before.update(at as int, before[at as int].push(value)));
}

/// Adds a list with one value.
fn push_new<T>(lists: &mut Vec<Vec<T>>, value: T)
    ensures
        nested(final(lists)@) == nested(old(lists)@).push(seq![value]),
{
    let ghost before = nested(lists@);
    let mut list: Vec<T> = Vec::new();
    list.push(value);
    assert(list@ =~= seq![value]);
    lists.push(list);
    assert(nested(lists@) =~= before.push(seq![value]));
}

/// Puts runs, ordered by angle, into orientation groups.
fn group_orientations(items: &Vec<TextItem>) -> (groups: Vec<Vec<TextItem>>)
    ensures
        nested(groups@) == orientations(items@, items@.len() as int),
        all_filled(nested(groups@)),
{
    let mut groups: Vec<Vec<TextItem>> = Vec::new();
    let mut n: usize = 0;
    assert(nested(groups@) =~= Seq::empty());
    while n < items.len()
        invariant
            n <= items@.len(),
            nested(groups@) == orientations(items@, n as int),
            all_filled(nested(groups@)),
        decreases items@.len() - n,
    {
        let item: &TextItem = &items[n];
        let count: usize = groups.len();
        let ghost before = nested(groups@);
        let same: bool = if count > 0 {
            assert(before[count - 1].len() > 0);
            let first: &TextItem = &groups[count - 1][0];
            is_parallel(item.rotation.angle, first.rotation.angle) && TextAxes::from(
                item.rotation,
            ).is_oblique() == TextAxes::from(first.rotation).is_oblique()
        } else {
            false
        };
        if same {
            push_into(&mut groups, count - 1, item.copy());
        } else {
            push_new(&mut groups, item.copy());
        }
        n = n + 1;
    }
    groups
}

/// Aligns the runs of one orientation group.
fn align_all(items: &Vec<TextItem>, axes: TextAxes) -> (made: Result<
    Vec<AlignedItem>,
    GeometryError,
>)
    ensures
        match made {
            Ok(list) => aligned_upto(items@, items@.len() as int, axes) == Ok::<
                Seq<AlignedItem>,
                GeometryError,
            >(list@),
            Err(e) => aligned_upto(items@, items@.len() as int, axes) == Err::<
                Seq<AlignedItem>,
                GeometryError,
            >(e),
        },
{
    let mut list: Vec<AlignedItem> = Vec::new();
    let mut n: usize = 0;
    while n < items.len()
        invariant
            n <= items@.len(),
            aligned_upto(items@, n as int, axes) == Ok::<Seq<AlignedItem>, GeometryError>(list@),
        decreases items@.len() - n,
    {
        match AlignedItem::align(&items[n], axes) {
            Ok(item) => {
                list.push(item);
            },
            Err(e) => {
                proof {
                    lemma_aligned_stops(items@, n + 1, items@.len() as int, axes);
                }
                return Err(e);
            },
        }
        n = n + 1;
    }
    Ok(list)
}

/// A run that cannot be aligned ends the alignment.
proof fn lemma_aligned_stops(items: Seq<TextItem>, part: int, n: int, axes: TextAxes)
    requires
        part <= n,
        aligned_upto(items, part, axes) is Err,
    ensures
        aligned_upto(items, n, axes) == aligned_upto(items, part, axes),
    decreases n - part,
{
    if part < n {
        lemma_aligned_stops(items, part, n - 1, axes);
    }
}

/// The font size of a run, or its height where no positive size is stated.
fn measure_body(a: &AlignedItem) -> (size: i128)
    ensures
        size == body_size(*a),
        -0x1_0000_0000_0000_0000 <= size <= 0x1_0000_0000_0000_0000,
{
    match a.item.font_size() {
        Some(size) => if size > 0 {
            size as i128
        } else {
            a.bbox.height()
        },
        None => a.bbox.height(),
    }
}

/// The height on which a run rests.
fn measure_line(a: &AlignedItem) -> (y: i64)
    ensures
        y == body_line(*a),
{
    match a.item.baseline {
        Some(line) => line.start.y as i64,
        None => a.bbox.bottom,
    }
}

/// Whether two runs of upright text rest on one line in one size.
fn shares_body(a: &AlignedItem, b: &AlignedItem, tolerance: i64) -> (yes: bool)
    ensures
        yes == same_body(*a, *b, tolerance as int),
{
    let sa: i128 = measure_body(a);
    let sb: i128 = measure_body(b);
    let difference: i128 = if sa >= sb {
        sa - sb
    } else {
        sb - sa
    };
    let smaller: i128 = if sa <= sb {
        sa
    } else {
        sb
    };
    difference <= tolerance as i128 && 5 * distance(measure_line(a), measure_line(b)) <= cap(
        smaller,
    )
}

/// First band whose first run shares the body of `item`.
fn find_body_band(bands: &Vec<Vec<AlignedItem>>, item: &AlignedItem, tolerance: i64) -> (found: Option<
    usize,
>)
    requires
        all_filled(nested(bands@)),
    ensures
        match found {
            None => body_band(nested(bands@), 0, *item, tolerance as int) is None,
            Some(i) => body_band(nested(bands@), 0, *item, tolerance as int) == Some(i as int) && i
                < bands@.len(),
        },
{
    let ghost all = nested(bands@);
    let mut i: usize = 0;
    while i < bands.len()
        invariant
            all == nested(bands@),
            all_filled(all),
            i <= bands@.len(),
            body_band(all, 0, *item, tolerance as int) == body_band(
                all,
                i as int,
                *item,
                tolerance as int,
            ),
        decreases bands@.len() - i,
    {
        assert(all[i as int].len() > 0);
        if shares_body(item, &bands[i][0], tolerance) {
            return Some(i);
        }
        i = i + 1;
    }
    None
}

/// Whether a standing or slanted run shares the band.
fn shares_band(band: &Vec<AlignedItem>, item: &AlignedItem) -> (yes: bool)
    requires
        band@.len() > 0,
    ensures
        yes == same_band(band@, *item),
{
    let first: &AlignedItem = &band[0];
    if item.vertical != first.vertical || !is_parallel(
        item.item.rotation.angle,
        first.item.rotation.angle,
    ) {
        return false;
    }
    let mut top: i64 = first.bbox.top;
    let mut size: i128 = POINT as i128;
    let mut n: usize = 0;
    while n < band.len()
        invariant
            band@.len() > 0,
            n <= band@.len(),
            top == band_top(band@, n as int),
            size == band_size(band@, n as int),
            10_000 <= size <= 240_000,
        decreases band@.len() - n,
    {
        if band[n].bbox.top < top {
            top = band[n].bbox.top;
        }
        let here: i128 = cap(band[n].bbox.height());
        if here > size {
            size = here;
        }
        n = n + 1;
    }
    let raw: i128 = item.bbox.height();
    let inflated: bool = !item.vertical && raw > CROSS_AXIS_SIZE_CAP as i128 && raw > 2 * size;
    let own: i128 = cap(raw);
    let smaller: i128 = if size <= own {
        size
    } else {
        own
    };
    let factor: i128 = if inflated {
        3
    } else {
        5
    };
    10 * distance(item.bbox.top, top) < smaller * factor
}

/// Puts aligned runs, ordered across their lines, into bands.
fn form_bands(items: &Vec<AlignedItem>, slanted: bool, tolerance: i64) -> (bands: Vec<
    Vec<AlignedItem>,
>)
    ensures
        nested(bands@) == bands_upto(items@, items@.len() as int, slanted, tolerance as int),
        all_filled(nested(bands@)),
{
    let mut bands: Vec<Vec<AlignedItem>> = Vec::new();
    let mut n: usize = 0;
    assert(nested(bands@) =~= Seq::empty());
    while n < items.len()
        invariant
            n <= items@.len(),
            nested(bands@) == bands_upto(items@, n as int, slanted, tolerance as int),
            all_filled(nested(bands@)),
        decreases items@.len() - n,
    {
        let item: &AlignedItem = &items[n];
        let count: usize = bands.len();
        let ghost before = nested(bands@);
        let home: Option<usize> = if !item.vertical && !slanted {
            find_body_band(&bands, item, tolerance)
        } else if count > 0 {
            assert(before[count - 1].len() > 0);
            if shares_band(&bands[count - 1], item) {
                Some(count - 1)
            } else {
                None
            }
        } else {
            None
        };
        match home {
            Some(i) => {
                push_into(&mut bands, i, item.copy());
            },
            None => {
                push_new(&mut bands, item.copy());
            },
        }
        n = n + 1;
    }
    bands
}

/// The size by which a run's neighbours are judged.
fn measure_flow(a: &AlignedItem) -> (size: i128)
    ensures
        size == flow_size(*a),
        -0x1_0000_0000_0000_0000 <= size <= 0x1_0000_0000_0000_0000,
{
    let stated: Option<i32> = if TextAxes::from(a.item.rotation).is_oblique() {
        match &a.item.style {
            None => None,
            Some(style) => match style.font_height {
                Some(h) => Some(h),
                None => style.font_size,
            },
        }
    } else {
        a.item.font_size()
    };
    match stated {
        Some(size) => size as i128,
        None => a.bbox.height(),
    }
}

/// Overlap, font and gap policies for two runs that follow each other.
pub fn are_compatible(left: &AlignedItem, right: &AlignedItem, tolerance: i64) -> (yes: bool)
    ensures
        yes == compatible(*left, *right, tolerance as int),
{
    if !is_parallel(left.item.rotation.angle, right.item.rotation.angle) {
        return false;
    }
    let low: i64 = if left.bbox.bottom <= right.bbox.bottom {
        left.bbox.bottom
    } else {
        right.bbox.bottom
    };
    let high: i64 = if left.bbox.top >= right.bbox.top {
        left.bbox.top
    } else {
        right.bbox.top
    };
    let shared: i128 = low as i128 - high as i128;
    let overlap: i128 = if shared > 0 {
        shared
    } else {
        0
    };
    let hl: i128 = left.bbox.height();
    let hr: i128 = right.bbox.height();
    let smaller: i128 = if hl <= hr {
        hl
    } else {
        hr
    };
    let room: i128 = if smaller >= POINT as i128 {
        smaller
    } else {
        POINT as i128
    };
    if 2 * overlap < room {
        return false;
    }
    if left.vertical {
        return true;
    }
    let sl: i128 = measure_flow(left);
    let sr: i128 = measure_flow(right);
    let difference: i128 = if sl >= sr {
        sl - sr
    } else {
        sr - sl
    };
    let gap: i128 = right.bbox.left as i128 - left.bbox.right as i128;
    difference <= tolerance as i128 && gap >= -sl && gap <= MAX_HORIZONTAL_GAP as i128
}

/// Splits one band into fragments along the line.
fn split_band(band: Vec<AlignedItem>, tolerance: i64) -> (groups: Vec<Vec<AlignedItem>>)
    requires
        band@.len() > 0,
    ensures
        nested(groups@) == band_groups(band@, tolerance as int),
        all_filled(nested(groups@)),
{
    let vertical: bool = band[0].vertical;
    let mut reach: i128 = 0;
    let mut n: usize = 0;
    while n < band.len()
        invariant
            n <= band@.len(),
            reach == band_reach(band@, n as int),
            0 <= reach <= 0x1_0000_0000_0000_0000,
        decreases band@.len() - n,
    {
        let here: i128 = band[n].bbox.width();
        if here > reach {
            reach = here;
        }
        n = n + 1;
    }
    let ordered: Vec<AlignedItem> = sort(band, &AlignedOrder::Along);
    let mut groups: Vec<Vec<AlignedItem>> = Vec::new();
    n = 0;
    assert(nested(groups@) =~= Seq::empty());
    while n < ordered.len()
        invariant
            n <= ordered@.len(),
            0 <= reach <= 0x1_0000_0000_0000_0000,
            nested(groups@) == flow_upto(
                ordered@,
                n as int,
                vertical,
                reach as int,
                tolerance as int,
            ),
            all_filled(nested(groups@)),
        decreases ordered@.len() - n,
    {
        let item: &AlignedItem = &ordered[n];
        let count: usize = groups.len();
        let ghost before = nested(groups@);
        let merge: bool = if count > 0 {
            assert(before[count - 1].len() > 0);
            let group: &Vec<AlignedItem> = &groups[count - 1];
            let previous: &AlignedItem = &group[group.len() - 1];
            (!vertical || item.bbox.left as i128 - previous.bbox.right as i128 <= 3 * reach)
                && are_compatible(previous, item, tolerance)
        } else {
            false
        };
        if merge {
            push_into(&mut groups, count - 1, item.copy());
        } else {
            push_new(&mut groups, item.copy());
        }
        n = n + 1;
    }
    groups
}

/// Appends lists to lists.
fn append_lists<T>(lists: &mut Vec<Vec<T>>, more: Vec<Vec<T>>)
    ensures
        nested(final(lists)@) == nested(old(lists)@) + nested(more@),
{
    let ghost a = nested(lists@);
    let ghost b = nested(more@);
    let mut tail: Vec<Vec<T>> = more;
    lists.append(&mut tail);
    assert(nested(lists@) =~= a + b);
}

/// The fragments of one orientation group.
fn group_orientation(group: &Vec<TextItem>, tolerance: i64) -> (made: Result<
    Vec<Vec<AlignedItem>>,
    GeometryError,
>)
    requires
        group@.len() > 0,
    ensures
        match made {
            Ok(groups) => orientation_groups(group@, tolerance as int) == Ok::<
                Seq<Seq<AlignedItem>>,
                GeometryError,
            >(nested(groups@)) && all_filled(nested(groups@)),
            Err(e) => orientation_groups(group@, tolerance as int) == Err::<
                Seq<Seq<AlignedItem>>,
                GeometryError,
            >(e),
        },
{
    let axes: TextAxes = TextAxes::from(group[0].rotation);
    let items: Vec<AlignedItem> = match align_all(group, axes) {
        Ok(items) => items,
        Err(e) => {
            return Err(e);
        },
    };
    let ordered: Vec<AlignedItem> = sort(items, &AlignedOrder::Across);
    let mut bands: Vec<Vec<AlignedItem>> = form_bands(&ordered, axes.is_oblique(), tolerance);
    let ghost all = nested(bands@);
    let mut groups: Vec<Vec<AlignedItem>> = Vec::new();
    let mut n: usize = 0;
    assert(nested(groups@) =~= Seq::empty());
    while n < bands.len()
        invariant
            all == nested(bands@),
            all_filled(all),
            n <= bands@.len(),
            nested(groups@) == bands_groups(all, n as int, tolerance as int),
            all_filled(nested(groups@)),
        decreases bands@.len() - n,
    {
        assert(all[n as int].len() > 0);
        let band: Vec<AlignedItem> = copy_aligned(&bands[n]);
        append_lists(&mut groups, split_band(band, tolerance));
        n = n + 1;
    }
    Ok(groups)
}

/// Equal aligned runs.
fn copy_aligned(items: &Vec<AlignedItem>) -> (copies: Vec<AlignedItem>)
    ensures
        copies@ == items@,
{
    let mut copies: Vec<AlignedItem> = Vec::new();
    let mut i: usize = 0;
    while i < items.len()
        invariant
            i <= items@.len(),
            copies@ == items@.take(i as int),
        decreases items@.len() - i,
    {
        copies.push(items[i].copy());
        i = i + 1;
        assert(copies@ =~= items@.take(i as int));
    }
    assert(items@.take(items@.len() as int) =~= items@);
    copies
}

/// Whether `right` continues the body line of `left` across an apparent gap.
pub open spec fn bridges(left: FragmentModel, right: FragmentModel, tolerance: int) -> bool {
    let size = min(left.metrics.font_size as int, right.metrics.font_size as int);
    let gap = max(left.bbox.left - right.bbox.right, right.bbox.left - left.bbox.right);
    &&& left.direction == right.direction
    &&& parallel(left.rotation.angle as int, right.rotation.angle as int)
    &&& abs(left.metrics.font_size - right.metrics.font_size) <= tolerance
    &&& 5 * abs(left.baseline.start.y - right.baseline.start.y) <= capped(size)
    &&& -size <= gap <= MAX_HORIZONTAL_GAP
}

/// First fragment, from `right` on, that continues `left`.
pub open spec fn bridge_from(fs: Seq<FragmentModel>, left: int, right: int, tolerance: int) -> Option<
    int,
>
    decreases fs.len() - right,
{
    if right >= fs.len() || right < 0 {
        None
    } else if bridges(fs[left], fs[right], tolerance) {
        Some(right)
    } else {
        bridge_from(fs, left, right + 1, tolerance)
    }
}

/// First two fragments of one body line, from `left` on.
pub open spec fn bridged_pair(fs: Seq<FragmentModel>, left: int, tolerance: int) -> Option<(int, int)>
    decreases fs.len() - left,
{
    if left >= fs.len() || left < 0 {
        None
    } else {
        let found = if level(fs[left].rotation.angle as int) && fs[left].direction
            != WritingDirection::Vertical {
            bridge_from(fs, left, left + 1, tolerance)
        } else {
            None
        };
        match found {
            Some(right) => Some((left, right)),
            None => bridged_pair(fs, left + 1, tolerance),
        }
    }
}

/// The runs of two fragments of one body line, read in order.
pub open spec fn bridged_runs(first: FragmentModel, other: FragmentModel) -> Seq<TextItem> {
    let leads = if first.direction == WritingDirection::RightToLeft {
        first.bbox.right >= other.bbox.right
    } else {
        first.bbox.left <= other.bbox.left
    };
    if leads {
        first.items + other.items
    } else {
        other.items + first.items
    }
}

/// Two fragments of one body line, read in order; the baseline height and the
/// font of the first one stay.
pub open spec fn bridged(first: FragmentModel, other: FragmentModel, page_width: int) -> FragmentModel {
    let items = bridged_runs(first, other);
    let rebuilt = ordered_fragment(items, page_width);
    let baseline = Baseline {
        start: Point { x: rebuilt.baseline.start.x, y: first.baseline.start.y },
        end: Point { x: rebuilt.baseline.end.x, y: first.baseline.end.y },
    };
    FragmentModel {
        baseline,
        metrics: LineMetrics {
            baseline,
            font_size: first.metrics.font_size,
            font_size_estimated: first.metrics.font_size_estimated,
            ..rebuilt.metrics
        },
        ..rebuilt
    }
}

/// The fragments after every body line was rejoined.
pub open spec fn rejoined(fs: Seq<FragmentModel>, tolerance: int, page_width: int) -> Seq<
    FragmentModel,
>
    decreases fs.len(),
{
    match bridged_pair(fs, 0, tolerance) {
        Some((left, right)) => if 0 <= left < right < fs.len() {
            rejoined(
                fs.remove(right).update(left, bridged(fs[left], fs[right], page_width)),
                tolerance,
                page_width,
            )
        } else {
            fs
        },
        None => fs,
    }
}

/// Why body lines cannot be rejoined, if they cannot.
pub open spec fn rejoined_fault(fs: Seq<FragmentModel>, tolerance: int, page_width: int) -> Option<
    LineError,
>
    decreases fs.len(),
{
    match bridged_pair(fs, 0, tolerance) {
        Some((left, right)) => if 0 <= left < right < fs.len() {
            match line_fault(bridged_runs(fs[left], fs[right])) {
                Some(e) => Some(e),
                None => rejoined_fault(
                    fs.remove(right).update(left, bridged(fs[left], fs[right], page_width)),
                    tolerance,
                    page_width,
                ),
            }
        } else {
            None
        },
        None => None,
    }
}

/// Why groups of runs make no lines, if they make none: runs without an extent would have to
/// begin a fragment.
pub open spec fn lines_fault(groups: Seq<Seq<AlignedItem>>, tolerance: int, page_width: int) -> Option<
    LineError,
> {
    match groups_fault(groups, groups.len() as int) {
        Some(e) => Some(e),
        None => {
            let fs = as_fragments(groups, page_width);
            match scripts_fault(fs, page_width) {
                Some(e) => Some(e),
                None => rejoined_fault(with_scripts(fs, page_width), tolerance, page_width),
            }
        },
    }
}

/// The conservative fragments of a page's runs, in page order.
#[verifier::opaque]
pub open spec fn assembled(items: Seq<TextItem>, config: FusionConfig) -> Result<
    Seq<FragmentModel>,
    LineError,
> {
    let page_width = seen_width(items);
    let tolerance = config.size_tolerance();
    match run_groups(sorted(items, ItemOrder::Angle), tolerance) {
        Err(e) => Err(LineError::Geometry(e)),
        Ok(groups) => match lines_fault(groups, tolerance, page_width) {
            Some(e) => Err(e),
            None => {
                let attached = with_scripts(as_fragments(groups, page_width), page_width);
                Ok(sorted(rejoined(attached, tolerance, page_width), FragmentOrder::Page))
            },
        },
    }
}

/// Whether `right` continues the body line of `left` across an apparent gap.
fn does_bridge(left: &LineFragment, right: &LineFragment, tolerance: i64) -> (yes: bool)
    ensures
        yes == bridges(left@, right@, tolerance as int),
{
    let sl: i64 = left.metrics.font_size as i64;
    let sr: i64 = right.metrics.font_size as i64;
    let size: i64 = if sl <= sr {
        sl
    } else {
        sr
    };
    let a: i64 = left.bbox.left as i64 - right.bbox.right as i64;
    let b: i64 = right.bbox.left as i64 - left.bbox.right as i64;
    let gap: i64 = if a >= b {
        a
    } else {
        b
    };
    left.direction == right.direction && is_parallel(left.rotation.angle, right.rotation.angle)
        && distance(sl, sr) <= tolerance as i128 && 5 * distance(
        left.baseline.start.y as i64,
        right.baseline.start.y as i64,
    ) <= cap(size as i128) && gap >= -size && gap <= MAX_HORIZONTAL_GAP
}

/// First two fragments of one body line.
fn find_bridge(fs: &Vec<LineFragment>, tolerance: i64) -> (found: Option<(usize, usize)>)
    ensures
        match found {
            None => bridged_pair(models(fs@), 0, tolerance as int) is None,
            Some((left, right)) => bridged_pair(models(fs@), 0, tolerance as int) == Some(
                (left as int, right as int),
            ) && left < right < fs@.len(),
        },
{
    let ghost all = models(fs@);
    let mut left: usize = 0;
    while left < fs.len()
        invariant
            all == models(fs@),
            left <= fs@.len(),
            bridged_pair(all, 0, tolerance as int) == bridged_pair(
                all,
                left as int,
                tolerance as int,
            ),
        decreases fs@.len() - left,
    {
        if is_level(fs[left].rotation.angle) && fs[left].direction != WritingDirection::Vertical {
            let mut right: usize = left + 1;
            while right < fs.len()
                invariant
                    all == models(fs@),
                    left < right <= fs@.len(),
                    level(all[left as int].rotation.angle as int),
                    all[left as int].direction != WritingDirection::Vertical,
                    bridged_pair(all, 0, tolerance as int) == bridged_pair(
                        all,
                        left as int,
                        tolerance as int,
                    ),
                    bridge_from(all, left as int, left + 1, tolerance as int) == bridge_from(
                        all,
                        left as int,
                        right as int,
                        tolerance as int,
                    ),
                decreases fs@.len() - right,
            {
                if does_bridge(&fs[left], &fs[right], tolerance) {
                    return Some((left, right));
                }
                right = right + 1;
            }
        }
        left = left + 1;
    }
    None
}

/// Rejoins one body line when attached scripts fill an apparent gap.
pub fn join_script_gaps(fragments: Vec<LineFragment>, page_width: i32, tolerance: i64) -> (made: Result<
    Vec<LineFragment>,
    LineError,
>)
    ensures
        ({
            let fs = models(fragments@);
            match made {
                Ok(result) => rejoined_fault(fs, tolerance as int, page_width as int) is None
                    && models(result@) == rejoined(fs, tolerance as int, page_width as int),
                Err(e) => rejoined_fault(fs, tolerance as int, page_width as int) == Some(e),
            }
        }),
{
    let ghost goal = rejoined(models(fragments@), tolerance as int, page_width as int);
    let ghost fault = rejoined_fault(models(fragments@), tolerance as int, page_width as int);
    let mut fs: Vec<LineFragment> = fragments;
    loop
        invariant
            rejoined(models(fs@), tolerance as int, page_width as int) == goal,
            rejoined_fault(models(fs@), tolerance as int, page_width as int) == fault,
            goal == rejoined(models(fragments@), tolerance as int, page_width as int),
            fault == rejoined_fault(models(fragments@), tolerance as int, page_width as int),
        ensures
            models(fs@) == goal,
            fault is None,
        decreases fs@.len(),
    {
        let ghost before = models(fs@);
        match find_bridge(&fs, tolerance) {
            None => {
                break;
            },
            Some((left, right)) => {
                let other: LineFragment = fs.remove(right);
                let first: &LineFragment = &fs[left];
                assert(first@ == before[left as int]);
                assert(other@ == before[right as int]);
                let baseline: Baseline = first.baseline;
                let font_size: i32 = first.metrics.font_size;
                let estimated: bool = first.metrics.font_size_estimated;
                let leads: bool = if first.direction == WritingDirection::RightToLeft {
                    first.bbox.right >= other.bbox.right
                } else {
                    first.bbox.left <= other.bbox.left
                };
                let mut own: Vec<TextItem> = copy_items(&first.items);
                let mut more: Vec<TextItem> = other.items;
                let items: Vec<TextItem> = if leads {
                    own.append(&mut more);
                    own
                } else {
                    more.append(&mut own);
                    more
                };
                assert(items@ =~= bridged_runs(before[left as int], before[right as int]));
                let rebuilt: LineFragment = match LineFragment::from_ordered_items(
                    items,
                    page_width,
                ) {
                    Err(e) => {
                        return Err(e);
                    },
                    Ok(rebuilt) => rebuilt,
                };
                let line: Baseline = Baseline {
                    start: Point::new(rebuilt.baseline.start.x, baseline.start.y),
                    end: Point::new(rebuilt.baseline.end.x, baseline.end.y),
                };
                let metrics: LineMetrics = LineMetrics {
                    font_size,
                    font_size_estimated: estimated,
                    baseline: line,
                    bold_ratio: rebuilt.metrics.bold_ratio,
                    italic_ratio: rebuilt.metrics.italic_ratio,
                    bbox: rebuilt.metrics.bbox,
                    anchor: rebuilt.metrics.anchor,
                    indent: rebuilt.metrics.indent,
                };
                fs.set(
                    left,
                    LineFragment {
                        items: rebuilt.items,
                        bbox: rebuilt.bbox,
                        baseline: line,
                        direction: rebuilt.direction,
                        metrics,
                        rotation: rebuilt.rotation,
                    },
                );
                assert(models(fs@) =~= before.remove(right as int).update(
                    left as int,
                    bridged(before[left as int], before[right as int], page_width as int),
                ));
            },
        }
    }
    Ok(fs)
}

/// A group that cannot be aligned ends the assembly.
proof fn lemma_groups_stop(groups: Seq<Seq<TextItem>>, part: int, n: int, tolerance: int)
    requires
        part <= n,
        groups_upto(groups, part, tolerance) is Err,
    ensures
        groups_upto(groups, n, tolerance) == groups_upto(groups, part, tolerance),
    decreases n - part,
{
    if part < n {
        lemma_groups_stop(groups, part, n - 1, tolerance);
    }
}

/// The runs behind aligned runs.
fn plain_items(group: &Vec<AlignedItem>) -> (items: Vec<TextItem>)
    ensures
        items@ == plain(group@),
{
    let mut items: Vec<TextItem> = Vec::new();
    let mut i: usize = 0;
    while i < group.len()
        invariant
            i <= group@.len(),
            items@ == plain(group@).take(i as int),
        decreases group@.len() - i,
    {
        items.push(group[i].item.copy());
        i = i + 1;
        assert(items@ =~= plain(group@).take(i as int));
    }
    assert(plain(group@).take(group@.len() as int) =~= plain(group@));
    items
}

/// The groups of runs, ordered by angle, that make one fragment each.
pub open spec fn run_groups(by_angle: Seq<TextItem>, tolerance: int) -> Result<
    Seq<Seq<AlignedItem>>,
    GeometryError,
> {
    let turned = orientations(by_angle, by_angle.len() as int);
    groups_upto(turned, turned.len() as int, tolerance)
}

/// Groups runs, ordered by angle, so that each group makes one fragment.
fn group_runs(by_angle: &Vec<TextItem>, tolerance: i64) -> (made: Result<
    Vec<Vec<AlignedItem>>,
    GeometryError,
>)
    ensures
        match made {
            Ok(groups) => run_groups(by_angle@, tolerance as int) == Ok::<
                Seq<Seq<AlignedItem>>,
                GeometryError,
            >(nested(groups@)) && all_filled(nested(groups@)),
            Err(e) => run_groups(by_angle@, tolerance as int) == Err::<
                Seq<Seq<AlignedItem>>,
                GeometryError,
            >(e),
        },
{
    let turned: Vec<Vec<TextItem>> = group_orientations(by_angle);
    let ghost all = nested(turned@);
    let mut groups: Vec<Vec<AlignedItem>> = Vec::new();
    let mut n: usize = 0;
    assert(nested(groups@) =~= Seq::empty());
    while n < turned.len()
        invariant
            all == nested(turned@),
            all_filled(all),
            n <= turned@.len(),
            groups_upto(all, n as int, tolerance as int) == Ok::<
                Seq<Seq<AlignedItem>>,
                GeometryError,
            >(nested(groups@)),
            all_filled(nested(groups@)),
            all == orientations(by_angle@, by_angle@.len() as int),
        decreases turned@.len() - n,
    {
        assert(all[n as int].len() > 0);
        match group_orientation(&turned[n], tolerance) {
            Ok(here) => {
                append_lists(&mut groups, here);
            },
            Err(e) => {
                proof {
                    lemma_groups_stop(all, n + 1, all.len() as int, tolerance as int);
                }
                return Err(e);
            },
        }
        n = n + 1;
    }
    Ok(groups)
}

/// A fault among the first groups stays the first one.
proof fn lemma_fault_stays_first(groups: Seq<Seq<AlignedItem>>, part: int, n: int)
    requires
        part <= n,
        groups_fault(groups, part) is Some,
    ensures
        groups_fault(groups, n) == groups_fault(groups, part),
    decreases n - part,
{
    if part < n {
        lemma_fault_stays_first(groups, part, n - 1);
    }
}

/// Makes every group a fragment.
fn make_fragments(groups: &Vec<Vec<AlignedItem>>, page_width: i32) -> (made: Result<
    Vec<LineFragment>,
    LineError,
>)
    ensures
        match made {
            Ok(fragments) => groups_fault(nested(groups@), groups@.len() as int) is None && models(
                fragments@,
            ) == as_fragments(nested(groups@), page_width as int),
            Err(e) => groups_fault(nested(groups@), groups@.len() as int) == Some(e),
        },
{
    let ghost grouped = nested(groups@);
    let mut fragments: Vec<LineFragment> = Vec::new();
    let mut n: usize = 0;
    while n < groups.len()
        invariant
            grouped == nested(groups@),
            n <= groups@.len(),
            groups_fault(grouped, n as int) is None,
            fragments@.len() == n,
            forall|i: int|
                0 <= i < n ==> (#[trigger] fragments@[i])@ == fragment_of(
                    plain(grouped[i]),
                    page_width as int,
                ),
        decreases groups@.len() - n,
    {
        assert(grouped[n as int] == groups@[n as int]@);
        match LineFragment::from_items(plain_items(&groups[n]), page_width) {
            Err(e) => {
                proof {
                    lemma_fault_stays_first(grouped, n + 1, groups@.len() as int);
                }
                return Err(e);
            },
            Ok(fragment) => {
                fragments.push(fragment);
            },
        }
        n = n + 1;
    }
    assert(models(fragments@) =~= as_fragments(grouped, page_width as int));
    Ok(fragments)
}

/// Width of the page as far as its runs show, at least one point.
pub fn visible_width(items: &Vec<TextItem>) -> (width: i32)
    ensures
        width == seen_width(items@),
{
    let mut width: i32 = 0;
    let mut n: usize = 0;
    while n < items.len()
        invariant
            n <= items@.len(),
            width == right_edge(items@, n as int),
        decreases items@.len() - n,
    {
        if items[n].bbox.right > width {
            width = items[n].bbox.right;
        }
        n = n + 1;
    }
    if width < POINT {
        POINT
    } else {
        width
    }
}

/// Geometry-first line assembler that avoids speculative cross-column merges.
pub struct ConservativeLineAssembler;

impl ConservativeLineAssembler {
    /// Groups every run into exactly one conservative line fragment. Only
    /// degenerate geometry is refused.
    pub fn fragments(&self, items: Vec<TextItem>, config: &FusionConfig) -> (made: Result<
        Vec<LineFragment>,
        LineError,
    >)
        ensures
            match made {
                Ok(fragments) => assembled(items@, *config) == Ok::<Seq<FragmentModel>, LineError>(
                    models(fragments@),
                ),
                Err(e) => assembled(items@, *config) == Err::<Seq<FragmentModel>, LineError>(e),
            },
    {
        reveal(assembled);
        let page_width: i32 = visible_width(&items);
        let tolerance: i64 = config.font_tolerance();
        let by_angle: Vec<TextItem> = sort(items, &ItemOrder::Angle);
        let groups: Vec<Vec<AlignedItem>> = match group_runs(&by_angle, tolerance) {
            Ok(groups) => groups,
            Err(e) => {
                return Err(LineError::Geometry(e));
            },
        };
        let fragments: Vec<LineFragment> = match make_fragments(&groups, page_width) {
            Ok(fragments) => fragments,
            Err(e) => {
                return Err(e);
            },
        };
        let attached: Vec<LineFragment> = match LineFragment::attach_scripts(
            fragments,
            page_width,
        ) {
            Ok(attached) => attached,
            Err(e) => {
                return Err(e);
            },
        };
        match join_script_gaps(attached, page_width, tolerance) {
            Ok(whole) => Ok(sort_fragments(whole, FragmentOrder::Page)),
            Err(e) => Err(e),
        }
    }
}

} // verus!
