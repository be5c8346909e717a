//! Which detections become regions, and what they are for.

use vstd::prelude::*;

use super::assign::{
    seed_error, usable, usable_upto, Assignment, Role, SeedError, SourceOrder,
};
use crate::geometry::Bbox;
use crate::layout::LayoutDetection;
use crate::sorting::{sorting_holds_the_same, sorting_orders_and_keeps, Order};

verus! {

/// Whether a box lies in another, edges included.
pub open spec fn lies_in(b: Bbox, page: Bbox) -> bool {
    page.left <= b.left && page.top <= b.top && b.right <= page.right && b.bottom <= page.bottom
}

/// Whether a detection has a place on the page: its box and the page have an extent, the box lies
/// on the page, and an outline, where it has one, has an area and lies on the page.
pub open spec fn is_well_placed(d: LayoutDetection, page: Bbox) -> bool {
    &&& d.bbox.left < d.bbox.right && d.bbox.top < d.bbox.bottom
    &&& page.left < page.right && page.top < page.bottom
    &&& lies_in(d.bbox, page)
    &&& d.outline is Some ==> d.outline->0.area > 0 && lies_in(d.outline->0.bbox, page)
}

/// A detection is refused for the first of these: a page without a number, a class that is none
/// of twenty-five, a confidence that is no probability, and a place that is none.
pub proof fn faulty_detections_are_refused(number: u32, d: LayoutDetection, page: Bbox)
    ensures
        ({
            let class = 0 <= d.class_id < 25;
            let sure = 0 <= d.confidence <= 1_000_000;
            let placed = is_well_placed(d, page);
            &&& seed_error(number, d, page) is None <==> number >= 1 && class && sure && placed
            &&& number == 0 ==> seed_error(number, d, page) == Some(SeedError::InvalidPageNumber)
            &&& number >= 1 && !class ==> seed_error(number, d, page) == Some(
                SeedError::InvalidClass { class_id: d.class_id },
            )
            &&& number >= 1 && class && !sure ==> seed_error(number, d, page) == Some(
                SeedError::InvalidConfidence,
            )
            &&& number >= 1 && class && sure && !placed ==> seed_error(number, d, page) == Some(
                SeedError::InvalidGeometry,
            )
        }),
{
}

/// Whether a detection is for this: inline formulas mark formulas, references the extent of a
/// bibliography, and every other detection may own text.
pub open spec fn is_for(d: LayoutDetection, role: Role) -> bool {
    match role {
        Role::Formula => d.label is InlineFormula,
        Role::Reference => d.label is Reference,
        Role::Body => !(d.label is InlineFormula) && !(d.label is Reference),
    }
}

proof fn lemma_usable(
    number: u32,
    detections: Seq<LayoutDetection>,
    page: Bbox,
    role: Role,
    n: int,
    d: LayoutDetection,
)
    requires
        0 <= n <= detections.len(),
    ensures
        usable_upto(number, detections, page, role, n).contains(d) <==> seed_error(
            number,
            d,
            page,
        ) is None && is_for(d, role) && exists|i: int| 0 <= i < n && #[trigger] detections[i] == d,
    decreases n,
{
    if n > 0 {
        lemma_usable(number, detections, page, role, n - 1, d);
        let before = usable_upto(number, detections, page, role, n - 1);
        let after = usable_upto(number, detections, page, role, n);
        if after.contains(d) {
            let k = after.index_of(d);
            if k < before.len() {
                assert(before[k] == d);
                assert(before.contains(d));
            } else {
                assert(detections[n - 1] == d);
            }
        }
        if before.contains(d) {
            let k = before.index_of(d);
            assert(after[k] == d);
        }
        if detections[n - 1] == d && seed_error(number, d, page) is None && is_for(d, role) {
            assert(after[before.len() as int] == d);
        }
    }
}

/// The regions of a page are exactly its detections without fault that are for text, in the order
/// of the answer of the model; and so are those for formulas and references.
pub proof fn sound_detections_become_regions(
    number: u32,
    detections: Seq<LayoutDetection>,
    page: Bbox,
    role: Role,
    d: LayoutDetection,
)
    ensures
        usable(number, detections, page, role).contains(d) <==> detections.contains(d) && number
            >= 1 && 0 <= d.class_id < 25 && 0 <= d.confidence <= 1_000_000 && is_well_placed(
            d,
            page,
        ) && is_for(d, role),
        forall|a: int, b: int|
            0 <= a < b < usable(number, detections, page, role).len() ==> (#[trigger] usable(
                number,
                detections,
                page,
                role,
            )[a]).source_detection_index <= (#[trigger] usable(
                number,
                detections,
                page,
                role,
            )[b]).source_detection_index,
{
    let n = detections.len() as int;
    let given = usable_upto(number, detections, page, role, n);
    lemma_usable(number, detections, page, role, n, d);
    faulty_detections_are_refused(number, d, page);
    sorting_holds_the_same(given, SourceOrder, d);
    sorting_orders_and_keeps(given, SourceOrder);
    if detections.contains(d) {
        assert(detections[detections.index_of(d)] == d);
    }
    let s = usable(number, detections, page, role);
    assert forall|a: int, b: int| 0 <= a < b < s.len() implies (
    #[trigger] s[a]).source_detection_index <= (#[trigger] s[b]).source_detection_index by {
        assert(!SourceOrder.lt(s[b], s[a]));
    }
}

/// How many regions, from the first on, a fragment could belong to.
pub open spec fn choices_from(a: Assignment, i: int, from: int) -> int
    decreases a.seeds.len() - from,
{
    if from < 0 || from >= a.seeds.len() {
        0
    } else {
        choices_from(a, i, from + 1) + if a.score(i, from) is Some {
            1int
        } else {
            0
        }
    }
}

proof fn lemma_choices(a: Assignment, i: int, n: int)
    requires
        0 <= n <= a.seeds.len(),
    ensures
        a.choices_upto(i, n) + choices_from(a, i, n) == choices_from(a, i, 0),
        0 <= a.choices_upto(i, n) <= n,
    decreases n,
{
    if n > 0 {
        lemma_choices(a, i, n - 1);
    }
}

/// What is noted of an owned fragment is how many other regions it could belong to.
pub proof fn alternatives_are_the_other_choices(a: Assignment, i: int)
    requires
        choices_from(a, i, 0) >= 1,
        a.seeds.len() <= usize::MAX,
    ensures
        a.evidence(i).alternative_count + 1 == choices_from(a, i, 0),
{
    lemma_choices(a, i, a.seeds.len() as int);
}

} // verus!
