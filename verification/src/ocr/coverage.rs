//! Area of a box that other boxes cover together.

use vstd::prelude::*;

use crate::geometry::Bbox;

verus! {

/// Whether a box covers the unit cell at a point.
pub open spec fn covers(b: Bbox, x: int, y: int) -> bool {
    b.left <= x < b.right && b.top <= y < b.bottom
}

/// Whether some box covers the unit cell at a point.
pub open spec fn any_covers(boxes: Seq<Bbox>, x: int, y: int) -> bool {
    exists|i: int| 0 <= i < boxes.len() && covers(#[trigger] boxes[i], x, y)
}

/// Number of covered cells of a column between two heights.
pub open spec fn column(boxes: Seq<Bbox>, x: int, y0: int, y1: int) -> nat
    decreases y1 - y0,
{
    if y1 <= y0 {
        0
    } else {
        column(boxes, x, y0, y1 - 1) + (if any_covers(boxes, x, y1 - 1) {
            1nat
        } else {
            0
        })
    }
}

/// Number of covered cells of the columns between two positions.
pub open spec fn columns(boxes: Seq<Bbox>, x0: int, x1: int, y0: int, y1: int) -> nat
    decreases x1 - x0,
{
    if x1 <= x0 {
        0
    } else {
        columns(boxes, x0, x1 - 1, y0, y1) + column(boxes, x1 - 1, y0, y1)
    }
}

/// Area of a box that other boxes cover together; what two of them share counts once.
pub open spec fn covered(b: Bbox, boxes: Seq<Bbox>) -> nat {
    columns(boxes, b.left as int, b.right as int, b.top as int, b.bottom as int)
}

/// Whether no box begins or ends between two positions.
pub open spec fn clear_x(boxes: Seq<Bbox>, x0: int, x1: int) -> bool {
    forall|i: int|
        #![trigger boxes[i]]
        0 <= i < boxes.len() ==> !(x0 < boxes[i].left < x1) && !(x0 < boxes[i].right < x1)
}

/// Whether no box begins or ends between two heights.
pub open spec fn clear_y(boxes: Seq<Bbox>, y0: int, y1: int) -> bool {
    forall|i: int|
        #![trigger boxes[i]]
        0 <= i < boxes.len() ==> !(y0 < boxes[i].top < y1) && !(y0 < boxes[i].bottom < y1)
}

proof fn lemma_same_column(boxes: Seq<Bbox>, x0: int, x1: int, x: int, y: int)
    requires
        clear_x(boxes, x0, x1),
        x0 <= x < x1,
    ensures
        any_covers(boxes, x, y) == any_covers(boxes, x0, y),
{
    if any_covers(boxes, x, y) {
        let i = choose|i: int| 0 <= i < boxes.len() && covers(#[trigger] boxes[i], x, y);
        assert(covers(boxes[i], x0, y));
    }
    if any_covers(boxes, x0, y) {
        let i = choose|i: int| 0 <= i < boxes.len() && covers(#[trigger] boxes[i], x0, y);
        assert(covers(boxes[i], x, y));
    }
}

proof fn lemma_equal_columns(boxes: Seq<Bbox>, x0: int, x1: int, x: int, y0: int, y1: int)
    requires
        clear_x(boxes, x0, x1),
        x0 <= x < x1,
    ensures
        column(boxes, x, y0, y1) == column(boxes, x0, y0, y1),
    decreases y1 - y0,
{
    if y1 > y0 {
        lemma_equal_columns(boxes, x0, x1, x, y0, y1 - 1);
        lemma_same_column(boxes, x0, x1, x, y1 - 1);
    }
}

proof fn lemma_strip(boxes: Seq<Bbox>, left: int, x0: int, x1: int, x: int, y0: int, y1: int)
    requires
        clear_x(boxes, x0, x1),
        left <= x0 <= x <= x1,
    ensures
        columns(boxes, left, x, y0, y1) == columns(boxes, left, x0, y0, y1) + (x - x0) * column(
            boxes,
            x0,
            y0,
            y1,
        ),
    decreases x - x0,
{
    let c = column(boxes, x0, y0, y1) as int;
    if x > x0 {
        lemma_strip(boxes, left, x0, x1, x - 1, y0, y1);
        lemma_equal_columns(boxes, x0, x1, x - 1, y0, y1);
        assert((x - x0) * c == (x - 1 - x0) * c + c) by (nonlinear_arith);
    } else {
        assert((x - x0) * c == 0) by (nonlinear_arith)
            requires
                x == x0,
        ;
    }
}

proof fn lemma_same_cell(boxes: Seq<Bbox>, x: int, y0: int, y1: int, y: int)
    requires
        clear_y(boxes, y0, y1),
        y0 <= y < y1,
    ensures
        any_covers(boxes, x, y) == any_covers(boxes, x, y0),
{
    if any_covers(boxes, x, y) {
        let i = choose|i: int| 0 <= i < boxes.len() && covers(#[trigger] boxes[i], x, y);
        assert(covers(boxes[i], x, y0));
    }
    if any_covers(boxes, x, y0) {
        let i = choose|i: int| 0 <= i < boxes.len() && covers(#[trigger] boxes[i], x, y0);
        assert(covers(boxes[i], x, y));
    }
}

proof fn lemma_span(boxes: Seq<Bbox>, x: int, top: int, y0: int, y1: int, y: int)
    requires
        clear_y(boxes, y0, y1),
        top <= y0 <= y <= y1,
        y0 < y1,
    ensures
        column(boxes, x, top, y) == column(boxes, x, top, y0) + (if any_covers(boxes, x, y0) {
            y - y0
        } else {
            0
        }),
    decreases y - y0,
{
    if y > y0 {
        lemma_span(boxes, x, top, y0, y1, y - 1);
        lemma_same_cell(boxes, x, y0, y1, y - 1);
    }
}

proof fn lemma_column_bound(boxes: Seq<Bbox>, x: int, y0: int, y1: int)
    requires
        y0 <= y1,
    ensures
        column(boxes, x, y0, y1) <= y1 - y0,
    decreases y1 - y0,
{
    if y0 < y1 {
        lemma_column_bound(boxes, x, y0, y1 - 1);
    }
}

proof fn lemma_columns_bound(boxes: Seq<Bbox>, x0: int, x1: int, y0: int, y1: int)
    requires
        x0 <= x1,
        y0 <= y1,
    ensures
        columns(boxes, x0, x1, y0, y1) <= (x1 - x0) * (y1 - y0),
    decreases x1 - x0,
{
    let h = y1 - y0;
    if x0 < x1 {
        lemma_columns_bound(boxes, x0, x1 - 1, y0, y1);
        lemma_column_bound(boxes, x1 - 1, y0, y1);
        assert((x1 - x0) * h == (x1 - 1 - x0) * h + h) by (nonlinear_arith);
    } else {
        assert((x1 - x0) * h == 0) by (nonlinear_arith)
            requires
                x1 == x0,
        ;
    }
}

/// Boxes cover no more of a box than there is of it.
pub proof fn coverage_is_bounded(b: Bbox, boxes: Seq<Bbox>)
    requires
        b.valid(),
    ensures
        covered(b, boxes) <= b.size(),
{
    lemma_columns_bound(boxes, b.left as int, b.right as int, b.top as int, b.bottom as int);
}

/// The next position, up to a limit, where a box begins or ends.
fn next_x(boxes: &Vec<Bbox>, x: i32, limit: i32) -> (next: i32)
    requires
        x < limit,
    ensures
        x < next <= limit,
        clear_x(boxes@, x as int, next as int),
{
    let mut next: i32 = limit;
    let mut i: usize = 0;
    while i < boxes.len()
        invariant
            i <= boxes@.len(),
            x < next <= limit,
            forall|k: int|
                #![trigger boxes@[k]]
                0 <= k < i ==> !(x < boxes@[k].left < next) && !(x < boxes@[k].right < next),
        decreases boxes@.len() - i,
    {
        let b: Bbox = boxes[i];
        if x < b.left && b.left < next {
            next = b.left;
        }
        if x < b.right && b.right < next {
            next = b.right;
        }
        i = i + 1;
    }
    next
}

/// The next height, up to a limit, where a box begins or ends.
fn next_y(boxes: &Vec<Bbox>, y: i32, limit: i32) -> (next: i32)
    requires
        y < limit,
    ensures
        y < next <= limit,
        clear_y(boxes@, y as int, next as int),
{
    let mut next: i32 = limit;
    let mut i: usize = 0;
    while i < boxes.len()
        invariant
            i <= boxes@.len(),
            y < next <= limit,
            forall|k: int|
                #![trigger boxes@[k]]
                0 <= k < i ==> !(y < boxes@[k].top < next) && !(y < boxes@[k].bottom < next),
        decreases boxes@.len() - i,
    {
        let b: Bbox = boxes[i];
        if y < b.top && b.top < next {
            next = b.top;
        }
        if y < b.bottom && b.bottom < next {
            next = b.bottom;
        }
        i = i + 1;
    }
    next
}

/// Whether some box covers the unit cell at a point.
fn is_covered(boxes: &Vec<Bbox>, x: i32, y: i32) -> (yes: bool)
    ensures
        yes == any_covers(boxes@, x as int, y as int),
{
    let mut i: usize = 0;
    while i < boxes.len()
        invariant
            i <= boxes@.len(),
            forall|k: int| 0 <= k < i ==> !covers(#[trigger] boxes@[k], x as int, y as int),
        decreases boxes@.len() - i,
    {
        let b: Bbox = boxes[i];
        if b.left <= x && x < b.right && b.top <= y && y < b.bottom {
            assert(covers(boxes@[i as int], x as int, y as int));
            return true;
        }
        i = i + 1;
    }
    false
}

/// Number of covered cells of a column.
fn column_area(boxes: &Vec<Bbox>, x: i32, top: i32, bottom: i32) -> (area: i64)
    requires
        top <= bottom,
    ensures
        area == column(boxes@, x as int, top as int, bottom as int),
        0 <= area <= bottom - top,
{
    let mut area: i64 = 0;
    let mut y: i32 = top;
    while y < bottom
        invariant
            top <= y <= bottom,
            area == column(boxes@, x as int, top as int, y as int),
            0 <= area <= y - top,
        decreases bottom - y,
    {
        let next: i32 = next_y(boxes, y, bottom);
        proof {
            lemma_span(boxes@, x as int, top as int, y as int, next as int, next as int);
        }
        if is_covered(boxes, x, y) {
            area = area + (next as i64 - y as i64);
        }
        y = next;
    }
    area
}

/// Area of a box that other boxes cover together; what two of them share counts once.
pub fn covered_area(b: &Bbox, boxes: &Vec<Bbox>) -> (area: i128)
    requires
        b.valid(),
    ensures
        area == covered(*b, boxes@),
        0 <= area <= b.size(),
{
    let mut area: i128 = 0;
    let mut x: i32 = b.left;
    proof {
        let h = b.high();
        assert(0 * h == 0) by (nonlinear_arith);
    }
    while x < b.right
        invariant
            b.valid(),
            b.left <= x <= b.right,
            area == columns(boxes@, b.left as int, x as int, b.top as int, b.bottom as int),
            0 <= area <= 0x1_0000_0000_0000_0000,
        decreases b.right - x,
    {
        let next: i32 = next_x(boxes, x, b.right);
        let high: i64 = column_area(boxes, x, b.top, b.bottom);
        let wide: i64 = next as i64 - x as i64;
        proof {
            lemma_strip(
                boxes@,
                b.left as int,
                x as int,
                next as int,
                next as int,
                b.top as int,
                b.bottom as int,
            );
            lemma_columns_bound(
                boxes@,
                b.left as int,
                next as int,
                b.top as int,
                b.bottom as int,
            );
            let (w, h, u, v) = (wide as int, high as int, next - b.left, b.high());
            assert(0 <= w * h <= 0x1_0000_0000_0000_0000) by (nonlinear_arith)
                requires
                    0 <= w <= 0x1_0000_0000,
                    0 <= h <= 0x1_0000_0000,
            ;
            assert(u * v <= 0x1_0000_0000_0000_0000) by (nonlinear_arith)
                requires
                    0 <= u <= 0x1_0000_0000,
                    0 <= v <= 0x1_0000_0000,
            ;
        }
        area = area + (wide as i128) * (high as i128);
        x = next;
    }
    proof {
        coverage_is_bounded(*b, boxes@);
    }
    area
}

} // verus!
