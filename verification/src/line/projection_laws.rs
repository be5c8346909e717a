//! How lines are laid out in rows and columns of characters.

use vstd::prelude::*;

use super::assembly_laws::apart;
use super::projection::{
    char_width, column_of, has_content, item_widths, leading_from, line_widths, median_of,
    origin_upto, placed_of, row_of, run_width, same_row, spaces_of, start_of, Grid, Placed,
    RunWidth, Shown, WidthOrder,
};
use crate::blocks::Line;
use crate::chars::trim_of;
use crate::line::axes::TextAxes;
use crate::sorting::{sorted, sorting_orders_and_keeps, Order};
use crate::types::TextItem;

verus! {

proof fn lemma_item_widths(axes: TextAxes, items: Seq<TextItem>, n: int)
    requires
        0 <= n <= items.len(),
    ensures
        forall|w: RunWidth|
            #[trigger] item_widths(axes, items, n).contains(w) <==> exists|i: int|
                0 <= i < n && run_width(axes, #[trigger] items[i]) == Some(w),
    decreases n,
{
    if n > 0 {
        lemma_item_widths(axes, items, n - 1);
        let before = item_widths(axes, items, n - 1);
        let after = item_widths(axes, items, n);
        assert forall|w: RunWidth| #[trigger] after.contains(w) <==> exists|i: int|
            0 <= i < n && run_width(axes, #[trigger] items[i]) == Some(w) by {
            if after.contains(w) {
                let k = after.index_of(w);
                if k < before.len() {
                    assert(before[k] == w);
                    assert(before.contains(w));
                    let i = choose|i: int|
                        0 <= i < n - 1 && run_width(axes, #[trigger] items[i]) == Some(w);
                    assert(run_width(axes, items[i]) == Some(w));
                } else {
                    assert(run_width(axes, items[n - 1]) == Some(w));
                }
            }
            if exists|i: int| 0 <= i < n && run_width(axes, #[trigger] items[i]) == Some(w) {
                let i = choose|i: int|
                    0 <= i < n && run_width(axes, #[trigger] items[i]) == Some(w);
                if i < n - 1 {
                    assert(before.contains(w));
                    let k = before.index_of(w);
                    assert(after[k] == w);
                } else {
                    assert(after[before.len() as int] == w);
                }
            }
        }
    }
}

proof fn lemma_line_widths(axes: TextAxes, lines: Seq<Line>, n: int)
    requires
        0 <= n <= lines.len(),
    ensures
        forall|w: RunWidth|
            #[trigger] line_widths(axes, lines, n).contains(w) ==> exists|l: int, i: int|
                0 <= l < n && 0 <= i < lines[l].text_items@.len() && run_width(
                    axes,
                    #[trigger] lines[l].text_items@[i],
                ) == Some(w),
        forall|l: int, i: int|
            0 <= l < n && 0 <= i < lines[l].text_items@.len() && run_width(
                axes,
                #[trigger] lines[l].text_items@[i],
            ) is Some ==> line_widths(axes, lines, n).contains(
                run_width(axes, lines[l].text_items@[i])->0,
            ),
    decreases n,
{
    if n > 0 {
        lemma_line_widths(axes, lines, n - 1);
        let items = lines[n - 1].text_items@;
        lemma_item_widths(axes, items, items.len() as int);
        let before = line_widths(axes, lines, n - 1);
        let added = item_widths(axes, items, items.len() as int);
        let after = line_widths(axes, lines, n);
        assert(after == before + added);
        assert forall|w: RunWidth| #[trigger] after.contains(w) implies exists|l: int, i: int|
            0 <= l < n && 0 <= i < lines[l].text_items@.len() && run_width(
                axes,
                #[trigger] lines[l].text_items@[i],
            ) == Some(w) by {
            let k = after.index_of(w);
            if k < before.len() {
                assert(before[k] == w);
                assert(before.contains(w));
                let (l, i) = choose|l: int, i: int|
                    0 <= l < n - 1 && 0 <= i < lines[l].text_items@.len() && run_width(
                        axes,
                        #[trigger] lines[l].text_items@[i],
                    ) == Some(w);
                assert(run_width(axes, lines[l].text_items@[i]) == Some(w));
            } else {
                assert(added[k - before.len()] == w);
                assert(added.contains(w));
                let i = choose|i: int|
                    0 <= i < items.len() && run_width(axes, #[trigger] items[i]) == Some(w);
                assert(run_width(axes, lines[n - 1].text_items@[i]) == Some(w));
            }
        }
        assert forall|l: int, i: int|
            0 <= l < n && 0 <= i < lines[l].text_items@.len() && run_width(
                axes,
                #[trigger] lines[l].text_items@[i],
            ) is Some implies after.contains(run_width(axes, lines[l].text_items@[i])->0) by {
            let w = run_width(axes, lines[l].text_items@[i])->0;
            if l < n - 1 {
                assert(before.contains(w));
                let k = before.index_of(w);
                assert(after[k] == w);
            } else {
                assert(run_width(axes, items[i]) == Some(w));
                assert(added.contains(w));
                let k = added.index_of(w);
                assert(after[before.len() + k] == w);
            }
        }
    }
}

/// Whether a fraction is no less than a number of others, and no greater than as many: with the
/// widths in order, half of them lie on either side.
pub open spec fn is_middle(num: int, den: int, s: Seq<RunWidth>) -> bool {
    &&& forall|i: int|
        0 <= i < (s.len() as int + 1) / 2 ==> (#[trigger] s[i]).width * den <= num * (s[i].others
            + 1)
    &&& forall|i: int|
        s.len() as int / 2 <= i < s.len() ==> (#[trigger] s[i]).width * den >= num * (s[i].others
            + 1)
}

proof fn lemma_between(lw: int, lc: int, mw: int, mc: int, w: int, c: int)
    requires
        lc > 0,
        mc > 0,
        c > 0,
        lw * mc <= mw * lc,
    ensures
        w * lc <= lw * c ==> w * (2 * (lc * mc)) <= (lw * mc + mw * lc) * c,
        w * mc >= mw * c ==> w * (2 * (lc * mc)) >= (lw * mc + mw * lc) * c,
{
    if w * lc <= lw * c {
        assert(w * (2 * (lc * mc)) <= (lw * mc + mw * lc) * c) by (nonlinear_arith)
            requires
                lc > 0,
                mc > 0,
                c > 0,
                lw * mc <= mw * lc,
                w * lc <= lw * c,
        {
            assert((w * lc) * mc <= (lw * c) * mc);
            assert((lw * mc) * c <= (mw * lc) * c);
            assert(w * (2 * (lc * mc)) == 2 * ((w * lc) * mc));
            assert((lw * c) * mc == (lw * mc) * c);
            assert((lw * mc + mw * lc) * c == (lw * mc) * c + (mw * lc) * c);
        }
    }
    if w * mc >= mw * c {
        assert(w * (2 * (lc * mc)) >= (lw * mc + mw * lc) * c) by (nonlinear_arith)
            requires
                lc > 0,
                mc > 0,
                c > 0,
                lw * mc <= mw * lc,
                w * mc >= mw * c,
        {
            assert((w * mc) * lc >= (mw * c) * lc);
            assert((lw * mc) * c <= (mw * lc) * c);
            assert(w * (2 * (lc * mc)) == 2 * ((w * mc) * lc));
            assert((mw * c) * lc == (mw * lc) * c);
            assert((lw * mc + mw * lc) * c == (lw * mc) * c + (mw * lc) * c);
        }
    }
}

/// The width of a character is the middle of those of the runs, where the runs are put in the
/// order of the widths of their characters.
pub proof fn median_widths_lie_in_the_middle(widths: Seq<RunWidth>)
    requires
        widths.len() > 0,
    ensures
        ({
            let s = sorted(widths, WidthOrder);
            let (num, den) = median_of(s);
            &&& s.to_multiset() == widths.to_multiset()
            &&& den > 0
            &&& is_middle(num, den, s)
        }),
{
    let s = sorted(widths, WidthOrder);
    sorting_orders_and_keeps(widths, WidthOrder);
    s.to_multiset_ensures();
    widths.to_multiset_ensures();
    assert(s.len() == widths.len());
    let n = s.len() as int;
    let m = s[n / 2];
    let (num, den) = median_of(s);
    if n % 2 == 0 {
        let l = s[n / 2 - 1];
        assert(l.count() * m.count() > 0) by (nonlinear_arith)
            requires
                l.count() > 0,
                m.count() > 0,
        ;
        assert(!WidthOrder.lt(m, l));
        assert forall|i: int| 0 <= i < (n + 1) / 2 implies (#[trigger] s[i]).width * den <= num * (
        s[i].others + 1) by {
            if i < n / 2 - 1 {
                assert(!WidthOrder.lt(l, s[i]));
            }
            lemma_between(
                l.width as int,
                l.count(),
                m.width as int,
                m.count(),
                s[i].width as int,
                s[i].count(),
            );
        }
        assert forall|i: int| n / 2 <= i < n implies (#[trigger] s[i]).width * den >= num * (
        s[i].others + 1) by {
            if i > n / 2 {
                assert(!WidthOrder.lt(s[i], m));
            }
            lemma_between(
                l.width as int,
                l.count(),
                m.width as int,
                m.count(),
                s[i].width as int,
                s[i].count(),
            );
        }
    } else {
        assert forall|i: int| 0 <= i < (n + 1) / 2 implies (#[trigger] s[i]).width * den <= num * (
        s[i].others + 1) by {
            if i < n / 2 {
                assert(!WidthOrder.lt(m, s[i]));
            }
        }
        assert forall|i: int| n / 2 <= i < n implies (#[trigger] s[i]).width * den >= num * (
        s[i].others + 1) by {
            if i > n / 2 {
                assert(!WidthOrder.lt(s[i], m));
            }
        }
    }
}

/// The widths that count are those of the runs with characters and an extent along the line: the
/// extent over the number of characters.
pub proof fn widths_are_those_of_runs(axes: TextAxes, lines: Seq<Line>, l: int, i: int)
    requires
        0 <= l < lines.len(),
        0 <= i < lines[l].text_items@.len(),
        lines[l].text_items@[i].raw_text@.len() <= u32::MAX,
        axes.frame_of(lines[l].text_items@[i].bbox).0 < axes.frame_of(
            lines[l].text_items@[i].bbox,
        ).2,
        axes.frame_of(lines[l].text_items@[i].bbox).1 < axes.frame_of(
            lines[l].text_items@[i].bbox,
        ).3,
        lines[l].text_items@[i].raw_text@.len() > 0,
        axes.frame_of(lines[l].text_items@[i].bbox).2 - axes.frame_of(
            lines[l].text_items@[i].bbox,
        ).0 <= i64::MAX,
    ensures
        exists|w: RunWidth| #[trigger]
            line_widths(axes, lines, lines.len() as int).contains(w) && w.width == axes.frame_of(
                lines[l].text_items@[i].bbox,
            ).2 - axes.frame_of(lines[l].text_items@[i].bbox).0 && w.others + 1
                == lines[l].text_items@[i].raw_text@.len(),
{
    lemma_line_widths(axes, lines, lines.len() as int);
    let w = run_width(axes, lines[l].text_items@[i])->0;
    assert(line_widths(axes, lines, lines.len() as int).contains(w));
}

/// A character is at least a tenth of a point wide, and otherwise as wide as the middle of the
/// runs, or as half the height of the first line where no run has a width.
pub proof fn characters_are_at_least_a_tenth_wide(axes: TextAxes, lines: Seq<Line>)
    requires
        lines.len() > 0,
    ensures
        ({
            let widths = line_widths(axes, lines, lines.len() as int);
            let (num, den) = char_width(axes, lines);
            &&& den > 0
            &&& num >= 1_000 * den
            &&& widths.len() == 0 ==> 2 * num == den * (lines[0].bbox.bottom - lines[0].bbox.top)
                || (num == 1_000 * den && lines[0].bbox.bottom - lines[0].bbox.top < 2_000)
            &&& widths.len() > 0 && num != 1_000 * den ==> is_middle(
                num,
                den,
                sorted(widths, WidthOrder),
            )
        }),
{
    let widths = line_widths(axes, lines, lines.len() as int);
    if widths.len() > 0 {
        median_widths_lie_in_the_middle(widths);
    }
}

proof fn lemma_origin(axes: TextAxes, lines: Seq<Line>, rtl: bool, n: int)
    requires
        0 <= n <= lines.len(),
    ensures
        match origin_upto(axes, lines, rtl, n) {
            None => forall|i: int|
                0 <= i < n ==> !(placed_of(axes, (#[trigger] lines[i]).bbox) is Some && has_content(
                    lines[i],
                )),
            Some(least) => {
                &&& forall|i: int|
                    0 <= i < n && placed_of(axes, (#[trigger] lines[i]).bbox) is Some
                        && has_content(lines[i]) ==> least <= start_of(
                        placed_of(axes, lines[i].bbox)->0,
                        rtl,
                    )
                &&& exists|i: int|
                    0 <= i < n && placed_of(axes, (#[trigger] lines[i]).bbox) is Some
                        && has_content(lines[i]) && least == start_of(
                        placed_of(axes, lines[i].bbox)->0,
                        rtl,
                    )
            },
        },
    decreases n,
{
    if n > 0 {
        lemma_origin(axes, lines, rtl, n - 1);
        if placed_of(axes, lines[n - 1].bbox) is Some && has_content(lines[n - 1]) {
            assert(placed_of(axes, lines[n - 1].bbox) is Some);
        }
        if let Some(least) = origin_upto(axes, lines, rtl, n - 1) {
            let i = choose|i: int|
                0 <= i < n - 1 && placed_of(axes, (#[trigger] lines[i]).bbox) is Some
                    && has_content(lines[i]) && least == start_of(
                    placed_of(axes, lines[i].bbox)->0,
                    rtl,
                );
            assert(placed_of(axes, lines[i].bbox) is Some);
        }
    }
}

/// Columns are counted from where the first line with something to show starts: no such line
/// starts before, and one starts there; text from the right starts at its right end.
pub proof fn columns_start_at_the_first_line(
    axes: TextAxes,
    lines: Seq<Line>,
    rtl: bool,
    i: int,
    f: Placed,
)
    requires
        0 <= i < lines.len(),
        f == axes.frame_of(lines[i].bbox),
        f.0 < f.2,
        f.1 < f.3,
        trim_of(lines[i].text@).len() > 0 || lines[i].inline_spans > 0,
    ensures
        origin_upto(axes, lines, rtl, lines.len() as int) is Some,
        !rtl ==> origin_upto(axes, lines, rtl, lines.len() as int)->0 <= f.0,
        rtl ==> origin_upto(axes, lines, rtl, lines.len() as int)->0 <= -f.2,
        exists|k: int|
            0 <= k < lines.len() && origin_upto(axes, lines, rtl, lines.len() as int)->0 == (if rtl {
                -axes.frame_of((#[trigger] lines[k]).bbox).2
            } else {
                axes.frame_of(lines[k].bbox).0
            }),
{
    let n = lines.len() as int;
    lemma_origin(axes, lines, rtl, n);
    assert(placed_of(axes, lines[i].bbox) == Some(f));
    let least = origin_upto(axes, lines, rtl, n)->0;
    let k = choose|k: int|
        0 <= k < n && placed_of(axes, (#[trigger] lines[k]).bbox) is Some && has_content(lines[k])
            && least == start_of(placed_of(axes, lines[k].bbox)->0, rtl);
    assert(placed_of(axes, lines[k].bbox) == Some(axes.frame_of(lines[k].bbox)));
}

/// A box starts at the column nearest to it: the distance is at most half a character off,
/// columns left of the first are the first, and there are at most four thousand and ninety-six.
pub proof fn columns_are_the_nearest(grid: Grid, f: Placed)
    requires
        grid.num > 0,
        grid.den > 0,
    ensures
        ({
            let d = (if grid.rtl {
                -f.2
            } else {
                f.0
            }) - grid.origin;
            let c = column_of(grid, f);
            &&& 0 <= c <= 4096
            &&& d <= 0 ==> c == 0
            &&& d > 0 && c < 4096 ==> 2 * (d * grid.den) - grid.num < 2 * (c * grid.num) <= 2 * (d
                * grid.den) + grid.num
            &&& d > 0 && c == 4096 ==> 2 * (c * grid.num) <= 2 * (d * grid.den) + grid.num
        }),
{
    let d = start_of(f, grid.rtl) - grid.origin;
    let top = 2 * (d * grid.den) + grid.num;
    let w = 2 * grid.num;
    let q = top / w;
    if d > 0 {
        assert(d * grid.den > 0) by (nonlinear_arith)
            requires
                d > 0,
                grid.den > 0,
        ;
        vstd::arithmetic::div_mod::lemma_fundamental_div_mod(top, w);
        vstd::arithmetic::div_mod::lemma_div_pos_is_pos(top, w);
        vstd::arithmetic::div_mod::lemma_mod_bound(top, w);
        assert(w * q == 2 * (q * grid.num)) by (nonlinear_arith)
            requires
                w == 2 * grid.num,
        ;
        if q >= 4096 {
            assert(2 * (4096 * grid.num) <= 2 * (q * grid.num)) by (nonlinear_arith)
                requires
                    q >= 4096,
                    grid.num > 0,
            ;
        }
    }
}

/// Whether two boxes stand in one row: in the same direction, turned by less than two degrees,
/// with baselines at most thirty-five hundredths of the lower height apart, and the later not
/// reaching back by more than a character.
pub open spec fn stands_in_row(
    grid: Grid,
    before: Shown,
    line: Line,
    f: Placed,
    row: int,
) -> bool {
    let height = before.bounds.3 - before.bounds.1;
    let own = f.3 - f.1;
    let back = if grid.rtl {
        f.2 - before.bounds.0
    } else {
        before.bounds.2 - f.0
    };
    &&& before.direction == line.direction
    &&& apart(before.angle, line.rotation.angle as int) < 20_000
    &&& 100 * apart(row, before.row) <= 35 * own && 100 * apart(row, before.row) <= 35 * height
    &&& back * grid.den <= grid.num
}

/// Lines are joined in a row where they stand in one.
pub proof fn rows_join_lines_on_one_baseline(grid: Grid, before: Shown, line: Line, f: Placed)
    ensures
        same_row(grid, before, line, f) <==> stands_in_row(
            grid,
            before,
            line,
            f,
            row_of(grid.axes, line, f),
        ),
        line.baseline is None ==> row_of(grid.axes, line, f) == f.3,
{
}

proof fn lemma_leading(s: Seq<char>, i: int)
    requires
        0 <= i <= s.len(),
    ensures
        i <= leading_from(s, i) <= s.len(),
        forall|k: int| i <= k < leading_from(s, i) ==> #[trigger] s[k] == ' ',
        leading_from(s, i) < s.len() ==> s[leading_from(s, i)] != ' ',
    decreases s.len() - i,
{
    if i < s.len() && s[i] == ' ' {
        lemma_leading(s, i + 1);
    }
}

/// The first line of a row starts at its column, or where its own leading spaces put it. A later
/// one does not start before its column, and is set off by a space at least where the gap to the
/// one before is more than half a character.
pub proof fn lines_start_at_their_columns(
    grid: Grid,
    before: Option<Shown>,
    columns: int,
    line: Line,
    text: Seq<char>,
    f: Placed,
    leading: int,
)
    requires
        0 <= leading <= text.len(),
        forall|k: int| 0 <= k < leading ==> #[trigger] text[k] == ' ',
        leading < text.len() ==> text[leading] != ' ',
        columns >= 0,
        grid.num > 0,
        grid.den > 0,
    ensures
        ({
            let n = spaces_of(grid, before, columns, line, text, f);
            let joined = before is Some && stands_in_row(
                grid,
                before->0,
                line,
                f,
                row_of(grid.axes, line, f),
            );
            let c = column_of(grid, f);
            let gap = if grid.rtl {
                before->0.bounds.0 - f.2
            } else {
                f.0 - before->0.bounds.2
            };
            &&& n >= leading
            &&& !joined ==> n == (if c > leading {
                c
            } else {
                leading
            })
            &&& joined ==> columns + n >= c
            &&& joined && 2 * gap * grid.den > grid.num ==> n >= 1
            &&& joined && leading == 0 && columns >= c ==> n == (if 2 * gap * grid.den > grid.num {
                1int
            } else {
                0
            })
            &&& joined && c > columns && c - columns >= leading ==> n == c - columns
            &&& joined && c <= columns && leading > 0 ==> n == leading
        }),
{
    lemma_leading(text, 0);
    let k = leading_from(text, 0);
    if k < leading {
        assert(text[k] == ' ');
    }
    if leading < k {
        assert(text[leading] == ' ');
    }
    columns_are_the_nearest(grid, f);
}

} // verus!
