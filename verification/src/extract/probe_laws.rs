//! What the statistics of a page say of its facts.

use vstd::prelude::*;

use super::metadata::{
    collected_upto, size_step, sized_upto, titles_upto, Collected, ExtractedPage, PageProbe,
    SizeOrder,
};
use crate::chars::{alphanumeric, lowered, trim_of};
use crate::context::context_laws::text_sets_hold_every_text;
use crate::sorting::{deduped, deduped_upto, sorted, sorting_holds_the_same};
use crate::texts::texts;
use crate::types::TextItem;

verus! {

/// The text of a fact in lower case and without blanks at its ends.
pub open spec fn plain_text(item: TextItem) -> Seq<char> {
    lowered(trim_of(item.raw_text@))
}

/// Whether a fact is no watermark and shows more than blanks.
pub open spec fn shows_text(item: TextItem) -> bool {
    !item.watermark && plain_text(item).len() > 0
}

/// Whether a text holds a letter or a digit.
pub open spec fn says_something(text: Seq<char>) -> bool {
    exists|i: int| 0 <= i < text.len() && alphanumeric(#[trigger] text[i])
}

proof fn lemma_push<T>(s: Seq<T>, x: T, r: T)
    ensures
        s.push(x).contains(r) <==> s.contains(r) || x == r,
{
    let t = s.push(x);
    if s.contains(r) {
        let i = s.index_of(r);
        assert(t[i] == r);
    }
    if x == r {
        assert(t[s.len() as int] == r);
    }
    if t.contains(r) {
        let i = t.index_of(r);
        if i < s.len() {
            assert(s[i] == r);
        }
    }
}

/// Whether a fact of a page stands in its upper fifteen hundredths and says a text.
pub open spec fn tops(page: ExtractedPage, i: int, text: Seq<char>) -> bool {
    let item = page.text_items@[i];
    shows_text(item) && plain_text(item) == text && says_something(text) && 100 * item.bbox.top
        <= 15 * page.height
}

/// Whether a fact of a page stands in its lower fifteen hundredths and says a text.
pub open spec fn bottoms(page: ExtractedPage, i: int, text: Seq<char>) -> bool {
    let item = page.text_items@[i];
    shows_text(item) && plain_text(item) == text && says_something(text) && 100 * item.bbox.bottom
        >= 85 * page.height
}

/// Whether a fact of a page is a number.
pub open spec fn numbers(page: ExtractedPage, i: int, text: Seq<char>) -> bool {
    let item = page.text_items@[i];
    shows_text(item) && plain_text(item) == text && forall|k: int|
        0 <= k < text.len() ==> '0' <= #[trigger] text[k] && text[k] <= '9'
}

proof fn lemma_collected(page: ExtractedPage, n: int, text: Seq<char>)
    requires
        0 <= n <= page.text_items@.len(),
    ensures
        collected_upto(page, Collected::Top, n).contains(text) <==> exists|i: int|
            0 <= i < n && #[trigger] tops(page, i, text),
        collected_upto(page, Collected::Bottom, n).contains(text) <==> exists|i: int|
            0 <= i < n && #[trigger] bottoms(page, i, text),
        collected_upto(page, Collected::Number, n).contains(text) <==> exists|i: int|
            0 <= i < n && #[trigger] numbers(page, i, text),
    decreases n,
{
    if n > 0 {
        lemma_collected(page, n - 1, text);
        let x = plain_text(page.text_items@[n - 1]);
        lemma_push(collected_upto(page, Collected::Top, n - 1), x, text);
        lemma_push(collected_upto(page, Collected::Bottom, n - 1), x, text);
        lemma_push(collected_upto(page, Collected::Number, n - 1), x, text);
        assert(collected_upto(page, Collected::Top, n).contains(text) <==> collected_upto(
            page,
            Collected::Top,
            n - 1,
        ).contains(text) || tops(page, n - 1, text));
        assert(collected_upto(page, Collected::Bottom, n).contains(text) <==> collected_upto(
            page,
            Collected::Bottom,
            n - 1,
        ).contains(text) || bottoms(page, n - 1, text));
        assert(collected_upto(page, Collected::Number, n).contains(text) <==> collected_upto(
            page,
            Collected::Number,
            n - 1,
        ).contains(text) || numbers(page, n - 1, text));
        if exists|i: int| 0 <= i < n && #[trigger] tops(page, i, text) {
            let i = choose|i: int| 0 <= i < n && #[trigger] tops(page, i, text);
            if i < n - 1 {
                assert(tops(page, i, text));
            }
        }
        if exists|i: int| 0 <= i < n && #[trigger] bottoms(page, i, text) {
            let i = choose|i: int| 0 <= i < n && #[trigger] bottoms(page, i, text);
            if i < n - 1 {
                assert(bottoms(page, i, text));
            }
        }
        if exists|i: int| 0 <= i < n && #[trigger] numbers(page, i, text) {
            let i = choose|i: int| 0 <= i < n && #[trigger] numbers(page, i, text);
            if i < n - 1 {
                assert(numbers(page, i, text));
            }
        }
    }
}

/// The texts at the top of a page are those that start in its upper fifteen hundredths, those at
/// the bottom end in its lower fifteen, and numbers are made of digits alone. Watermarks and
/// blanks count nowhere.
pub proof fn probes_read_the_margins(probe: PageProbe, page: ExtractedPage, text: Seq<char>)
    requires
        probe.reads(page),
    ensures
        texts(probe.top_fingerprints@).contains(text) <==> exists|i: int|
            0 <= i < page.text_items@.len() && #[trigger] tops(page, i, text),
        texts(probe.bottom_fingerprints@).contains(text) <==> exists|i: int|
            0 <= i < page.text_items@.len() && #[trigger] bottoms(page, i, text),
        texts(probe.page_number_candidates@).contains(text) <==> exists|i: int|
            0 <= i < page.text_items@.len() && #[trigger] numbers(page, i, text),
{
    let n = page.text_items@.len() as int;
    lemma_collected(page, n, text);
    text_sets_hold_every_text(collected_upto(page, Collected::Top, n), text);
    text_sets_hold_every_text(collected_upto(page, Collected::Bottom, n), text);
    text_sets_hold_every_text(collected_upto(page, Collected::Number, n), text);
}

/// Whether a fact states a positive font size.
pub open spec fn states_size(item: TextItem, size: i32) -> bool {
    shows_text(item) && size > 0 && item.style is Some && item.style->0.font_size == Some(size)
}

/// How many facts, from fact `i` on, state a size nearest to a number of tenths of a point.
pub open spec fn facts_near(items: Seq<TextItem>, step: int, i: int) -> int
    decreases items.len() - i,
{
    if i >= items.len() {
        0
    } else if items[i].style is Some && items[i].style->0.font_size is Some && states_size(
        items[i],
        items[i].style->0.font_size->0,
    ) && 1_000 * step - 500 <= items[i].style->0.font_size->0 && items[i].style->0.font_size->0
        < 1_000 * step + 500 {
        1 + facts_near(items, step, i + 1)
    } else {
        facts_near(items, step, i + 1)
    }
}

proof fn lemma_step(size: i32, step: i32)
    requires
        size > 0,
    ensures
        size_step(size) == step <==> 1_000 * step - 500 <= size < 1_000 * step + 500,
{
    let q = (size + 500) / 1_000int;
    assert(1_000 * q <= size + 500 < 1_000 * q + 1_000);
}

proof fn lemma_near(items: Seq<TextItem>, step: i32, n: int)
    requires
        0 <= n <= items.len(),
    ensures
        sized_upto(items, step, n) + facts_near(items, step as int, n) == facts_near(
            items,
            step as int,
            0,
        ),
    decreases n,
{
    if n > 0 {
        lemma_near(items, step, n - 1);
        if let Some(style) = items[n - 1].style {
            if let Some(size) = style.font_size {
                if size > 0 {
                    lemma_step(size, step);
                }
            }
        }
    }
}

proof fn lemma_titles(items: Seq<TextItem>, n: int, size: i32)
    requires
        0 <= n <= items.len(),
    ensures
        titles_upto(items, n).contains(size) <==> size >= 120_000 && exists|i: int|
            0 <= i < n && states_size(#[trigger] items[i], size),
    decreases n,
{
    if n > 0 {
        lemma_titles(items, n - 1, size);
        let before = titles_upto(items, n - 1);
        if let Some(style) = items[n - 1].style {
            if let Some(last) = style.font_size {
                lemma_push(before, last, size);
            }
        }
        assert(titles_upto(items, n).contains(size) <==> before.contains(size) || (size >= 120_000
            && states_size(items[n - 1], size)));
        if exists|i: int| 0 <= i < n && states_size(#[trigger] items[i], size) {
            let i = choose|i: int| 0 <= i < n && states_size(#[trigger] items[i], size);
            if i < n - 1 {
                assert(states_size(items[i], size));
            }
        }
        if exists|i: int| 0 <= i < n - 1 && states_size(#[trigger] items[i], size) {
            let i = choose|i: int| 0 <= i < n - 1 && states_size(#[trigger] items[i], size);
            assert(states_size(items[i], size));
        }
    }
}

proof fn lemma_deduped<T>(s: Seq<T>, n: int, x: T)
    requires
        0 <= n <= s.len(),
    ensures
        deduped_upto(s, n).contains(x) <==> exists|i: int| 0 <= i < n && #[trigger] s[i] == x,
        n > 0 ==> deduped_upto(s, n).len() > 0 && deduped_upto(s, n).last() == s[n - 1],
    decreases n,
{
    if n > 0 {
        lemma_deduped(s, n - 1, x);
        let before = deduped_upto(s, n - 1);
        if before.len() > 0 && before.last() == s[n - 1] {
            assert(before[before.len() - 1] == s[n - 1]);
        } else {
            lemma_push(before, s[n - 1], x);
        }
        if exists|i: int| 0 <= i < n && #[trigger] s[i] == x {
            let i = choose|i: int| 0 <= i < n && #[trigger] s[i] == x;
            if i < n - 1 {
                assert(s[i] == x);
            }
        }
        if before.contains(x) {
            let i = choose|i: int| 0 <= i < n - 1 && #[trigger] s[i] == x;
            assert(s[i] == x);
        }
    }
}

/// The histogram of a page counts the facts whose size rounds to a tenth of a point, and its
/// titles are the sizes of twelve points or more.
pub proof fn probes_count_sizes(probe: PageProbe, page: ExtractedPage, step: i32, size: i32)
    requires
        probe.reads(page),
    ensures
        probe.font_size_histogram@.contains_key(step) <==> facts_near(
            page.text_items@,
            step as int,
            0,
        ) > 0,
        probe.font_size_histogram@.contains_key(step) ==> probe.font_size_histogram@[step]
            == facts_near(page.text_items@, step as int, 0),
        probe.title_font_sizes@.contains(size) <==> size >= 120_000 && exists|i: int|
            0 <= i < page.text_items@.len() && states_size(#[trigger] page.text_items@[i], size),
{
    let n = page.text_items@.len() as int;
    lemma_near(page.text_items@, step, n);
    let all = titles_upto(page.text_items@, n);
    let s = sorted(all, SizeOrder);
    lemma_titles(page.text_items@, n, size);
    sorting_holds_the_same(all, SizeOrder, size);
    lemma_deduped(s, s.len() as int, size);
    assert(deduped(s) == deduped_upto(s, s.len() as int));
    if s.contains(size) {
        let i = s.index_of(size);
        assert(s[i] == size);
    }
}

} // verus!
