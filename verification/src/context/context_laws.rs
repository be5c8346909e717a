//! What the context of a document says of its pages, in counts.

use vstd::prelude::*;

use super::builder::{
    body_step, chrome_of, chrome_upto, context_of, headings_upto, is_body, is_repeated,
    larger_upto, occurs, pages_with, prevails, repeated_upto, total_of, total_upto,
};
use crate::chars::text_of_decimal;
use crate::extract::metadata::{PageProbe, SizeOrder};
use crate::sorting::{
    deduped_upto, is_ordered, sorted, sorting_holds_the_same, sorting_orders_and_keeps, Order,
};
use crate::texts::{text_set, texts, TextOrder};

verus! {

/// How many facts, from page `i` on, have a size nearest to a step.
pub open spec fn facts_of_step(probes: Seq<PageProbe>, step: i32, i: int) -> int
    decreases probes.len() - i,
{
    if i >= probes.len() {
        0
    } else if probes[i].font_size_histogram@.contains_key(step) {
        probes[i].font_size_histogram@[step] + facts_of_step(probes, step, i + 1)
    } else {
        facts_of_step(probes, step, i + 1)
    }
}

/// On how many pages, from page `i` on, a text stands at the top, or at the bottom.
pub open spec fn pages_showing(probes: Seq<PageProbe>, top: bool, text: Seq<char>, i: int) -> int
    decreases probes.len() - i,
{
    if i >= probes.len() {
        0
    } else if (top && texts(probes[i].top_fingerprints@).contains(text)) || (!top && texts(
        probes[i].bottom_fingerprints@,
    ).contains(text)) {
        1 + pages_showing(probes, top, text, i + 1)
    } else {
        pages_showing(probes, top, text, i + 1)
    }
}

proof fn lemma_total_from(probes: Seq<PageProbe>, step: i32, n: int)
    requires
        0 <= n <= probes.len(),
    ensures
        total_upto(probes, step, n) + facts_of_step(probes, step, n) == facts_of_step(
            probes,
            step,
            0,
        ),
    decreases n,
{
    if n > 0 {
        lemma_total_from(probes, step, n - 1);
    }
}

proof fn lemma_pages_from(probes: Seq<PageProbe>, top: bool, text: Seq<char>, n: int)
    requires
        0 <= n <= probes.len(),
    ensures
        pages_with(probes, top, text, n) + pages_showing(probes, top, text, n) == pages_showing(
            probes,
            top,
            text,
            0,
        ),
    decreases n,
{
    if n > 0 {
        lemma_pages_from(probes, top, text, n - 1);
    }
}

/// The running text has the size of most facts, and the smallest where several have as many:
/// as many tenths of a point as its step counts.
pub proof fn body_text_is_the_most_frequent(
    probes: Seq<PageProbe>,
    page_count: u32,
    page: int,
    other: i32,
)
    requires
        0 <= page < probes.len(),
        probes[page].font_size_histogram@.contains_key(other),
        context_of(probes, page_count).body_font_size is Some,
    ensures
        ({
            let size = context_of(probes, page_count).body_font_size->0;
            exists|step: i32|
                size == 1_000 * step && (exists|p: int|
                    0 <= p < probes.len() && (#[trigger] probes[p])
                        .font_size_histogram@.contains_key(step)) && #[trigger] facts_of_step(
                    probes,
                    step,
                    0,
                ) >= facts_of_step(probes, other, 0) && (facts_of_step(probes, step, 0)
                    == facts_of_step(probes, other, 0) ==> step <= other)
        }),
{
    let step = body_step(probes)->0;
    assert(is_body(probes, step));
    assert(occurs(probes, other));
    assert(prevails(probes, step, other));
    lemma_total_from(probes, step, probes.len() as int);
    lemma_total_from(probes, other, probes.len() as int);
    assert(facts_of_step(probes, step, 0) == total_of(probes, step));
    assert(facts_of_step(probes, other, 0) == total_of(probes, other));
    let p = choose|p: int|
        0 <= p < probes.len() && (#[trigger] probes[p]).font_size_histogram@.contains_key(step);
    assert(probes[p].font_size_histogram@.contains_key(step));
}

proof fn lemma_push<T>(s: Seq<T>, x: T, r: T)
    ensures
        s.push(x).contains(r) <==> s.contains(r) || x == r,
{
    let t = s.push(x);
    if s.contains(r) {
        let i = s.index_of(r);
        assert(t[i] == r);
    }
    if x == r {
        assert(t[s.len() as int] == r);
    }
    if t.contains(r) {
        let i = t.index_of(r);
        if i < s.len() {
            assert(s[i] == r);
        }
    }
}

proof fn lemma_deduped<T>(s: Seq<T>, n: int, x: T)
    requires
        0 <= n <= s.len(),
    ensures
        deduped_upto(s, n).contains(x) <==> exists|i: int| 0 <= i < n && #[trigger] s[i] == x,
        n > 0 ==> deduped_upto(s, n).len() > 0 && deduped_upto(s, n).last() == s[n - 1],
    decreases n,
{
    if n > 0 {
        lemma_deduped(s, n - 1, x);
        let before = deduped_upto(s, n - 1);
        if before.len() > 0 && before.last() == s[n - 1] {
            assert(before[before.len() - 1] == s[n - 1]);
        } else {
            lemma_push(before, s[n - 1], x);
        }
        if exists|i: int| 0 <= i < n && #[trigger] s[i] == x {
            let i = choose|i: int| 0 <= i < n && #[trigger] s[i] == x;
            if i < n - 1 {
                assert(s[i] == x);
            }
        }
        if before.contains(x) {
            let i = choose|i: int| 0 <= i < n - 1 && #[trigger] s[i] == x;
            assert(s[i] == x);
        }
    }
}

/// A set of texts holds the texts of a list.
pub proof fn text_sets_hold_every_text(list: Seq<Seq<char>>, x: Seq<char>)
    ensures
        text_set(list).contains(x) <==> list.contains(x),
{
    let s = sorted(list, TextOrder);
    sorting_holds_the_same(list, TextOrder, x);
    lemma_deduped(s, s.len() as int, x);
    if s.contains(x) {
        let i = s.index_of(x);
        assert(s[i] == x);
    }
}

proof fn lemma_repeated(
    probes: Seq<PageProbe>,
    top: bool,
    page_count: u32,
    list: Seq<Seq<char>>,
    n: int,
    x: Seq<char>,
)
    requires
        0 <= n <= list.len(),
    ensures
        repeated_upto(probes, top, page_count, list, n).contains(x) <==> is_repeated(
            probes,
            top,
            x,
            page_count,
        ) && exists|i: int| 0 <= i < n && #[trigger] list[i] == x,
    decreases n,
{
    if n > 0 {
        lemma_repeated(probes, top, page_count, list, n - 1, x);
        let before = repeated_upto(probes, top, page_count, list, n - 1);
        lemma_push(before, list[n - 1], x);
        if exists|i: int| 0 <= i < n - 1 && #[trigger] list[i] == x {
            let i = choose|i: int| 0 <= i < n - 1 && #[trigger] list[i] == x;
            assert(list[i] == x);
        }
        if exists|i: int| 0 <= i < n && #[trigger] list[i] == x {
            let i = choose|i: int| 0 <= i < n && #[trigger] list[i] == x;
            if i < n - 1 {
                assert(list[i] == x);
            }
        }
    }
}

proof fn lemma_shown(probes: Seq<PageProbe>, top: bool, n: int, x: Seq<char>)
    requires
        0 <= n <= probes.len(),
        pages_with(probes, top, x, n) > 0,
    ensures
        chrome_upto(probes, top, n).contains(x),
    decreases n,
{
    let before = chrome_upto(probes, top, n - 1);
    let last = chrome_of(probes[n - 1], top);
    let all = before + last;
    if last.contains(x) {
        let i = last.index_of(x);
        assert(all[before.len() + i] == x);
    } else {
        lemma_shown(probes, top, n - 1, x);
        let i = before.index_of(x);
        assert(all[i] == x);
    }
}

/// A text is a running header where it stands at the top of at least two pages and of three in
/// five; a running footer likewise at the bottom.
pub proof fn running_texts_stand_on_most_pages(
    probes: Seq<PageProbe>,
    page_count: u32,
    text: Seq<char>,
)
    ensures
        context_of(probes, page_count).headers.contains(text) <==> pages_showing(
            probes,
            true,
            text,
            0,
        ) >= 2 && 5 * pages_showing(probes, true, text, 0) >= 3 * page_count,
        context_of(probes, page_count).footers.contains(text) <==> pages_showing(
            probes,
            false,
            text,
            0,
        ) >= 2 && 5 * pages_showing(probes, false, text, 0) >= 3 * page_count,
{
    lemma_running(probes, page_count, text, true);
    lemma_running(probes, page_count, text, false);
}

proof fn lemma_running(probes: Seq<PageProbe>, page_count: u32, text: Seq<char>, top: bool)
    ensures
        super::builder::repeated_chrome(probes, top, page_count).contains(text) <==> pages_showing(
            probes,
            top,
            text,
            0,
        ) >= 2 && 5 * pages_showing(probes, top, text, 0) >= 3 * page_count,
{
    let n = probes.len() as int;
    let shown = chrome_upto(probes, top, n);
    let all = text_set(shown);
    lemma_pages_from(probes, top, text, n);
    lemma_repeated(probes, top, page_count, all, all.len() as int, text);
    if pages_with(probes, top, text, n) > 0 {
        lemma_shown(probes, top, n, text);
        text_sets_hold_every_text(shown, text);
        let i = all.index_of(text);
        assert(all[i] == text);
    }
}

/// Pages are numbered where every page names its own number, counted from one.
pub proof fn numbered_pages_name_their_numbers(probes: Seq<PageProbe>, page_count: u32)
    ensures
        context_of(probes, page_count).page_number_pattern is Some <==> forall|i: int|
            0 <= i < probes.len() ==> texts(
                (#[trigger] probes[i]).page_number_candidates@,
            ).contains(text_of_decimal((i + 1) as nat)),
        context_of(probes, page_count).page_number_pattern matches Some(pattern) ==> pattern
            == "sequential-arabic"@,
{
}

proof fn lemma_larger(sizes: Seq<i32>, body: Option<i32>, n: int, x: i32)
    requires
        0 <= n <= sizes.len(),
    ensures
        larger_upto(sizes, body, n).contains(x) <==> (body matches Some(step) ==> x > 1_000 * step)
            && exists|i: int| 0 <= i < n && #[trigger] sizes[i] == x,
    decreases n,
{
    if n > 0 {
        lemma_larger(sizes, body, n - 1, x);
        let before = larger_upto(sizes, body, n - 1);
        lemma_push(before, sizes[n - 1], x);
        if exists|i: int| 0 <= i < n - 1 && #[trigger] sizes[i] == x {
            let i = choose|i: int| 0 <= i < n - 1 && #[trigger] sizes[i] == x;
            assert(sizes[i] == x);
        }
        if exists|i: int| 0 <= i < n && #[trigger] sizes[i] == x {
            let i = choose|i: int| 0 <= i < n && #[trigger] sizes[i] == x;
            if i < n - 1 {
                assert(sizes[i] == x);
            }
        }
    }
}

proof fn lemma_headings(probes: Seq<PageProbe>, body: Option<i32>, n: int, x: i32)
    requires
        0 <= n <= probes.len(),
    ensures
        headings_upto(probes, body, n).contains(x) <==> (body matches Some(step) ==> x > 1_000
            * step) && exists|p: int|
            0 <= p < n && (#[trigger] probes[p]).title_font_sizes@.contains(x),
    decreases n,
{
    if n > 0 {
        lemma_headings(probes, body, n - 1, x);
        let before = headings_upto(probes, body, n - 1);
        let sizes = probes[n - 1].title_font_sizes@;
        let last = larger_upto(sizes, body, sizes.len() as int);
        let all = before + last;
        lemma_larger(sizes, body, sizes.len() as int, x);
        assert(all.contains(x) <==> before.contains(x) || last.contains(x)) by {
            if before.contains(x) {
                let i = before.index_of(x);
                assert(all[i] == x);
            }
            if last.contains(x) {
                let i = last.index_of(x);
                assert(all[before.len() + i] == x);
            }
            if all.contains(x) {
                let i = all.index_of(x);
                if i < before.len() {
                    assert(before[i] == x);
                } else {
                    assert(last[i - before.len()] == x);
                }
            }
        }
        if sizes.contains(x) {
            let i = sizes.index_of(x);
            assert(sizes[i] == x);
            assert(probes[n - 1].title_font_sizes@.contains(x));
        }
        if exists|p: int| 0 <= p < n - 1 && (#[trigger] probes[p]).title_font_sizes@.contains(x) {
            let p = choose|p: int|
                0 <= p < n - 1 && (#[trigger] probes[p]).title_font_sizes@.contains(x);
            assert(probes[p].title_font_sizes@.contains(x));
        }
        if exists|p: int| 0 <= p < n && (#[trigger] probes[p]).title_font_sizes@.contains(x) {
            let p = choose|p: int|
                0 <= p < n && (#[trigger] probes[p]).title_font_sizes@.contains(x);
            if p < n - 1 {
                assert(probes[p].title_font_sizes@.contains(x));
            }
        }
    }
}

proof fn lemma_ascends(s: Seq<i32>, n: int)
    requires
        0 <= n <= s.len(),
        is_ordered(s, SizeOrder),
    ensures
        forall|i: int, j: int|
            #![trigger deduped_upto(s, n)[i], deduped_upto(s, n)[j]]
            0 <= i < j < deduped_upto(s, n).len() ==> deduped_upto(s, n)[i] < deduped_upto(
                s,
                n,
            )[j],
        n > 0 ==> deduped_upto(s, n).len() > 0 && deduped_upto(s, n).last() == s[n - 1],
    decreases n,
{
    if n > 0 {
        lemma_ascends(s, n - 1);
        let before = deduped_upto(s, n - 1);
        let after = deduped_upto(s, n);
        if !(before.len() > 0 && before.last() == s[n - 1]) {
            assert forall|i: int, j: int|
                #![trigger after[i], after[j]]
                0 <= i < j < after.len() implies after[i] < after[j] by {
                assert(after[i] == before[i]);
                if j < before.len() {
                    assert(before[i] < before[j]);
                } else {
                    let last = before[before.len() - 1];
                    assert(last == s[n - 2]);
                    assert(!SizeOrder.lt(s[n - 1], s[n - 2]));
                    if i < before.len() - 1 {
                        assert(before[i] < last);
                    }
                }
            }
        }
    }
}

/// Headings have the sizes of titles above that of the running text, each once and from small to
/// large.
pub proof fn headings_are_larger_than_body_text(probes: Seq<PageProbe>, page_count: u32, size: i32)
    ensures
        ({
            let context = context_of(probes, page_count);
            let sizes = context.heading_font_sizes;
            &&& sizes.contains(size) <==> (context.body_font_size matches Some(body) ==> size
                > body) && exists|p: int|
                0 <= p < probes.len() && (#[trigger] probes[p]).title_font_sizes@.contains(size)
            &&& forall|i: int, j: int|
                #![trigger sizes[i], sizes[j]]
                0 <= i < j < sizes.len() ==> sizes[i] < sizes[j]
        }),
{
    let body = body_step(probes);
    let all = headings_upto(probes, body, probes.len() as int);
    let s = sorted(all, SizeOrder);
    lemma_headings(probes, body, probes.len() as int, size);
    sorting_orders_and_keeps(all, SizeOrder);
    sorting_holds_the_same(all, SizeOrder, size);
    lemma_ascends(s, s.len() as int);
    lemma_deduped(s, s.len() as int, size);
    if s.contains(size) {
        let i = s.index_of(size);
        assert(s[i] == size);
    }
}

} // verus!
