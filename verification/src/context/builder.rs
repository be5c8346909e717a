//! The frozen context of a document.

use std::collections::BTreeMap;
use vstd::prelude::*;
use vstd::std_specs::iter::IteratorSpec;

use crate::chars::{push_decimal, push_text, str_same, text_of_decimal};
use crate::error::ContextError;
use crate::extract::metadata::{sort_sizes, PageProbe, SizeOrder, SIZE_STEP};
use crate::sorting::{
    deduped, sort, sorted, sorting_forgets_arrival, sorting_orders_and_keeps, Order, Sorter,
};
use crate::texts::{push_to, sort_texts, text_set, texts};

verus! {

/// What holds of a document as a whole.
#[derive(Debug)]
pub struct DocumentContext {
    pub page_count: u32,
    /// Font size of the running text, in units.
    pub body_font_size: Option<i64>,
    pub repeated_header_fingerprints: Vec<String>,
    pub repeated_footer_fingerprints: Vec<String>,
    pub page_number_pattern: Option<String>,
    pub heading_font_sizes: Vec<i32>,
    pub model_revision: Option<String>,
    pub metadata: Vec<(String, String)>,
}

/// What is known of a context.
#[verifier::ext_equal]
pub struct ContextModel {
    pub page_count: u32,
    pub body_font_size: Option<int>,
    pub headers: Seq<Seq<char>>,
    pub footers: Seq<Seq<char>>,
    pub page_number_pattern: Option<Seq<char>>,
    pub heading_font_sizes: Seq<i32>,
}

impl View for DocumentContext {
    type V = ContextModel;

    open spec fn view(&self) -> ContextModel {
        ContextModel {
            page_count: self.page_count,
            body_font_size: match self.body_font_size {
                None => None,
                Some(size) => Some(size as int),
            },
            headers: texts(self.repeated_header_fingerprints@),
            footers: texts(self.repeated_footer_fingerprints@),
            page_number_pattern: match self.page_number_pattern {
                None => None,
                Some(pattern) => Some(pattern@),
            },
            heading_font_sizes: self.heading_font_sizes@,
        }
    }
}

/// Probes in the order of their pages.
#[derive(Debug, Clone, Copy, PartialEq, Eq, Structural)]
pub struct PageOrder;

impl Order<PageProbe> for PageOrder {
    open spec fn lt(&self, a: PageProbe, b: PageProbe) -> bool {
        a.page_number < b.page_number
    }

    proof fn is_strict_weak(&self, a: PageProbe, b: PageProbe, c: PageProbe) {
    }
}

impl Sorter<PageProbe> for PageOrder {
    fn precedes(&self, a: &PageProbe, b: &PageProbe) -> (yes: bool) {
        a.page_number < b.page_number
    }
}

/// Whether a probe states a page of the document and its size.
pub open spec fn is_valid_probe(probe: PageProbe, page_count: u32) -> bool {
    1 <= probe.page_number <= page_count && probe.width > 0 && probe.height > 0
}

/// How many facts of the first `n` pages have a size nearest to a step.
pub open spec fn total_upto(probes: Seq<PageProbe>, step: i32, n: int) -> nat
    decreases n,
{
    if n <= 0 {
        0
    } else {
        let histogram = probes[n - 1].font_size_histogram@;
        total_upto(probes, step, n - 1) + if histogram.contains_key(step) {
            histogram[step] as nat
        } else {
            0
        }
    }
}

/// How many facts of the document have a size nearest to a step.
pub open spec fn total_of(probes: Seq<PageProbe>, step: i32) -> nat {
    total_upto(probes, step, probes.len() as int)
}

/// Whether some page counts a step.
pub open spec fn occurs(probes: Seq<PageProbe>, step: i32) -> bool {
    exists|i: int|
        0 <= i < probes.len() && (#[trigger] probes[i]).font_size_histogram@.contains_key(step)
}

/// Whether a step has more facts than another, or as many and is no larger.
pub open spec fn prevails(probes: Seq<PageProbe>, a: i32, b: i32) -> bool {
    total_of(probes, a) > total_of(probes, b) || (total_of(probes, a) == total_of(probes, b) && a
        <= b)
}

/// Whether a step is that of the running text: the smallest of the most frequent.
pub open spec fn is_body(probes: Seq<PageProbe>, step: i32) -> bool {
    occurs(probes, step) && forall|other: i32| #[trigger]
        occurs(probes, other) ==> prevails(probes, step, other)
}

/// The step of the running text.
pub open spec fn body_step(probes: Seq<PageProbe>) -> Option<i32> {
    if exists|step: i32| is_body(probes, step) {
        Some(choose|step: i32| is_body(probes, step))
    } else {
        None
    }
}

/// The texts at the top or bottom of a page.
pub open spec fn chrome_of(probe: PageProbe, top: bool) -> Seq<Seq<char>> {
    texts(
        if top {
            probe.top_fingerprints@
        } else {
            probe.bottom_fingerprints@
        },
    )
}

/// The texts at the top or bottom of the first `n` pages.
pub open spec fn chrome_upto(probes: Seq<PageProbe>, top: bool, n: int) -> Seq<Seq<char>>
    decreases n,
{
    if n <= 0 {
        Seq::empty()
    } else {
        chrome_upto(probes, top, n - 1) + chrome_of(probes[n - 1], top)
    }
}

/// On how many of the first `n` pages a text stands at the top or bottom.
pub open spec fn pages_with(probes: Seq<PageProbe>, top: bool, text: Seq<char>, n: int) -> nat
    decreases n,
{
    if n <= 0 {
        0
    } else {
        pages_with(probes, top, text, n - 1) + if chrome_of(probes[n - 1], top).contains(text) {
            1nat
        } else {
            0
        }
    }
}

/// Whether a text stands on at least sixty percent of the pages, and on two.
pub open spec fn is_repeated(
    probes: Seq<PageProbe>,
    top: bool,
    text: Seq<char>,
    page_count: u32,
) -> bool {
    let count = pages_with(probes, top, text, probes.len() as int);
    count >= 2 && count * 5 >= page_count * 3
}

/// The repeated texts among the first `n` of a list.
pub open spec fn repeated_upto(
    probes: Seq<PageProbe>,
    top: bool,
    page_count: u32,
    list: Seq<Seq<char>>,
    n: int,
) -> Seq<Seq<char>>
    decreases n,
{
    if n <= 0 {
        Seq::empty()
    } else {
        let before = repeated_upto(probes, top, page_count, list, n - 1);
        if is_repeated(probes, top, list[n - 1], page_count) {
            before.push(list[n - 1])
        } else {
            before
        }
    }
}

/// The repeated texts at the top or bottom of pages, in order.
pub open spec fn repeated_chrome(probes: Seq<PageProbe>, top: bool, page_count: u32) -> Seq<
    Seq<char>,
> {
    let all = text_set(chrome_upto(probes, top, probes.len() as int));
    repeated_upto(probes, top, page_count, all, all.len() as int)
}

/// Whether every page names its own number.
pub open spec fn is_numbered(probes: Seq<PageProbe>) -> bool {
    forall|i: int|
        0 <= i < probes.len() ==> texts(
            (#[trigger] probes[i]).page_number_candidates@,
        ).contains(text_of_decimal((i + 1) as nat))
}

/// The title sizes of the first `n` pages above the running text.
pub open spec fn headings_upto(probes: Seq<PageProbe>, body: Option<i32>, n: int) -> Seq<i32>
    decreases n,
{
    if n <= 0 {
        Seq::empty()
    } else {
        headings_upto(probes, body, n - 1) + larger_upto(
            probes[n - 1].title_font_sizes@,
            body,
            probes[n - 1].title_font_sizes@.len() as int,
        )
    }
}

/// Those of the first `n` sizes that are above the running text.
pub open spec fn larger_upto(sizes: Seq<i32>, body: Option<i32>, n: int) -> Seq<i32>
    decreases n,
{
    if n <= 0 {
        Seq::empty()
    } else {
        let before = larger_upto(sizes, body, n - 1);
        if body is Some && sizes[n - 1] <= body->0 * SIZE_STEP {
            before
        } else {
            before.push(sizes[n - 1])
        }
    }
}

/// The context of a document whose probes are in the order of their pages.
pub open spec fn context_of(probes: Seq<PageProbe>, page_count: u32) -> ContextModel {
    let body = body_step(probes);
    ContextModel {
        page_count,
        body_font_size: match body {
            None => None,
            Some(step) => Some(step * SIZE_STEP),
        },
        headers: repeated_chrome(probes, true, page_count),
        footers: repeated_chrome(probes, false, page_count),
        page_number_pattern: if is_numbered(probes) {
            Some("sequential-arabic"@)
        } else {
            None
        },
        heading_font_sizes: deduped(
            sorted(headings_upto(probes, body, probes.len() as int), SizeOrder),
        ),
    }
}

/// Two steps of the running text are the same.
proof fn lemma_one_body(probes: Seq<PageProbe>, a: i32, b: i32)
    requires
        is_body(probes, a),
        is_body(probes, b),
    ensures
        a == b,
{
    assert(prevails(probes, a, b) && prevails(probes, b, a));
}

/// No page counts more than a number of 32 bits.
proof fn lemma_total(probes: Seq<PageProbe>, step: i32, n: int)
    requires
        0 <= n <= u32::MAX,
    ensures
        total_upto(probes, step, n) <= n * u32::MAX,
    decreases n,
{
    if n > 0 {
        lemma_total(probes, step, n - 1);
    }
}

/// The steps that a histogram counts.
fn list_steps(histogram: &BTreeMap<i32, u32>) -> (steps: Vec<i32>)
    ensures
        forall|step: i32| histogram@.contains_key(step) <==> #[trigger] steps@.contains(step),
{
    broadcast use vstd::std_specs::btree::group_btree_axioms;

    let mut steps: Vec<i32> = Vec::new();
    let ghost want: Seq<i32> = vstd::std_specs::btree::spec_keys_iter(histogram).remaining().unref();
    assert(want.to_set() == histogram@.dom());
    for step in it: histogram.keys()
        invariant
            it.seq().unref() == want,
            steps@ == want.take(it.index()),
    {
        steps.push(*step);
        assert(steps@ =~= want.take(it.index() + 1));
    }
    assert(want.take(want.len() as int) =~= want);
    assert forall|step: i32| histogram@.contains_key(step) <==> #[trigger] steps@.contains(
        step,
    ) by {
        assert(steps@.to_set().contains(step) == steps@.contains(step));
        assert(histogram@.dom().contains(step) == histogram@.contains_key(step));
    }
    steps
}

/// How many facts of the document have a size nearest to a step.
fn count_step(probes: &Vec<PageProbe>, step: i32) -> (total: u64)
    requires
        probes@.len() <= u32::MAX,
    ensures
        total == total_of(probes@, step),
{
    broadcast use vstd::std_specs::btree::group_btree_axioms;

    let mut total: u64 = 0;
    let mut i: usize = 0;
    while i < probes.len()
        invariant
            probes@.len() <= u32::MAX,
            i <= probes@.len(),
            total == total_upto(probes@, step, i as int),
        decreases probes@.len() - i,
    {
        proof {
            lemma_total(probes@, step, i + 1);
            assert((i + 1) * u32::MAX <= 0xFFFF_FFFF * 0xFFFF_FFFF) by (nonlinear_arith)
                requires
                    0 <= i < 0xFFFF_FFFF,
            ;
        }
        if let Some(count) = probes[i].font_size_histogram.get(&step) {
            total = total + *count as u64;
        }
        i = i + 1;
    }
    total
}

/// The step of the running text.
fn find_body(probes: &Vec<PageProbe>) -> (body: Option<i32>)
    requires
        probes@.len() <= u32::MAX,
    ensures
        body == body_step(probes@),
{
    let mut best: Option<(i32, u64)> = None;
    let mut i: usize = 0;
    while i < probes.len()
        invariant
            probes@.len() <= u32::MAX,
            i <= probes@.len(),
            match best {
                None => forall|p: int, step: i32|
                    0 <= p < i ==> !(#[trigger] probes@[p].font_size_histogram@.contains_key(step)),
                Some((best, count)) => count == total_of(probes@, best) && occurs(probes@, best)
                    && forall|p: int, step: i32|
                    0 <= p < i && (#[trigger] probes@[p].font_size_histogram@.contains_key(step))
                        ==> prevails(probes@, best, step),
            },
        decreases probes@.len() - i,
    {
        let steps: Vec<i32> = list_steps(&probes[i].font_size_histogram);
        let mut k: usize = 0;
        while k < steps.len()
            invariant
                probes@.len() <= u32::MAX,
                i < probes@.len(),
                k <= steps@.len(),
                forall|step: i32|
                    probes@[i as int].font_size_histogram@.contains_key(step)
                        <==> #[trigger] steps@.contains(step),
                match best {
                    None => k == 0 && forall|p: int, step: i32|
                        0 <= p < i ==> !(#[trigger] probes@[p].font_size_histogram@.contains_key(
                            step,
                        )),
                    Some((best, count)) => count == total_of(probes@, best) && occurs(
                        probes@,
                        best,
                    ) && (forall|p: int, step: i32|
                        0 <= p < i && (#[trigger] probes@[p].font_size_histogram@.contains_key(
                            step,
                        )) ==> prevails(probes@, best, step)) && (forall|q: int|
                        0 <= q < k ==> prevails(probes@, best, #[trigger] steps@[q])),
                },
            decreases steps@.len() - k,
        {
            let step: i32 = steps[k];
            let total: u64 = count_step(probes, step);
            assert(steps@.contains(steps@[k as int]));
            assert(probes@[i as int].font_size_histogram@.contains_key(step));
            assert(occurs(probes@, step));
            let better: bool = match best {
                None => true,
                Some((other, count)) => total > count || (total == count && step < other),
            };
            if better {
                best = Some((step, total));
            }
            k = k + 1;
        }
        proof {
            if let Some((b, count)) = best {
                assert forall|p: int, step: i32|
                    0 <= p < i + 1 && (#[trigger] probes@[p].font_size_histogram@.contains_key(
                        step,
                    )) implies prevails(probes@, b, step) by {
                    if p == i {
                        assert(steps@.contains(step));
                        let q = steps@.index_of(step);
                        assert(prevails(probes@, b, steps@[q]));
                    }
                }
            } else {
                assert forall|p: int, step: i32| 0 <= p < i + 1 implies !(
                #[trigger] probes@[p].font_size_histogram@.contains_key(step)) by {
                    if p == i {
                        assert(!steps@.contains(step));
                    }
                }
            }
        }
        i = i + 1;
    }
    match best {
        None => {
            assert(forall|step: i32| !occurs(probes@, step));
            None
        },
        Some((step, _)) => {
            proof {
                assert(is_body(probes@, step)) by {
                    assert forall|other: i32| #[trigger] occurs(probes@, other) implies prevails(
                        probes@,
                        step,
                        other,
                    ) by {
                        let p = choose|p: int|
                            0 <= p < probes@.len()
                                && (#[trigger] probes@[p]).font_size_histogram@.contains_key(other);
                        assert(probes@[p].font_size_histogram@.contains_key(other));
                    }
                }
                lemma_one_body(probes@, step, body_step(probes@)->0);
            }
            Some(step)
        },
    }
}

/// Whether a list holds a text.
fn has_text(list: &Vec<String>, text: &str) -> (yes: bool)
    ensures
        yes == texts(list@).contains(text@),
{
    let ghost all = texts(list@);
    let mut i: usize = 0;
    while i < list.len()
        invariant
            all == texts(list@),
            i <= list@.len(),
            forall|k: int| 0 <= k < i ==> #[trigger] all[k] != text@,
        decreases list@.len() - i,
    {
        assert(all[i as int] == list@[i as int]@);
        if str_same(list[i].as_str(), text) {
            assert(all.contains(all[i as int]));
            return true;
        }
        i = i + 1;
    }
    false
}

/// The repeated texts at the top or bottom of pages, in order.
fn find_chrome(probes: &Vec<PageProbe>, top: bool, page_count: u32) -> (kept: Vec<String>)
    requires
        probes@.len() <= u32::MAX,
    ensures
        texts(kept@) == repeated_chrome(probes@, top, page_count),
{
    let mut all: Vec<String> = Vec::new();
    assert(texts(all@) =~= Seq::empty());
    let mut i: usize = 0;
    while i < probes.len()
        invariant
            i <= probes@.len(),
            texts(all@) == chrome_upto(probes@, top, i as int),
        decreases probes@.len() - i,
    {
        let list: &Vec<String> = if top {
            &probes[i].top_fingerprints
        } else {
            &probes[i].bottom_fingerprints
        };
        let ghost before = texts(all@);
        let ghost more = texts(list@);
        let mut k: usize = 0;
        assert(more.take(0) =~= Seq::empty());
        while k < list.len()
            invariant
                more == texts(list@),
                k <= list@.len(),
                texts(all@) == before + more.take(k as int),
            decreases list@.len() - k,
        {
            push_to(&mut all, list[k].clone());
            assert(more[k as int] == list@[k as int]@);
            k = k + 1;
            assert(texts(all@) =~= before + more.take(k as int));
        }
        assert(more.take(list@.len() as int) =~= more);
        i = i + 1;
    }
    let candidates: Vec<String> = sort_texts(all);
    let ghost list = texts(candidates@);
    let mut kept: Vec<String> = Vec::new();
    assert(texts(kept@) =~= Seq::empty());
    let mut c: usize = 0;
    while c < candidates.len()
        invariant
            probes@.len() <= u32::MAX,
            list == texts(candidates@),
            c <= candidates@.len(),
            texts(kept@) == repeated_upto(probes@, top, page_count, list, c as int),
        decreases candidates@.len() - c,
    {
        let text: &str = candidates[c].as_str();
        assert(text@ == list[c as int]);
        let mut count: u64 = 0;
        let mut p: usize = 0;
        while p < probes.len()
            invariant
                probes@.len() <= u32::MAX,
                p <= probes@.len(),
                count <= p,
                count == pages_with(probes@, top, text@, p as int),
            decreases probes@.len() - p,
        {
            let held: bool = if top {
                has_text(&probes[p].top_fingerprints, text)
            } else {
                has_text(&probes[p].bottom_fingerprints, text)
            };
            if held {
                count = count + 1;
            }
            p = p + 1;
        }
        if count >= 2 && count * 5 >= page_count as u64 * 3 {
            push_to(&mut kept, candidates[c].clone());
        }
        c = c + 1;
    }
    kept
}

/// Whether every page names its own number.
fn names_numbers(probes: &Vec<PageProbe>) -> (yes: bool)
    ensures
        yes == is_numbered(probes@),
{
    let mut i: usize = 0;
    while i < probes.len()
        invariant
            i <= probes@.len(),
            forall|k: int|
                0 <= k < i ==> texts((#[trigger] probes@[k]).page_number_candidates@).contains(
                    text_of_decimal((k + 1) as nat),
                ),
        decreases probes@.len() - i,
    {
        let mut number: String = String::new();
        push_decimal(&mut number, i as u64 + 1);
        assert(number@ =~= text_of_decimal((i + 1) as nat));
        if !has_text(&probes[i].page_number_candidates, number.as_str()) {
            assert(!texts(probes@[i as int].page_number_candidates@).contains(
                text_of_decimal((i + 1) as nat),
            ));
            return false;
        }
        i = i + 1;
    }
    true
}

/// The title sizes above the running text.
fn find_headings(probes: &Vec<PageProbe>, body: Option<i32>) -> (sizes: Vec<i32>)
    ensures
        sizes@ == headings_upto(probes@, body, probes@.len() as int),
{
    let mut sizes: Vec<i32> = Vec::new();
    let mut i: usize = 0;
    while i < probes.len()
        invariant
            i <= probes@.len(),
            sizes@ == headings_upto(probes@, body, i as int),
        decreases probes@.len() - i,
    {
        let titles: &Vec<i32> = &probes[i].title_font_sizes;
        let ghost before = sizes@;
        let mut k: usize = 0;
        assert(sizes@ =~= before + larger_upto(titles@, body, 0));
        while k < titles.len()
            invariant
                k <= titles@.len(),
                sizes@ == before + larger_upto(titles@, body, k as int),
            decreases titles@.len() - k,
        {
            let size: i32 = titles[k];
            let small: bool = match body {
                None => false,
                Some(step) => size as i64 <= step as i64 * SIZE_STEP as i64,
            };
            k = k + 1;
            if !small {
                sizes.push(size);
            }
            assert(sizes@ =~= before + larger_upto(titles@, body, k as int));
        }
        i = i + 1;
    }
    sizes
}

/// Collects page probes and freezes deterministic document-wide context.
#[derive(Debug)]
pub struct DocumentContextBuilder {
    pub page_count: u32,
    pub probes: Vec<PageProbe>,
    pub metadata: Vec<(String, String)>,
    pub model_revision: Option<String>,
}

impl DocumentContextBuilder {
    /// Whether every probe is valid and no page has two.
    pub open spec fn wf(self) -> bool {
        &&& forall|i: int|
            0 <= i < self.probes@.len() ==> is_valid_probe(
                #[trigger] self.probes@[i],
                self.page_count,
            )
        &&& forall|i: int, j: int|
            #![trigger self.probes@[i], self.probes@[j]]
            0 <= i < j < self.probes@.len() ==> self.probes@[i].page_number
                != self.probes@[j].page_number
    }

    /// An empty collector for an exact document page count.
    pub fn new(page_count: u32) -> (builder: DocumentContextBuilder)
        ensures
            builder.wf(),
            builder.page_count == page_count,
            builder.probes@.len() == 0,
            builder.metadata@.len() == 0,
            builder.model_revision is None,
    {
        DocumentContextBuilder {
            page_count,
            probes: Vec::new(),
            metadata: Vec::new(),
            model_revision: None,
        }
    }

    /// Adds one validated page probe without accepting duplicate page numbers.
    pub fn push_page(&mut self, probe: PageProbe) -> (pushed: Result<(), ContextError>)
        requires
            old(self).wf(),
        ensures
            final(self).wf(),
            final(self).page_count == old(self).page_count,
            final(self).metadata == old(self).metadata,
            final(self).model_revision == old(self).model_revision,
            ({
                let known = exists|i: int|
                    0 <= i < old(self).probes@.len() && (#[trigger] old(self).probes@[i]).page_number
                        == probe.page_number;
                match pushed {
                    Ok(()) => is_valid_probe(probe, old(self).page_count) && !known && final(self).probes@ == old(self).probes@.push(probe),
                    Err(ContextError::InvalidProbe { page_number, reason }) => !is_valid_probe(
                        probe,
                        old(self).page_count,
                    ) && page_number == probe.page_number && reason@
                        == "page number and dimensions must be valid"@ && final(self).probes
                        == old(self).probes,
                    Err(ContextError::DuplicatePage { page_number }) => is_valid_probe(
                        probe,
                        old(self).page_count,
                    ) && known && page_number == probe.page_number && final(self).probes == old(self).probes,
                    Err(_) => false,
                }
            }),
    {
        let page_number: u32 = probe.page_number;
        if page_number == 0 || page_number > self.page_count || probe.width <= 0 || probe.height
            <= 0 {
            let mut reason: String = String::new();
            push_text(&mut reason, "page number and dimensions must be valid");
            assert(reason@ =~= "page number and dimensions must be valid"@);
            return Err(ContextError::InvalidProbe { page_number, reason });
        }
        let mut i: usize = 0;
        while i < self.probes.len()
            invariant
                *self == *old(self),
                page_number == probe.page_number,
                is_valid_probe(probe, self.page_count),
                self.wf(),
                i <= self.probes@.len(),
                forall|k: int|
                    0 <= k < i ==> (#[trigger] self.probes@[k]).page_number != page_number,
            decreases self.probes@.len() - i,
        {
            if self.probes[i].page_number == page_number {
                assert(old(self).probes@[i as int].page_number == page_number);
                return Err(ContextError::DuplicatePage { page_number });
            }
            i = i + 1;
        }
        self.probes.push(probe);
        Ok(())
    }

    /// Sorts all probes and freezes aggregate font, chrome, and numbering facts.
    pub fn build(self) -> (context: Result<DocumentContext, ContextError>)
        requires
            self.wf(),
        ensures
            match context {
                Ok(built) => self.probes@.len() == self.page_count && built@ == context_of(
                    sorted(self.probes@, PageOrder),
                    self.page_count,
                ) && built.model_revision == self.model_revision && built.metadata
                    == self.metadata,
                Err(error) => self.probes@.len() != self.page_count && error == (
                ContextError::ProbeCount {
                    expected: self.page_count,
                    actual: self.probes@.len() as usize,
                }),
            },
    {
        let actual: usize = self.probes.len();
        if actual as u64 != self.page_count as u64 {
            return Err(ContextError::ProbeCount { expected: self.page_count, actual });
        }
        proof {
            sorting_orders_and_keeps(self.probes@, PageOrder);
        }
        let probes: Vec<PageProbe> = sort(self.probes, &PageOrder);
        let body: Option<i32> = find_body(&probes);
        let headers: Vec<String> = find_chrome(&probes, true, self.page_count);
        let footers: Vec<String> = find_chrome(&probes, false, self.page_count);
        let page_number_pattern: Option<String> = if names_numbers(&probes) {
            let mut pattern: String = String::new();
            push_text(&mut pattern, "sequential-arabic");
            assert(pattern@ =~= "sequential-arabic"@);
            Some(pattern)
        } else {
            None
        };
        let heading_font_sizes: Vec<i32> = sort_sizes(find_headings(&probes, body));
        let context = DocumentContext {
            page_count: self.page_count,
            body_font_size: match body {
                None => None,
                Some(step) => Some(step as i64 * SIZE_STEP as i64),
            },
            repeated_header_fingerprints: headers,
            repeated_footer_fingerprints: footers,
            page_number_pattern,
            heading_font_sizes,
            model_revision: self.model_revision,
            metadata: self.metadata,
        };
        assert(context@ =~= context_of(probes@, self.page_count));
        Ok(context)
    }
}

/// The context of a document does not depend on the order in which its pages
/// were probed.
pub proof fn context_forgets_arrival(a: Seq<PageProbe>, b: Seq<PageProbe>, page_count: u32)
    requires
        a.to_multiset() == b.to_multiset(),
        forall|i: int, j: int|
            #![trigger a[i], a[j]]
            0 <= i < j < a.len() ==> a[i].page_number != a[j].page_number,
    ensures
        context_of(sorted(a, PageOrder), page_count) == context_of(
            sorted(b, PageOrder),
            page_count,
        ),
{
    sorting_forgets_arrival(a, b, PageOrder);
}

} // verus!
