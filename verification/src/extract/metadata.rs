//! Page-level statistics that freeze the context of a document.

use std::collections::BTreeMap;
use vstd::prelude::*;

use crate::chars::{alphanumeric, chars_of, lowercase, lowered, trim, trim_of};
use crate::geometry::Bbox;
use crate::sorting::{deduped, deduped_upto, sort, sorted, Order, Sorter};
use crate::texts::{push_to, sort_texts, text_set, texts};
use crate::types::TextItem;

verus! {

/// Least font size of a title, in units.
pub const TITLE_SIZE: i32 = 120_000;

/// Units in one step of the font-size histogram.
pub const SIZE_STEP: i32 = 1_000;

/// What was read from one page.
#[derive(Debug)]
pub struct ExtractedPage {
    pub page_number: u32,
    pub width: i32,
    pub height: i32,
    pub rotation: i32,
    pub content_bounds: Option<Bbox>,
    pub text_items: Vec<TextItem>,
}

/// Lightweight page-level facts used to freeze document context before rendering.
///
/// The histogram counts facts by font size in tenths of a point.
#[derive(Debug)]
pub struct PageProbe {
    pub page_number: u32,
    pub width: i32,
    pub height: i32,
    pub rotation: i32,
    pub content_bounds: Option<Bbox>,
    pub font_size_histogram: BTreeMap<i32, u32>,
    pub top_fingerprints: Vec<String>,
    pub bottom_fingerprints: Vec<String>,
    pub page_number_candidates: Vec<String>,
    pub title_font_sizes: Vec<i32>,
}

/// Sizes from small to large.
#[derive(Debug, Clone, Copy, PartialEq, Eq, Structural)]
pub struct SizeOrder;

impl Order<i32> for SizeOrder {
    open spec fn lt(&self, a: i32, b: i32) -> bool {
        a < b
    }

    proof fn is_strict_weak(&self, a: i32, b: i32, c: i32) {
    }
}

impl Sorter<i32> for SizeOrder {
    fn precedes(&self, a: &i32, b: &i32) -> (yes: bool) {
        *a < *b
    }
}

/// Sizes in order and without repetition.
pub fn sort_sizes(sizes: Vec<i32>) -> (kept: Vec<i32>)
    ensures
        kept@ == deduped(sorted(sizes@, SizeOrder)),
{
    let ordered: Vec<i32> = sort(sizes, &SizeOrder);
    let mut kept: Vec<i32> = Vec::new();
    let mut i: usize = 0;
    while i < ordered.len()
        invariant
            i <= ordered@.len(),
            kept@ == deduped_upto(ordered@, i as int),
        decreases ordered@.len() - i,
    {
        let last: usize = kept.len();
        if last == 0 || kept[last - 1] != ordered[i] {
            kept.push(ordered[i]);
        }
        i = i + 1;
    }
    kept
}

/// The text of a fact as it is compared between pages.
pub open spec fn fingerprint(text: Seq<char>) -> Seq<char> {
    lowered(trim_of(text))
}

/// Whether a fact counts: it is no watermark and not blank.
pub open spec fn counts(item: TextItem) -> bool {
    !item.watermark && fingerprint(item.raw_text@).len() > 0
}

/// Whether a text holds a letter or a digit.
pub open spec fn meaningful(text: Seq<char>) -> bool {
    exists|i: int| 0 <= i < text.len() && alphanumeric(#[trigger] text[i])
}

/// Whether a text is made of decimal digits alone.
pub open spec fn is_numeral(text: Seq<char>) -> bool {
    forall|i: int| 0 <= i < text.len() ==> '0' <= #[trigger] text[i] <= '9'
}

/// Which list of texts a fact goes to.
#[derive(Debug, Clone, Copy, PartialEq, Eq, Structural)]
pub enum Collected {
    Top,
    Bottom,
    Number,
}

/// Whether a fact goes to a list.
pub open spec fn is_collected(page: ExtractedPage, item: TextItem, list: Collected) -> bool {
    counts(item) && match list {
        Collected::Top => meaningful(fingerprint(item.raw_text@)) && 100 * item.bbox.top <= 15
            * page.height,
        Collected::Bottom => meaningful(fingerprint(item.raw_text@)) && 100 * item.bbox.bottom
            >= 85 * page.height,
        Collected::Number => is_numeral(fingerprint(item.raw_text@)),
    }
}

/// The texts of the first `n` facts that go to a list.
pub open spec fn collected_upto(page: ExtractedPage, list: Collected, n: int) -> Seq<Seq<char>>
    decreases n,
{
    if n <= 0 {
        Seq::empty()
    } else {
        let item = page.text_items@[n - 1];
        if is_collected(page, item, list) {
            collected_upto(page, list, n - 1).push(fingerprint(item.raw_text@))
        } else {
            collected_upto(page, list, n - 1)
        }
    }
}

/// The texts of a page that go to a list, in order and without repetition.
pub open spec fn collected(page: ExtractedPage, list: Collected) -> Seq<Seq<char>> {
    text_set(collected_upto(page, list, page.text_items@.len() as int))
}

/// The font size of a fact, where it counts and states a positive one.
pub open spec fn stated_size(item: TextItem) -> Option<i32> {
    match item.size() {
        None => None,
        Some(size) => if counts(item) && size > 0 {
            Some(size)
        } else {
            None
        },
    }
}

/// The step of the histogram nearest to a size; halves go up.
pub open spec fn size_step(size: i32) -> i32 {
    ((size + SIZE_STEP / 2) / SIZE_STEP as int) as i32
}

/// How many of the first `n` facts have a size nearest to a step.
pub open spec fn sized_upto(items: Seq<TextItem>, step: i32, n: int) -> nat
    decreases n,
{
    if n <= 0 {
        0
    } else {
        sized_upto(items, step, n - 1) + if stated_size(items[n - 1]) matches Some(size)
            && size_step(size) == step {
            1nat
        } else {
            0
        }
    }
}

/// The sizes of the first `n` facts that could be titles.
pub open spec fn titles_upto(items: Seq<TextItem>, n: int) -> Seq<i32>
    decreases n,
{
    if n <= 0 {
        Seq::empty()
    } else {
        match stated_size(items[n - 1]) {
            Some(size) => if size >= TITLE_SIZE {
                titles_upto(items, n - 1).push(size)
            } else {
                titles_upto(items, n - 1)
            },
            None => titles_upto(items, n - 1),
        }
    }
}

/// Whether a histogram counts the first `n` facts.
pub open spec fn tallies(histogram: Map<i32, u32>, items: Seq<TextItem>, n: int) -> bool {
    forall|step: i32|
        #![trigger histogram.contains_key(step)]
        (histogram.contains_key(step) <==> sized_upto(items, step, n) > 0) && (
        histogram.contains_key(step) ==> histogram[step] == sized_upto(items, step, n))
}

/// Whether a text holds a letter or a digit.
fn is_meaningful(text: &str) -> (yes: bool)
    ensures
        yes == meaningful(text@),
{
    let all: Vec<char> = chars_of(text);
    let mut i: usize = 0;
    while i < all.len()
        invariant
            i <= all@.len(),
            all@ == text@,
            forall|k: int| 0 <= k < i ==> !alphanumeric(#[trigger] all@[k]),
        decreases all@.len() - i,
    {
        if all[i].is_alphanumeric() {
            assert(alphanumeric(text@[i as int]));
            return true;
        }
        i = i + 1;
    }
    false
}

/// Whether a text is made of decimal digits alone.
fn is_number(text: &str) -> (yes: bool)
    ensures
        yes == is_numeral(text@),
{
    let all: Vec<char> = chars_of(text);
    let mut i: usize = 0;
    while i < all.len()
        invariant
            i <= all@.len(),
            all@ == text@,
            forall|k: int| 0 <= k < i ==> '0' <= #[trigger] all@[k] <= '9',
        decreases all@.len() - i,
    {
        if all[i] < '0' || all[i] > '9' {
            assert(!('0' <= text@[i as int] <= '9'));
            return false;
        }
        i = i + 1;
    }
    true
}

/// The text of a fact as it is compared between pages, unless it does not count.
fn find_fingerprint(item: &TextItem) -> (text: Option<String>)
    ensures
        match text {
            None => !counts(*item),
            Some(found) => counts(*item) && found@ == fingerprint(item.raw_text@),
        },
{
    if item.watermark {
        return None;
    }
    let raw: String = item.raw_text.to_text();
    let text: String = lowercase(trim(raw.as_str()));
    if text.as_str().unicode_len() == 0 {
        None
    } else {
        Some(text)
    }
}

/// Counts one more fact of a size.
fn tally(histogram: &mut BTreeMap<i32, u32>, step: i32, Ghost(items): Ghost<Seq<TextItem>>, Ghost(n):
    Ghost<int>)
    requires
        0 < n <= items.len() <= u32::MAX,
        tallies(old(histogram)@, items, n - 1),
        stated_size(items[n - 1]) is Some,
        size_step(stated_size(items[n - 1])->0) == step,
    ensures
        tallies(final(histogram)@, items, n),
{
    broadcast use vstd::std_specs::btree::group_btree_axioms;

    proof {
        lemma_sized(items, step, n - 1);
    }
    let ghost before = histogram@;
    let count: u32 = match histogram.get(&step) {
        None => 0,
        Some(count) => *count,
    };
    assert(before.contains_key(step) ==> count == before[step]);
    assert(!before.contains_key(step) ==> count == 0);
    assert(count == sized_upto(items, step, n - 1));
    histogram.insert(step, count + 1);
    assert(histogram@ == before.insert(step, (count + 1) as u32));
    assert forall|other: i32| #![trigger histogram@.contains_key(other)] (histogram@.contains_key(
        other,
    ) <==> sized_upto(items, other, n) > 0) && (histogram@.contains_key(other)
        ==> histogram@[other] == sized_upto(items, other, n)) by {
        if other != step {
            assert(histogram@.contains_key(other) == before.contains_key(other));
        }
    }
}

/// No more facts have a size than there are.
proof fn lemma_sized(items: Seq<TextItem>, step: i32, n: int)
    requires
        0 <= n,
    ensures
        sized_upto(items, step, n) <= n,
    decreases n,
{
    if n > 0 {
        lemma_sized(items, step, n - 1);
    }
}

impl PageProbe {
    /// Whether the statistics are those of a page, whatever its number.
    pub open spec fn reads(self, page: ExtractedPage) -> bool {
        &&& self.width == page.width
        &&& self.height == page.height
        &&& self.rotation == page.rotation
        &&& self.content_bounds == page.content_bounds
        &&& tallies(
            self.font_size_histogram@,
            page.text_items@,
            page.text_items@.len() as int,
        )
        &&& texts(self.top_fingerprints@) == collected(page, Collected::Top)
        &&& texts(self.bottom_fingerprints@) == collected(page, Collected::Bottom)
        &&& texts(self.page_number_candidates@) == collected(page, Collected::Number)
        &&& self.title_font_sizes@ == deduped(
            sorted(titles_upto(page.text_items@, page.text_items@.len() as int), SizeOrder),
        )
    }

    /// Derives deterministic lightweight statistics without retaining pixels.
    pub fn new(page: &ExtractedPage) -> (probe: PageProbe)
        requires
            page.text_items@.len() <= u32::MAX,
        ensures
            probe.page_number == page.page_number,
            probe.reads(*page),
    {
        broadcast use vstd::std_specs::btree::group_btree_axioms;

        let mut histogram: BTreeMap<i32, u32> = BTreeMap::new();
        let mut top: Vec<String> = Vec::new();
        let mut bottom: Vec<String> = Vec::new();
        let mut numbers: Vec<String> = Vec::new();
        let mut titles: Vec<i32> = Vec::new();
        assert(texts(top@) =~= Seq::empty());
        let mut i: usize = 0;
        while i < page.text_items.len()
            invariant
                page.text_items@.len() <= u32::MAX,
                i <= page.text_items@.len(),
                tallies(histogram@, page.text_items@, i as int),
                texts(top@) == collected_upto(*page, Collected::Top, i as int),
                texts(bottom@) == collected_upto(*page, Collected::Bottom, i as int),
                texts(numbers@) == collected_upto(*page, Collected::Number, i as int),
                titles@ == titles_upto(page.text_items@, i as int),
            decreases page.text_items@.len() - i,
        {
            let item: &TextItem = &page.text_items[i];
            i = i + 1;
            if let Some(text) = find_fingerprint(item) {
                if is_meaningful(text.as_str()) {
                    if 100 * (item.bbox.top as i64) <= 15 * (page.height as i64) {
                        push_to(&mut top, text.clone());
                    }
                    if 100 * (item.bbox.bottom as i64) >= 85 * (page.height as i64) {
                        push_to(&mut bottom, text.clone());
                    }
                }
                if is_number(text.as_str()) {
                    push_to(&mut numbers, text);
                }
                if let Some(size) = item.font_size() {
                    if size > 0 {
                        let step: i32 = ((size as i64 + (SIZE_STEP as i64) / 2) / (SIZE_STEP
                            as i64)) as i32;
                        tally(&mut histogram, step, Ghost(page.text_items@), Ghost(i as int));
                        if size >= TITLE_SIZE {
                            titles.push(size);
                        }
                    }
                }
            }
            assert(tallies(histogram@, page.text_items@, i as int));
        }
        PageProbe {
            page_number: page.page_number,
            width: page.width,
            height: page.height,
            rotation: page.rotation,
            content_bounds: page.content_bounds,
            font_size_histogram: histogram,
            top_fingerprints: sort_texts(top),
            bottom_fingerprints: sort_texts(bottom),
            page_number_candidates: sort_texts(numbers),
            title_font_sizes: sort_sizes(titles),
        }
    }
}

} // verus!
