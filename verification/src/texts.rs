//! Lists of texts without repetition.

use vstd::prelude::*;

use crate::chars::{str_before, str_same, text_before, text_order_is_strict_weak, text_order_is_total};
use crate::sorting::{
    deduped, deduped_upto, is_ordered, lemma_sorted_seen, sort, sorted, sorting_orders_and_keeps,
    Order, Sorter,
};

verus! {

/// Texts in the order of their bytes.
pub struct TextOrder;

impl Order<Seq<char>> for TextOrder {
    open spec fn lt(&self, a: Seq<char>, b: Seq<char>) -> bool {
        text_before(a, b)
    }

    proof fn is_strict_weak(&self, a: Seq<char>, b: Seq<char>, c: Seq<char>) {
        text_order_is_strict_weak(a, b, c);
    }
}

impl Order<String> for TextOrder {
    open spec fn lt(&self, a: String, b: String) -> bool {
        text_before(a@, b@)
    }

    proof fn is_strict_weak(&self, a: String, b: String, c: String) {
        text_order_is_strict_weak(a@, b@, c@);
    }
}

impl Sorter<String> for TextOrder {
    fn precedes(&self, a: &String, b: &String) -> (yes: bool) {
        str_before(a.as_str(), b.as_str())
    }
}

/// What a list of texts says.
pub open spec fn texts(list: Seq<String>) -> Seq<Seq<char>> {
    list.map_values(|t: String| t@)
}

/// Texts in order and without repetition.
pub open spec fn text_set(list: Seq<Seq<char>>) -> Seq<Seq<char>> {
    deduped(sorted(list, TextOrder))
}

/// Puts texts in order and drops repetitions.
pub fn sort_texts(list: Vec<String>) -> (kept: Vec<String>)
    ensures
        texts(kept@) == text_set(texts(list@)),
{
    proof {
        lemma_sorted_seen(
            list@,
            list@.len() as int,
            |t: String| t@,
            TextOrder,
            TextOrder,
        );
    }
    let ordered: Vec<String> = sort(list, &TextOrder);
    let ghost all = texts(ordered@);
    let mut kept: Vec<String> = Vec::new();
    let mut i: usize = 0;
    assert(texts(kept@) =~= Seq::empty());
    while i < ordered.len()
        invariant
            all == texts(ordered@),
            i <= ordered@.len(),
            texts(kept@) == deduped_upto(all, i as int),
        decreases ordered@.len() - i,
    {
        let last: usize = kept.len();
        assert(all[i as int] == ordered@[i as int]@);
        assert(texts(kept@).len() == kept@.len());
        let repeated: bool = last > 0 && str_same(kept[last - 1].as_str(), ordered[i].as_str());
        proof {
            if last > 0 {
                assert(texts(kept@).last() == kept@[last - 1]@);
            }
        }
        if !repeated {
            let ghost before = kept@;
            kept.push(ordered[i].clone());
            assert(texts(kept@) =~= texts(before).push(ordered@[i as int]@));
        }
        i = i + 1;
    }
    kept
}

/// Appends a text.
pub fn push_to(list: &mut Vec<String>, text: String)
    ensures
        texts(final(list)@) == texts(old(list)@).push(text@),
{
    let ghost before = list@;
    list.push(text);
    assert(texts(list@) =~= texts(before).push(text@));
}

/// Texts are strictly ascending once in order and without repetition.
pub proof fn text_sets_ascend(list: Seq<Seq<char>>)
    ensures
        forall|i: int, j: int|
            #![trigger text_set(list)[i], text_set(list)[j]]
            0 <= i < j < text_set(list).len() ==> text_before(text_set(list)[i], text_set(list)[j]),
{
    sorting_orders_and_keeps(list, TextOrder);
    lemma_deduped_ascends(sorted(list, TextOrder), sorted(list, TextOrder).len() as int);
}

proof fn lemma_deduped_ascends(s: Seq<Seq<char>>, n: int)
    requires
        0 <= n <= s.len(),
        is_ordered(s, TextOrder),
    ensures
        forall|i: int, j: int|
            #![trigger deduped_upto(s, n)[i], deduped_upto(s, n)[j]]
            0 <= i < j < deduped_upto(s, n).len() ==> text_before(
                deduped_upto(s, n)[i],
                deduped_upto(s, n)[j],
            ),
        forall|i: int|
            #![trigger deduped_upto(s, n)[i]]
            0 <= i < deduped_upto(s, n).len() ==> exists|k: int|
                0 <= k < n && s[k] == deduped_upto(s, n)[i],
        n > 0 ==> deduped_upto(s, n).len() > 0 && deduped_upto(s, n).last() == s[n - 1],
    decreases n,
{
    if n > 0 {
        lemma_deduped_ascends(s, n - 1);
        let before = deduped_upto(s, n - 1);
        let after = deduped_upto(s, n);
        let x = s[n - 1];
        if before.len() > 0 && before.last() == x {
        } else {
            assert(after == before.push(x));
            assert forall|i: int, j: int|
                #![trigger after[i], after[j]]
                0 <= i < j < after.len() implies text_before(after[i], after[j]) by {
                assert(after[i] == before[i]);
                if j < before.len() {
                    assert(after[j] == before[j]);
                    assert(text_before(before[i], before[j]));
                } else {
                    let last = before.last();
                    assert(last == s[n - 2]);
                    assert(!text_before(s[n - 1], s[n - 2]));
                    text_order_is_total(last, x);
                    assert(text_before(last, x));
                    if i < before.len() - 1 {
                        assert(text_before(before[i], before[before.len() - 1]));
                        text_order_is_strict_weak(before[i], last, x);
                    }
                }
            }
        }
        assert forall|i: int| #![trigger after[i]] 0 <= i < after.len() implies exists|k: int|
            0 <= k < n && s[k] == after[i] by {
            if i < before.len() {
                assert(after[i] == before[i]);
                let k = choose|k: int| 0 <= k < n - 1 && s[k] == before[i];
                assert(s[k] == after[i]);
            } else {
                assert(s[n - 1] == after[i]);
            }
        }
    }
}

} // verus!
