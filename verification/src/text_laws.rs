//! What texts, numbers and blanks have to do with each other.

use vstd::prelude::*;
use vstd::utf8::*;

use crate::chars::{
    bytes_before, digit, ink, ink_upto, is_space, lemma_trimmed_end, lemma_trimmed_start,
    text_before, text_of_decimal, trim_end_of, trim_of, trimmed_end, trimmed_start,
};
use crate::fusion::model_edges::{marked, region_place};
use crate::numerals::{decimal_value, fraction_digits, leading_digits, spelled_number};

verus! {

/// A text without blanks at its ends is what lies between blanks, and has none at either end.
pub proof fn trimming_takes_only_blanks(s: Seq<char>) -> (cut: (int, int))
    ensures
        0 <= cut.0 <= cut.1 <= s.len(),
        trim_of(s) == s.subrange(cut.0, cut.1),
        forall|k: int| 0 <= k < cut.0 || cut.1 <= k < s.len() ==> is_space(#[trigger] s[k]),
        trim_of(s).len() > 0 ==> !is_space(trim_of(s)[0]) && !is_space(
            trim_of(s)[trim_of(s).len() - 1],
        ),
        trim_end_of(s) == s.take(cut.1),
{
    let end = trimmed_end(s, s.len() as int);
    lemma_trimmed_end(s, s.len() as int);
    let start = trimmed_start(s, 0, end);
    lemma_trimmed_start(s, 0, end);
    if start == end {
        assert(trim_of(s) =~= s.subrange(end, end));
        assert forall|k: int| 0 <= k < start || end <= k < s.len() implies is_space(
            #[trigger] s[k],
        ) by {}
        (end, end)
    } else {
        (start, end)
    }
}

/// Blanks are the tab, the line and page breaks, the space, the hard space and the spaces of
/// other scripts; no letter, digit or mark of ASCII is one.
pub proof fn blanks_show_nothing(c: char)
    ensures
        is_space(c) <==> c == '\u{9}' || c == '\u{A}' || c == '\u{B}' || c == '\u{C}' || c == '\u{D}'
            || c == ' ' || c == '\u{85}' || c == '\u{A0}' || c == '\u{1680}' || ('\u{2000}' <= c
            && c <= '\u{200A}') || c == '\u{2028}' || c == '\u{2029}' || c == '\u{202F}' || c
            == '\u{205F}' || c == '\u{3000}',
{
}

/// One text stands before another where the first byte that differs is smaller, or where the
/// other goes on behind its end.
pub proof fn texts_differ_at_their_first_byte(a: Seq<char>, b: Seq<char>, k: int)
    requires
        0 <= k <= encode_utf8(a).len(),
        k <= encode_utf8(b).len(),
        forall|i: int| 0 <= i < k ==> #[trigger] encode_utf8(a)[i] == encode_utf8(b)[i],
    ensures
        k == encode_utf8(a).len() && k < encode_utf8(b).len() ==> text_before(a, b),
        k == encode_utf8(b).len() ==> !text_before(a, b),
        k < encode_utf8(a).len() && k < encode_utf8(b).len() && encode_utf8(a)[k] != encode_utf8(
            b,
        )[k] ==> (text_before(a, b) <==> encode_utf8(a)[k] < encode_utf8(b)[k]),
{
    lemma_agree(encode_utf8(a), encode_utf8(b), 0, k);
}

proof fn lemma_agree(a: Seq<u8>, b: Seq<u8>, i: int, k: int)
    requires
        0 <= i <= k <= a.len(),
        k <= b.len(),
        forall|j: int| 0 <= j < k ==> #[trigger] a[j] == b[j],
    ensures
        bytes_before(a, b, i) == bytes_before(a, b, k),
    decreases k - i,
{
    if i < k {
        lemma_agree(a, b, i + 1, k);
    }
}

/// The value of digits before another digit is a tenth of theirs.
proof fn lemma_value_prefix(s: Seq<char>, t: Seq<char>, n: int)
    requires
        0 <= n <= s.len(),
        n <= t.len(),
        forall|k: int| 0 <= k < n ==> s[k] == t[k],
    ensures
        decimal_value(s, n) == decimal_value(t, n),
    decreases n,
{
    if n > 0 {
        lemma_value_prefix(s, t, n - 1);
    }
}

proof fn lemma_decimal_value(n: nat)
    ensures
        decimal_value(text_of_decimal(n), text_of_decimal(n).len() as int) == Some(n),
        text_of_decimal(n).len() > 0,
        '0' <= text_of_decimal(n)[0] <= '9',
        n > 0 ==> text_of_decimal(n)[0] != '0',
    decreases n,
{
    let s = text_of_decimal(n);
    if n < 10 {
        assert(decimal_value(s, 0) == Some(0nat));
        assert(s[0] == digit(n));
    } else {
        let head = text_of_decimal(n / 10);
        lemma_decimal_value(n / 10);
        lemma_value_prefix(head, s, head.len() as int);
        assert(s[head.len() as int] == digit(n % 10));
    }
}

/// A number reads back from its spelling, which has no needless zeros.
pub proof fn numbers_read_back(n: nat)
    requires
        n <= 0xFFFF_FFFF,
    ensures
        spelled_number(text_of_decimal(n)) == Some(n),
        spelled_number("+"@ + text_of_decimal(n)) == Some(n),
        n > 0 ==> text_of_decimal(n)[0] != '0',
        n == 0 ==> text_of_decimal(n).len() == 1,
{
    let s = text_of_decimal(n);
    lemma_decimal_value(n);
    assert(s.skip(0) =~= s);
    reveal_strlit("+");
    let t = "+"@ + s;
    assert(t[0] == '+');
    assert(t.skip(1) =~= s);
}

/// A text without a digit at some place, or without any, spells no number.
pub proof fn only_digits_spell_numbers(s: Seq<char>, k: int)
    requires
        1 <= k < s.len(),
        !('0' <= s[k] && s[k] <= '9'),
    ensures
        spelled_number(s) is None,
        spelled_number(Seq::empty()) is None,
{
    let start = if s.len() > 0 && s[0] == '+' {
        1int
    } else {
        0
    };
    let digits = s.skip(start);
    assert(digits[k - start] == s[k]);
    lemma_no_value(digits, k - start, digits.len() as int);
    let none = Seq::<char>::empty();
    assert(none.skip(0) =~= none);
}

proof fn lemma_no_value(s: Seq<char>, k: int, n: int)
    requires
        0 <= k < n <= s.len(),
        !('0' <= s[k] && s[k] <= '9'),
    ensures
        decimal_value(s, n) is None,
    decreases n,
{
    if k < n - 1 {
        lemma_no_value(s, k, n - 1);
    }
}

/// What follows a mark is what stands behind the first colon before it.
pub proof fn marks_are_found_where_they_stand(head: Seq<char>, mark: char, tail: Seq<char>)
    requires
        forall|k: int|
            0 <= k < head.len() ==> !(#[trigger] head[k] == ':' && (k + 1 < head.len()
                ==> head[k + 1] == mark) && (k + 1 == head.len() ==> mark == ':')),
    ensures
        marked(head + seq![':', mark] + tail, mark, 0) == Some(tail),
{
    let s = head + seq![':', mark] + tail;
    lemma_marked(s, mark, 0, head.len() as int);
    assert(s.skip(head.len() as int + 2) =~= tail);
}

proof fn lemma_marked(s: Seq<char>, mark: char, i: int, k: int)
    requires
        0 <= i <= k,
        k + 1 < s.len(),
        s[k] == ':' && s[k + 1] == mark,
        forall|j: int| i <= j < k ==> !(#[trigger] s[j] == ':' && s[j + 1] == mark),
    ensures
        marked(s, mark, i) == Some(s.skip(k + 2)),
    decreases k - i,
{
    if i < k {
        assert(!(s[i] == ':' && s[i + 1] == mark));
        lemma_marked(s, mark, i + 1, k);
    }
}

/// The place of a detected region reads back from its identity.
pub proof fn region_places_read_back(head: Seq<char>, n: nat)
    requires
        n <= 0xFFFF_FFFF,
        forall|k: int| 0 <= k < head.len() ==> #[trigger] head[k] != ':',
    ensures
        region_place(head + seq![':', 'm'] + text_of_decimal(n)) == n,
{
    marks_are_found_where_they_stand(head, 'm', text_of_decimal(n));
    numbers_read_back(n);
}

/// Every character counts as ink, but blanks do not.
pub proof fn ink_counts_what_shows(s: Seq<char>, c: char)
    ensures
        is_space(c) ==> ink(s.push(c)) == ink(s),
        !is_space(c) ==> ink(s.push(c)) == ink(s) + 1,
        ink(Seq::<char>::empty()) == 0,
{
    lemma_ink_prefix(s, s.push(c), s.len() as int);
}

proof fn lemma_ink_prefix(s: Seq<char>, t: Seq<char>, n: int)
    requires
        0 <= n <= s.len(),
        n <= t.len(),
        forall|k: int| 0 <= k < n ==> s[k] == t[k],
    ensures
        ink_upto(s, n) == ink_upto(t, n),
    decreases n,
{
    if n > 0 {
        lemma_ink_prefix(s, t, n - 1);
    }
}

/// Digits behind the point are as many as asked for, and read back.
pub proof fn leading_digits_read_back(value: nat, n: nat)
    requires
        value < vstd::arithmetic::power::pow(10, n),
    ensures
        leading_digits(value, n).len() == n,
        decimal_value(leading_digits(value, n), n as int) == Some(value),
    decreases n,
{
    vstd::arithmetic::power::lemma_pow0(10);
    if n > 0 {
        let m = (n - 1) as nat;
        assert(vstd::arithmetic::power::pow(10, n) == 10 * vstd::arithmetic::power::pow(10, m)) by {
            reveal(vstd::arithmetic::power::pow);
        }
        leading_digits_read_back(value / 10, m);
        let head = leading_digits(value / 10, m);
        let s = leading_digits(value, n);
        lemma_value_prefix(head, s, m as int);
        assert(s[m as int] == digit(value % 10));
    }
}

/// A fraction is written without zeros at its end, and not at all where it is none.
pub proof fn fractions_end_with_a_digit(value: nat, n: nat)
    ensures
        fraction_digits(value, n).len() > 0 ==> {
            let s = fraction_digits(value, n);
            s[0] == '.' && s.len() >= 2 && s[s.len() - 1] != '0'
        },
        value == 0 ==> fraction_digits(value, n).len() == 0,
        value % 10 != 0 && n > 0 ==> fraction_digits(value, n).len() == n + 1,
    decreases n,
{
    reveal_strlit(".");
    if n > 0 {
        if value % 10 == 0 {
            fractions_end_with_a_digit(value / 10, (n - 1) as nat);
        } else {
            let s = fraction_digits(value, n);
            lemma_leading_len(value, n);
            assert(s[s.len() - 1] == leading_digits(value, n).last());
        }
    }
}

proof fn lemma_leading_len(value: nat, n: nat)
    ensures
        leading_digits(value, n).len() == n,
    decreases n,
{
    if n > 0 {
        lemma_leading_len(value / 10, (n - 1) as nat);
    }
}

} // verus!
