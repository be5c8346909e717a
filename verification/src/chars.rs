//! Characters and text.

use vstd::prelude::*;
use vstd::string::*;
use vstd::utf8::*;

verus! {

/// Whether a character has the Unicode property White_Space.
pub open spec fn is_space(c: char) -> bool {
    let u = c as u32;
    (0x09 <= u <= 0x0D) || u == 0x20 || u == 0x85 || u == 0xA0 || u == 0x1680 || (0x2000 <= u
        <= 0x200A) || u == 0x2028 || u == 0x2029 || u == 0x202F || u == 0x205F || u == 0x3000
}

/// Whether a character has the Unicode property White_Space.
pub fn is_whitespace(c: char) -> (yes: bool)
    ensures
        yes == is_space(c),
{
    let u: u32 = c as u32;
    (0x09 <= u && u <= 0x0D) || u == 0x20 || u == 0x85 || u == 0xA0 || u == 0x1680 || (0x2000 <= u
        && u <= 0x200A) || u == 0x2028 || u == 0x2029 || u == 0x202F || u == 0x205F || u == 0x3000
}

/// Whether a character is a control code.
pub open spec fn is_control_code(c: char) -> bool {
    let u = c as u32;
    u <= 0x1F || (0x7F <= u <= 0x9F)
}

/// Whether a character is a control code.
pub fn is_control(c: char) -> (yes: bool)
    ensures
        yes == is_control_code(c),
{
    let u: u32 = c as u32;
    u <= 0x1F || (0x7F <= u && u <= 0x9F)
}

/// Names what `char::is_alphabetic` answers: the Unicode property Alphabetic.
pub uninterp spec fn alphabetic(c: char) -> bool;

/// `char::is_alphabetic` answers by the character alone.
pub assume_specification[ char::is_alphabetic ](c: char) -> (yes: bool)
    ensures
        yes == alphabetic(c),
;

/// Names what `char::is_alphanumeric` answers: the Unicode properties Alphabetic and Numeric.
pub uninterp spec fn alphanumeric(c: char) -> bool;

/// `char::is_alphanumeric` answers by the character alone.
pub assume_specification[ char::is_alphanumeric ](c: char) -> (yes: bool)
    ensures
        yes == alphanumeric(c),
;

/// Names what `char::to_lowercase` gives: the lowercase mapping of one character.
pub uninterp spec fn lower(c: char) -> Seq<char>;

/// `char::to_lowercase` gives the lowercase mapping of the character, one or
/// more characters, by the character alone.
#[verifier::external_body]
pub(crate) fn to_lower(c: char) -> (mapped: Vec<char>)
    ensures
        mapped@ == lower(c),
{
    c.to_lowercase().collect()
}

/// Names what `str::to_lowercase` gives: the lowercase form of a text.
pub uninterp spec fn lowered(text: Seq<char>) -> Seq<char>;

/// `str::to_lowercase` gives the lowercase form by the text alone; it differs
/// from that of the characters where a letter stands at the end of a word.
#[verifier::external_body]
pub(crate) fn lowercase(text: &str) -> (form: String)
    ensures
        form@ == lowered(text@),
{
    text.to_lowercase()
}

/// `String::push` appends one character.
pub assume_specification[ String::push ](text: &mut String, c: char)
    ensures
        final(text)@ == old(text)@.push(c),
;

/// Whether a number is a Unicode scalar value.
pub open spec fn is_scalar(n: int) -> bool {
    0 <= n <= 0xD7FF || 0xE000 <= n <= 0x10FFFF
}

/// `char::from_u32` gives the character with this code, where there is one.
pub assume_specification[ char::from_u32 ](n: u32) -> (c: Option<char>)
    ensures
        c == (if is_scalar(n as int) {
            Some(n as char)
        } else {
            None
        }),
;

/// Whether two optional texts are the same.
pub open spec fn same_text(a: Option<String>, b: Option<String>) -> bool {
    match (a, b) {
        (None, None) => true,
        (Some(x), Some(y)) => x@ == y@,
        _ => false,
    }
}

/// Whether two optional texts are the same.
pub fn is_same_text(a: &Option<String>, b: &Option<String>) -> (yes: bool)
    ensures
        yes == same_text(*a, *b),
{
    match (a, b) {
        (None, None) => true,
        (Some(x), Some(y)) => str_same(x.as_str(), y.as_str()),
        _ => false,
    }
}

/// Whether byte string `a`, from `i` on, stands before `b` lexicographically.
pub open spec fn bytes_before(a: Seq<u8>, b: Seq<u8>, i: int) -> bool
    decreases a.len() - i,
{
    if i >= b.len() || i < 0 {
        false
    } else if i >= a.len() {
        true
    } else if a[i] != b[i] {
        a[i] < b[i]
    } else {
        bytes_before(a, b, i + 1)
    }
}

/// Whether text `a` stands before `b`, by the bytes of their UTF-8 forms.
pub open spec fn text_before(a: Seq<char>, b: Seq<char>) -> bool {
    bytes_before(encode_utf8(a), encode_utf8(b), 0)
}

/// What lets byte order be used as an order.
proof fn lemma_bytes_order(a: Seq<u8>, b: Seq<u8>, c: Seq<u8>, i: int)
    requires
        0 <= i,
    ensures
        !bytes_before(a, a, i),
        bytes_before(a, b, i) && bytes_before(b, c, i) ==> bytes_before(a, c, i),
        !bytes_before(a, b, i) && !bytes_before(b, c, i) ==> !bytes_before(a, c, i),
    decreases a.len() + b.len() + c.len() - i,
{
    if i < a.len() || i < b.len() || i < c.len() {
        if i < a.len() + b.len() + c.len() {
            lemma_bytes_order(a, b, c, i + 1);
        }
    }
}

/// Two byte strings that agree up to `i`, neither before the other, are equal.
proof fn lemma_bytes_total(a: Seq<u8>, b: Seq<u8>, i: int)
    requires
        0 <= i <= a.len(),
        i <= b.len(),
        forall|k: int| 0 <= k < i ==> a[k] == b[k],
        !bytes_before(a, b, i),
        !bytes_before(b, a, i),
    ensures
        a == b,
    decreases a.len() - i,
{
    if i < a.len() && i < b.len() {
        assert(a[i] == b[i]);
        lemma_bytes_total(a, b, i + 1);
    } else {
        assert(a =~= b);
    }
}

/// Text order is a strict weak order.
pub proof fn text_order_is_strict_weak(a: Seq<char>, b: Seq<char>, c: Seq<char>)
    ensures
        !text_before(a, a),
        text_before(a, b) && text_before(b, c) ==> text_before(a, c),
        !text_before(a, b) && !text_before(b, c) ==> !text_before(a, c),
{
    lemma_bytes_order(encode_utf8(a), encode_utf8(b), encode_utf8(c), 0);
}

/// Text order tells every two different texts apart.
pub proof fn text_order_is_total(a: Seq<char>, b: Seq<char>)
    requires
        a != b,
    ensures
        text_before(a, b) || text_before(b, a),
{
    if !text_before(a, b) && !text_before(b, a) {
        lemma_bytes_total(encode_utf8(a), encode_utf8(b), 0);
        encode_utf8_decode_utf8(a);
        encode_utf8_decode_utf8(b);
    }
}

/// Decides whether `a` stands before `b`.
pub fn str_before(a: &str, b: &str) -> (yes: bool)
    ensures
        yes == text_before(a@, b@),
{
    let left: &[u8] = a.as_bytes();
    let right: &[u8] = b.as_bytes();
    let mut i: usize = 0;
    while i < left.len() && i < right.len() && left[i] == right[i]
        invariant
            i <= left@.len(),
            i <= right@.len(),
            bytes_before(left@, right@, 0) == bytes_before(left@, right@, i as int),
        decreases left@.len() - i,
    {
        i = i + 1;
    }
    if i >= right.len() {
        false
    } else if i >= left.len() {
        true
    } else {
        left[i] < right[i]
    }
}

/// Whether two texts are the same.
pub fn str_same(a: &str, b: &str) -> (yes: bool)
    ensures
        yes == (a@ == b@),
{
    let left: &[u8] = a.as_bytes();
    let right: &[u8] = b.as_bytes();
    proof {
        encode_utf8_decode_utf8(a@);
        encode_utf8_decode_utf8(b@);
    }
    if left.len() != right.len() {
        return false;
    }
    let mut i: usize = 0;
    while i < left.len()
        invariant
            i <= left@.len(),
            left@.len() == right@.len(),
            left@ == encode_utf8(a@),
            right@ == encode_utf8(b@),
            forall|k: int| 0 <= k < i ==> left@[k] == right@[k],
        decreases left@.len() - i,
    {
        if left[i] != right[i] {
            return false;
        }
        i = i + 1;
    }
    assert(left@ =~= right@);
    true
}

/// Number of blanks at the end of the first `n` characters.
pub open spec fn trimmed_end(s: Seq<char>, n: int) -> int
    decreases n,
{
    if n > 0 && is_space(s[n - 1]) {
        trimmed_end(s, n - 1)
    } else {
        n
    }
}

/// Position of the first character from `i` on that is no blank, up to `n`.
pub open spec fn trimmed_start(s: Seq<char>, i: int, n: int) -> int
    decreases n - i,
{
    if i < n && is_space(s[i]) {
        trimmed_start(s, i + 1, n)
    } else {
        i
    }
}

/// The text without blanks at its end.
pub open spec fn trim_end_of(s: Seq<char>) -> Seq<char> {
    s.take(trimmed_end(s, s.len() as int))
}

/// The text without blanks at either end.
pub open spec fn trim_of(s: Seq<char>) -> Seq<char> {
    let end = trimmed_end(s, s.len() as int);
    s.subrange(trimmed_start(s, 0, end), end)
}

/// The end never lies beyond what was looked at.
pub proof fn lemma_trimmed_end(s: Seq<char>, n: int)
    requires
        0 <= n,
    ensures
        0 <= trimmed_end(s, n) <= n,
        trimmed_end(s, n) > 0 ==> !is_space(s[trimmed_end(s, n) - 1]),
        forall|k: int| trimmed_end(s, n) <= k < n ==> is_space(#[trigger] s[k]),
    decreases n,
{
    if n > 0 && is_space(s[n - 1]) {
        lemma_trimmed_end(s, n - 1);
    }
}

/// The start lies between where the search began and its bound.
pub proof fn lemma_trimmed_start(s: Seq<char>, i: int, n: int)
    requires
        0 <= i <= n,
    ensures
        i <= trimmed_start(s, i, n) <= n,
        trimmed_start(s, i, n) < n ==> !is_space(s[trimmed_start(s, i, n)]),
        forall|k: int| i <= k < trimmed_start(s, i, n) ==> is_space(#[trigger] s[k]),
    decreases n - i,
{
    if i < n && is_space(s[i]) {
        lemma_trimmed_start(s, i + 1, n);
    }
}

/// The characters of a text.
pub fn chars_of(text: &str) -> (all: Vec<char>)
    ensures
        all@ == text@,
{
    let mut all: Vec<char> = Vec::new();
    for c in it: text.chars()
        invariant
            it.seq() == text@,
            all@ == text@.take(it.index()),
    {
        all.push(c);
        assert(all@ =~= text@.take(it.index() + 1));
    }
    assert(text@.take(text@.len() as int) =~= text@);
    all
}

/// Number of characters left without the blanks at either end.
pub fn trimmed_len(all: &Vec<char>) -> (count: usize)
    ensures
        count == trim_of(all@).len(),
{
    let mut end: usize = all.len();
    while end > 0 && is_whitespace(all[end - 1])
        invariant
            end <= all@.len(),
            trimmed_end(all@, all@.len() as int) == trimmed_end(all@, end as int),
        decreases end,
    {
        end = end - 1;
    }
    let mut start: usize = 0;
    while start < end && is_whitespace(all[start])
        invariant
            start <= end <= all@.len(),
            trimmed_start(all@, 0, end as int) == trimmed_start(all@, start as int, end as int),
        decreases end - start,
    {
        start = start + 1;
    }
    end - start
}

/// The text without blanks at its end.
pub fn trim_end<'a>(text: &'a str) -> (trimmed: &'a str)
    ensures
        trimmed@ == trim_end_of(text@),
{
    let all: Vec<char> = chars_of(text);
    let mut end: usize = all.len();
    while end > 0 && is_whitespace(all[end - 1])
        invariant
            all@ == text@,
            end <= all@.len(),
            trimmed_end(text@, text@.len() as int) == trimmed_end(text@, end as int),
        decreases end,
    {
        end = end - 1;
    }
    let trimmed: &'a str = text.substring_char(0, end);
    assert(trimmed@ =~= trim_end_of(text@));
    trimmed
}

/// The text without blanks at either end.
pub fn trim<'a>(text: &'a str) -> (trimmed: &'a str)
    ensures
        trimmed@ == trim_of(text@),
{
    let all: Vec<char> = chars_of(text);
    let mut end: usize = all.len();
    while end > 0 && is_whitespace(all[end - 1])
        invariant
            all@ == text@,
            end <= all@.len(),
            trimmed_end(text@, text@.len() as int) == trimmed_end(text@, end as int),
        decreases end,
    {
        end = end - 1;
    }
    let mut start: usize = 0;
    while start < end && is_whitespace(all[start])
        invariant
            all@ == text@,
            start <= end <= all@.len(),
            trimmed_start(text@, 0, end as int) == trimmed_start(text@, start as int, end as int),
        decreases end - start,
    {
        start = start + 1;
    }
    text.substring_char(start, end)
}

/// Number of characters among the first `n` that are no blanks.
pub open spec fn ink_upto(s: Seq<char>, n: int) -> int
    decreases n,
{
    if n <= 0 {
        0
    } else {
        ink_upto(s, n - 1) + if is_space(s[n - 1]) {
            0int
        } else {
            1
        }
    }
}

/// Number of characters that are no blanks.
pub open spec fn ink(s: Seq<char>) -> int {
    ink_upto(s, s.len() as int)
}

/// Counts never leave the range of the positions they were made from.
pub proof fn lemma_ink_upto(s: Seq<char>, n: int)
    requires
        0 <= n,
    ensures
        0 <= ink_upto(s, n) <= n,
    decreases n,
{
    if n > 0 {
        lemma_ink_upto(s, n - 1);
    }
}

/// Appends a text.
pub fn push_text(text: &mut String, tail: &str)
    ensures
        final(text)@ == old(text)@ + tail@,
{
    text.append(tail);
}

/// The decimal digit of a number below ten.
pub open spec fn digit(n: nat) -> char {
    if n == 0 {
        '0'
    } else if n == 1 {
        '1'
    } else if n == 2 {
        '2'
    } else if n == 3 {
        '3'
    } else if n == 4 {
        '4'
    } else if n == 5 {
        '5'
    } else if n == 6 {
        '6'
    } else if n == 7 {
        '7'
    } else if n == 8 {
        '8'
    } else {
        '9'
    }
}

/// The decimal spelling of a number.
pub open spec fn text_of_decimal(n: nat) -> Seq<char>
    decreases n,
{
    if n < 10 {
        seq![digit(n)]
    } else {
        text_of_decimal(n / 10).push(digit(n % 10))
    }
}

/// The decimal digit of a number below ten.
fn digit_of(n: u64) -> (c: char)
    requires
        n < 10,
    ensures
        c == digit(n as nat),
{
    if n == 0 {
        '0'
    } else if n == 1 {
        '1'
    } else if n == 2 {
        '2'
    } else if n == 3 {
        '3'
    } else if n == 4 {
        '4'
    } else if n == 5 {
        '5'
    } else if n == 6 {
        '6'
    } else if n == 7 {
        '7'
    } else if n == 8 {
        '8'
    } else {
        '9'
    }
}

/// Appends the decimal spelling of a number.
pub fn push_decimal(text: &mut String, n: u64)
    ensures
        final(text)@ == old(text)@ + text_of_decimal(n as nat),
    decreases n,
{
    let ghost before = text@;
    if n >= 10 {
        push_decimal(text, n / 10);
    }
    text.push(digit_of(n % 10));
    assert(text@ =~= before + text_of_decimal(n as nat));
}

/// Decimal spelling of a number that may be negative.
pub open spec fn text_of_signed(n: int) -> Seq<char> {
    if n < 0 {
        "-"@ + text_of_decimal((-n) as nat)
    } else {
        text_of_decimal(n as nat)
    }
}

/// Appends the decimal spelling of a number that may be negative.
pub fn push_signed(text: &mut String, n: i64)
    ensures
        final(text)@ == old(text)@ + text_of_signed(n as int),
{
    let ghost before = text@;
    if n < 0 {
        push_text(text, "-");
        let positive: u64 = if n == i64::MIN {
            0x8000_0000_0000_0000
        } else {
            (-n) as u64
        };
        push_decimal(text, positive);
        assert(text@ =~= before + text_of_signed(n as int));
    } else {
        push_decimal(text, n as u64);
    }
}

/// Number of characters.
pub fn char_count(text: &str) -> (count: usize)
    ensures
        count == text@.len(),
{
    text.unicode_len()
}

} // verus!
