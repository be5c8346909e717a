//! Which characters of a recognized line native facts already own.

use vstd::math::{abs, max, min};
use vstd::prelude::*;

use crate::chars::{
    is_space, is_whitespace, lower, str_before, text_before, text_order_is_strict_weak, to_lower,
    trimmed_end, trimmed_start,
};
use crate::geometry::distance;
use crate::line::axes::{along, Frame, TextAxes};
use crate::sorting::{Order, Sorter};
use crate::text_rules::TextRules;
use crate::types::{Rotation, TextItem};

use super::spacing::{corners, real_frame};

verus! {

/// The code of a normalized character, and where it stands in the text.
#[derive(Debug, Clone, Copy, PartialEq, Eq, Structural)]
pub struct Glyph {
    pub code: u32,
    pub at: usize,
}

/// The first `n` characters, all at one position.
pub open spec fn glyphs_at(mapped: Seq<char>, at: usize, n: int) -> Seq<Glyph>
    decreases n,
{
    if n <= 0 {
        Seq::empty()
    } else {
        glyphs_at(mapped, at, n - 1).push(Glyph { code: mapped[n - 1] as u32, at })
    }
}

/// The normalized characters of one character at a position.
pub open spec fn glyphs_of(rules: TextRules, c: char, at: usize) -> Seq<Glyph> {
    if is_space(c) {
        Seq::empty()
    } else {
        let mapped = lower(rules.mark(c));
        glyphs_at(mapped, at, mapped.len() as int)
    }
}

/// The normalized characters of the first `n` characters of a text: blanks are
/// dropped, punctuation and case are normalized.
pub open spec fn normalized(rules: TextRules, text: Seq<char>, n: int) -> Seq<Glyph>
    decreases n,
{
    if n <= 0 {
        Seq::empty()
    } else {
        normalized(rules, text, n - 1) + glyphs_of(rules, text[n - 1], (n - 1) as usize)
    }
}

/// Native facts along a recognized line.
#[derive(Debug, Clone, Copy, PartialEq, Eq, Structural)]
pub struct InlineOrder {
    pub rotation: Rotation,
    pub rtl: bool,
}

impl InlineOrder {
    /// Where the middle of a fact stands along the line.
    pub open spec fn place(self, item: TextItem) -> int {
        let x = along(self.rotation, item.bbox.mid_x2(), item.bbox.mid_y2());
        if self.rtl {
            -x
        } else {
            x
        }
    }

    fn place_of(&self, item: &TextItem) -> (x: i128)
        ensures
            x == self.place(*item),
    {
        let x: i128 = TextAxes::from(self.rotation).middle_along(item.bbox);
        assert(-0x4_0000_0000_0000_0000 <= x <= 0x4_0000_0000_0000_0000) by {
            lemma_along_bound(self.rotation, item.bbox.mid_x2(), item.bbox.mid_y2());
        }
        if self.rtl {
            -x
        } else {
            x
        }
    }
}

proof fn lemma_along_bound(r: Rotation, x2: int, y2: int)
    requires
        -0x1_0000_0000 <= x2 <= 0x1_0000_0000,
        -0x1_0000_0000 <= y2 <= 0x1_0000_0000,
    ensures
        -0x4_0000_0000_0000_0000 <= along(r, x2, y2) <= 0x4_0000_0000_0000_0000,
{
    let (c, s) = (r.cosine as int, r.sine as int);
    assert(-0x4_0000_0000_0000_0000 <= c * x2 + s * y2 <= 0x4_0000_0000_0000_0000)
        by (nonlinear_arith)
        requires
            -0x8000_0000 <= c <= 0x8000_0000,
            -0x8000_0000 <= s <= 0x8000_0000,
            -0x1_0000_0000 <= x2 <= 0x1_0000_0000,
            -0x1_0000_0000 <= y2 <= 0x1_0000_0000,
    ;
}

impl Order<TextItem> for InlineOrder {
    open spec fn lt(&self, a: TextItem, b: TextItem) -> bool {
        self.place(a) < self.place(b) || (self.place(a) == self.place(b) && text_before(
            a.id@,
            b.id@,
        ))
    }

    proof fn is_strict_weak(&self, a: TextItem, b: TextItem, c: TextItem) {
        text_order_is_strict_weak(a.id@, b.id@, c.id@);
    }
}

impl Sorter<TextItem> for InlineOrder {
    fn precedes(&self, a: &TextItem, b: &TextItem) -> (yes: bool) {
        let x: i128 = self.place_of(a);
        let y: i128 = self.place_of(b);
        x < y || (x == y && str_before(a.id.as_str(), b.id.as_str()))
    }
}

/// Characters of a line that a native fact owns.
///
/// `start` and `end` bound the characters. `inline_start` and `inline_end` bound
/// the part of the line, measured from its reading start and kept inside it.
#[derive(Debug, Clone, Copy, PartialEq, Eq, Structural)]
pub struct NativeMatch {
    pub start: usize,
    pub end: usize,
    pub inline_start: i64,
    pub inline_end: i64,
    /// Position of the native fact among those that were matched.
    pub item: usize,
}

/// What a line is matched against.
pub ghost struct Line {
    pub text: Seq<char>,
    pub glyphs: Seq<Glyph>,
    pub frame: (int, int, int, int),
    pub rotation: Rotation,
    pub rtl: bool,
}

impl Line {
    /// Length of the line.
    pub open spec fn wide(self) -> int {
        self.frame.2 - self.frame.0
    }

    /// Height of the line.
    pub open spec fn high(self) -> int {
        self.frame.3 - self.frame.1
    }

    /// Where a frame starts and ends, measured from the reading start of the line.
    pub open spec fn interval(self, f: (int, int, int, int)) -> (int, int) {
        if self.rtl {
            (self.frame.2 - f.2, self.frame.2 - f.0)
        } else {
            (f.0 - self.frame.0, f.2 - self.frame.0)
        }
    }

    /// A place kept inside the line.
    pub open spec fn inside(self, x: int) -> int {
        max(0, min(x, self.wide()))
    }
}

/// Whether the glyphs from an index on are those of a pattern.
pub open spec fn window_is(glyphs: Seq<Glyph>, pattern: Seq<Glyph>, at: int) -> bool {
    forall|k: int|
        0 <= k < pattern.len() ==> glyphs[at + k].code == (#[trigger] pattern[k]).code
}

/// Whether only blanks stand between two positions of a text.
pub open spec fn blank_between(text: Seq<char>, from: int, to: int) -> bool {
    from <= to && forall|k: int| from <= k < to ==> is_space(#[trigger] text[k])
}

/// Whether a window follows the last match both on the page and in the text.
///
/// Adjacent native runs are a stronger anchor than uniform character widths.
pub open spec fn follows(line: Line, last: Option<NativeMatch>, start: int, at: int) -> bool {
    match last {
        None => false,
        Some(previous) => {
            &&& abs(start - previous.inline_end) <= line.high()
            &&& blank_between(line.text, previous.end as int, line.glyphs[at].at as int)
        },
    }
}

/// How far a window stands from where the native fact is drawn.
///
/// The unit is one part in twice the number of glyphs times the line length.
pub open spec fn position_error(
    line: Line,
    last: Option<NativeMatch>,
    span: (int, int),
    size: int,
    at: int,
) -> int {
    if follows(line, last, span.0, at) {
        0
    } else {
        abs((2 * at + size) * line.wide() - (span.0 + span.1) * line.glyphs.len()) as int
    }
}

/// The first best window among the first `n`.
pub open spec fn best_window(
    line: Line,
    last: Option<NativeMatch>,
    span: (int, int),
    pattern: Seq<Glyph>,
    n: int,
) -> Option<int>
    decreases n,
{
    if n <= 0 {
        None
    } else {
        let before = best_window(line, last, span, pattern, n - 1);
        let size = pattern.len() as int;
        if window_is(line.glyphs, pattern, n - 1) && (before is None || position_error(
            line,
            last,
            span,
            size,
            n - 1,
        ) < position_error(line, last, span, size, before->0)) {
            Some(n - 1)
        } else {
            before
        }
    }
}

/// Whether a window stands near enough to where the native fact is drawn.
pub open spec fn near_enough(line: Line, error: int) -> bool {
    2 * error <= line.glyphs.len() * (line.wide() + 4 * line.high())
}

/// The characters that a native fact owns: those of the window, and the blanks
/// beside it where the native text has blanks there.
pub open spec fn owned_range(
    text: Seq<char>,
    native: Seq<char>,
    first: int,
    last: int,
) -> (int, int) {
    let start = if native.len() > 0 && is_space(native[0]) {
        trimmed_end(text, first)
    } else {
        first
    };
    let end = if native.len() > 0 && is_space(native.last()) {
        trimmed_start(text, last, text.len() as int)
    } else {
        last
    };
    (start, end)
}

/// The match of one native fact, where there is one.
pub open spec fn match_of(
    rules: TextRules,
    line: Line,
    last: Option<NativeMatch>,
    native: TextItem,
    item: int,
) -> Option<NativeMatch> {
    let text = native.raw_text@;
    let pattern = normalized(rules, text, text.len() as int);
    let f = (TextAxes { rotation: line.rotation }).frame_of(native.bbox);
    if pattern.len() == 0 || pattern.len() > line.glyphs.len() || !real_frame(f) {
        None
    } else {
        let span = line.interval(f);
        let windows = line.glyphs.len() - pattern.len() + 1;
        match best_window(line, last, span, pattern, windows) {
            None => None,
            Some(at) => if !near_enough(
                line,
                position_error(line, last, span, pattern.len() as int, at),
            ) {
                None
            } else {
                let range = owned_range(
                    line.text,
                    text,
                    line.glyphs[at].at as int,
                    line.glyphs[at + pattern.len() - 1].at + 1,
                );
                Some(
                    NativeMatch {
                        start: range.0 as usize,
                        end: range.1 as usize,
                        inline_start: line.inside(span.0) as i64,
                        inline_end: line.inside(span.1) as i64,
                        item: item as usize,
                    },
                )
            },
        }
    }
}

/// The matches of the first `n` native facts.
pub open spec fn matches_upto(
    rules: TextRules,
    line: Line,
    natives: Seq<TextItem>,
    n: int,
) -> Seq<NativeMatch>
    decreases n,
{
    if n <= 0 {
        Seq::empty()
    } else {
        let before = matches_upto(rules, line, natives, n - 1);
        let last = if before.len() > 0 {
            Some(before.last())
        } else {
            None
        };
        match match_of(rules, line, last, natives[n - 1], n - 1) {
            None => before,
            Some(found) => before.push(found),
        }
    }
}

/// Whether glyphs point into a text.
pub open spec fn glyphs_in(glyphs: Seq<Glyph>, length: int) -> bool {
    forall|k: int| 0 <= k < glyphs.len() ==> (#[trigger] glyphs[k]).at < length
}

/// Normalizes a text and keeps where each character stood.
pub fn normalize(rules: &TextRules, text: &Vec<char>) -> (glyphs: Vec<Glyph>)
    ensures
        glyphs@ == normalized(*rules, text@, text@.len() as int),
        glyphs_in(glyphs@, text@.len() as int),
{
    let mut glyphs: Vec<Glyph> = Vec::new();
    let mut i: usize = 0;
    while i < text.len()
        invariant
            i <= text@.len(),
            glyphs@ == normalized(*rules, text@, i as int),
            glyphs_in(glyphs@, text@.len() as int),
        decreases text@.len() - i,
    {
        let c: char = text[i];
        if !is_whitespace(c) {
            let mapped: Vec<char> = to_lower(rules.normalize_punctuation(c));
            let ghost before = glyphs@;
            let mut k: usize = 0;
            while k < mapped.len()
                invariant
                    i < text@.len(),
                    c == text@[i as int],
                    !is_space(c),
                    mapped@ == lower(rules.mark(c)),
                    k <= mapped@.len(),
                    glyphs@ == before + glyphs_at(mapped@, i, k as int),
                    glyphs_in(glyphs@, text@.len() as int),
                decreases mapped@.len() - k,
            {
                let glyph = Glyph { code: mapped[k] as u32, at: i };
                glyphs.push(glyph);
                k = k + 1;
                assert(glyphs@ =~= before + glyphs_at(mapped@, i, k as int));
            }
        }
        i = i + 1;
        assert(glyphs@ =~= normalized(*rules, text@, i as int));
    }
    glyphs
}

/// Whether the glyphs from an index on are those of a pattern.
fn is_window(glyphs: &Vec<Glyph>, pattern: &Vec<Glyph>, at: usize) -> (yes: bool)
    requires
        at + pattern@.len() <= glyphs@.len(),
    ensures
        yes == window_is(glyphs@, pattern@, at as int),
{
    let count: usize = glyphs.len();
    let mut k: usize = 0;
    while k < pattern.len()
        invariant
            count == glyphs@.len(),
            at + pattern@.len() <= glyphs@.len(),
            k <= pattern@.len(),
            forall|m: int|
                0 <= m < k ==> glyphs@[at + m].code == (#[trigger] pattern@[m]).code,
        decreases pattern@.len() - k,
    {
        if glyphs[at + k].code != pattern[k].code {
            assert(glyphs@[at + k].code != pattern@[k as int].code);
            return false;
        }
        k = k + 1;
    }
    true
}

/// Whether only blanks stand between two positions of a text.
fn is_blank_between(text: &Vec<char>, from: usize, to: usize) -> (yes: bool)
    requires
        to <= text@.len(),
    ensures
        yes == blank_between(text@, from as int, to as int),
{
    if from > to {
        return false;
    }
    let mut k: usize = from;
    while k < to
        invariant
            from <= k <= to <= text@.len(),
            forall|m: int| from <= m < k ==> is_space(#[trigger] text@[m]),
        decreases to - k,
    {
        if !is_whitespace(text[k]) {
            assert(!is_space(text@[k as int]));
            return false;
        }
        k = k + 1;
    }
    true
}

/// A line to be matched.
pub struct LineFacts {
    pub text: Vec<char>,
    pub glyphs: Vec<Glyph>,
    pub frame: Frame,
    pub rotation: Rotation,
    pub rtl: bool,
}

impl LineFacts {
    /// What the line is matched against.
    pub open spec fn model(self) -> Line {
        Line {
            text: self.text@,
            glyphs: self.glyphs@,
            frame: corners(self.frame),
            rotation: self.rotation,
            rtl: self.rtl,
        }
    }

    /// The frame is a real one and the glyphs point into the text.
    pub open spec fn wf(self) -> bool {
        &&& glyphs_in(self.glyphs@, self.text@.len() as int)
        &&& -0x8_0000_0000 <= self.frame.left < self.frame.right <= 0x8_0000_0000
        &&& -0x8_0000_0000 <= self.frame.top < self.frame.bottom <= 0x8_0000_0000
    }

    /// How far a window stands from where the native fact is drawn.
    fn error(
        &self,
        last: &Option<NativeMatch>,
        span: (i64, i64),
        size: usize,
        at: usize,
    ) -> (error: i128)
        requires
            self.wf(),
            at < self.glyphs@.len(),
            size <= self.glyphs@.len(),
            -0x10_0000_0000 <= span.0 <= 0x10_0000_0000,
            -0x10_0000_0000 <= span.1 <= 0x10_0000_0000,
        ensures
            error == position_error(
                self.model(),
                *last,
                (span.0 as int, span.1 as int),
                size as int,
                at as int,
            ),
            0 <= error <= 0x100_0000_0000_0000_0000_0000_0000,
    {
        if let Some(previous) = last {
            let target: usize = self.glyphs[at].at;
            assert(self.glyphs@[at as int].at < self.text@.len());
            if distance(span.0, previous.inline_end) <= self.frame.height() && is_blank_between(
                &self.text,
                previous.end,
                target,
            ) {
                return 0;
            }
        }
        let count: i128 = self.glyphs.len() as i128;
        let wide: i128 = self.frame.width();
        let double: i128 = 2 * (at as i128) + size as i128;
        let sum: i128 = span.0 as i128 + span.1 as i128;
        proof {
            let (d, w, s, n) = (double as int, wide as int, sum as int, count as int);
            assert(0 <= d * w <= 0x30_0000_0000_0000_0000_0000_0000) by (nonlinear_arith)
                requires
                    0 <= d <= 0x3_0000_0000_0000_0000,
                    0 <= w <= 0x10_0000_0000,
            ;
            assert(-0x20_0000_0000_0000_0000_0000_0000 <= s * n
                <= 0x20_0000_0000_0000_0000_0000_0000) by (nonlinear_arith)
                requires
                    -0x20_0000_0000 <= s <= 0x20_0000_0000,
                    0 <= n <= 0x1_0000_0000_0000_0000,
            ;
        }
        let difference: i128 = double * wide - sum * count;
        if difference < 0 {
            -difference
        } else {
            difference
        }
    }

    /// The first best window, with its error.
    fn find_window(
        &self,
        last: &Option<NativeMatch>,
        span: (i64, i64),
        pattern: &Vec<Glyph>,
    ) -> (best: Option<(usize, i128)>)
        requires
            self.wf(),
            0 < pattern@.len() <= self.glyphs@.len(),
            -0x10_0000_0000 <= span.0 <= 0x10_0000_0000,
            -0x10_0000_0000 <= span.1 <= 0x10_0000_0000,
        ensures
            match (
                best,
                best_window(
                    self.model(),
                    *last,
                    (span.0 as int, span.1 as int),
                    pattern@,
                    self.glyphs@.len() - pattern@.len() + 1,
                ),
            ) {
                (None, None) => true,
                (Some((at, error)), Some(expected)) => {
                    &&& at == expected
                    &&& at + pattern@.len() <= self.glyphs@.len()
                    &&& error == position_error(
                        self.model(),
                        *last,
                        (span.0 as int, span.1 as int),
                        pattern@.len() as int,
                        at as int,
                    )
                    &&& 0 <= error <= 0x100_0000_0000_0000_0000_0000_0000
                },
                _ => false,
            },
    {
        let size: usize = pattern.len();
        let total: usize = self.glyphs.len();
        let count: usize = total - size;
        let mut best: Option<(usize, i128)> = None;
        let mut at: usize = 0;
        while at <= count
            invariant
                self.wf(),
                size == pattern@.len(),
                total == self.glyphs@.len(),
                0 < size <= self.glyphs@.len(),
                count == self.glyphs@.len() - size,
                at <= count + 1,
                -0x10_0000_0000 <= span.0 <= 0x10_0000_0000,
                -0x10_0000_0000 <= span.1 <= 0x10_0000_0000,
                match (
                    best,
                    best_window(
                        self.model(),
                        *last,
                        (span.0 as int, span.1 as int),
                        pattern@,
                        at as int,
                    ),
                ) {
                    (None, None) => true,
                    (Some((found, error)), Some(expected)) => {
                        &&& found == expected
                        &&& found + size <= self.glyphs@.len()
                        &&& error == position_error(
                            self.model(),
                            *last,
                            (span.0 as int, span.1 as int),
                            size as int,
                            found as int,
                        )
                        &&& 0 <= error <= 0x100_0000_0000_0000_0000_0000_0000
                    },
                    _ => false,
                },
            decreases count + 1 - at,
        {
            if is_window(&self.glyphs, pattern, at) {
                let error: i128 = self.error(last, span, size, at);
                let better: bool = match best {
                    None => true,
                    Some((_, least)) => error < least,
                };
                if better {
                    best = Some((at, error));
                }
            }
            at = at + 1;
        }
        best
    }

    /// The match of one native fact, where there is one.
    fn match_native(
        &self,
        rules: &TextRules,
        last: &Option<NativeMatch>,
        native: &TextItem,
        item: usize,
    ) -> (found: Option<NativeMatch>)
        requires
            self.wf(),
        ensures
            found == match_of(*rules, self.model(), *last, *native, item as int),
            found matches Some(m) ==> well_matched(m, self.text@.len() as int, self.model().wide()),
    {
        let native_text: Vec<char> = native.raw_text.chars();
        let pattern: Vec<Glyph> = normalize(rules, &native_text);
        if pattern.len() == 0 || pattern.len() > self.glyphs.len() {
            return None;
        }
        let bounds: Frame = match TextAxes::from(self.rotation).project_bbox(native.bbox) {
            Ok(bounds) => bounds,
            Err(_) => {
                return None;
            },
        };
        let span: (i64, i64) = if self.rtl {
            (self.frame.right - bounds.right, self.frame.right - bounds.left)
        } else {
            (bounds.left - self.frame.left, bounds.right - self.frame.left)
        };
        let (at, error): (usize, i128) = match self.find_window(last, span, &pattern) {
            None => {
                return None;
            },
            Some(best) => best,
        };
        let count: i128 = self.glyphs.len() as i128;
        let reach: i128 = self.frame.width() + 4 * self.frame.height();
        proof {
            let (n, r) = (count as int, reach as int);
            assert(0 <= n * r <= 0x1000_0000_0000_0000_0000_0000_0000) by (nonlinear_arith)
                requires
                    0 <= n <= 0x1_0000_0000_0000_0000,
                    0 <= r <= 0x1000_0000_0000,
            ;
        }
        if 2 * error > count * reach {
            return None;
        }
        let length: usize = self.text.len();
        let first: usize = self.glyphs[at].at;
        let closing: usize = self.glyphs[at + (pattern.len() - 1)].at;
        assert(self.glyphs@[at as int].at < self.text@.len());
        assert(self.glyphs@[at + pattern@.len() - 1].at < self.text@.len());
        let start: usize = if native_text.len() > 0 && is_whitespace(native_text[0]) {
            trim_back(&self.text, first)
        } else {
            first
        };
        let end: usize = if native_text.len() > 0 && is_whitespace(
            native_text[native_text.len() - 1],
        ) {
            skip_blanks(&self.text, closing + 1)
        } else {
            closing + 1
        };
        let wide: i64 = self.frame.right - self.frame.left;
        Some(
            NativeMatch {
                start,
                end,
                inline_start: clamp(span.0, wide),
                inline_end: clamp(span.1, wide),
                item,
            },
        )
    }

    /// Aligns native facts with the characters of the line in one reading frame.
    pub fn native_matches(&self, rules: &TextRules, natives: &Vec<TextItem>) -> (found: Vec<
        NativeMatch,
    >)
        requires
            self.wf(),
        ensures
            found@ == matches_upto(*rules, self.model(), natives@, natives@.len() as int),
            forall|k: int|
                0 <= k < found@.len() ==> well_matched(
                    #[trigger] found@[k],
                    self.text@.len() as int,
                    self.model().wide(),
                ) && found@[k].item < natives@.len(),
    {
        let mut found: Vec<NativeMatch> = Vec::new();
        let mut i: usize = 0;
        while i < natives.len()
            invariant
                self.wf(),
                i <= natives@.len(),
                found@ == matches_upto(*rules, self.model(), natives@, i as int),
                forall|k: int|
                    0 <= k < found@.len() ==> well_matched(
                        #[trigger] found@[k],
                        self.text@.len() as int,
                        self.model().wide(),
                    ) && found@[k].item < i,
            decreases natives@.len() - i,
        {
            let last: Option<NativeMatch> = if found.len() > 0 {
                Some(found[found.len() - 1])
            } else {
                None
            };
            if let Some(matched) = self.match_native(rules, &last, &natives[i], i) {
                found.push(matched);
            }
            i = i + 1;
        }
        found
    }
}

/// Whether a match lies inside its line.
pub open spec fn well_matched(m: NativeMatch, length: int, wide: int) -> bool {
    &&& m.end <= length
    &&& m.start <= length
    &&& 0 <= m.inline_start <= wide
    &&& 0 <= m.inline_end <= wide
}

/// A place kept between zero and a length.
fn clamp(x: i64, wide: i64) -> (inside: i64)
    requires
        0 <= wide,
    ensures
        inside == max(0, min(x as int, wide as int)),
        0 <= inside <= wide,
{
    if x < 0 {
        0
    } else if x > wide {
        wide
    } else {
        x
    }
}

/// Length of the first `n` characters without blanks behind them.
fn trim_back(text: &Vec<char>, n: usize) -> (length: usize)
    requires
        n <= text@.len(),
    ensures
        length == trimmed_end(text@, n as int),
        length <= n,
{
    let mut length: usize = n;
    while length > 0 && is_whitespace(text[length - 1])
        invariant
            length <= n <= text@.len(),
            trimmed_end(text@, n as int) == trimmed_end(text@, length as int),
        decreases length,
    {
        length = length - 1;
    }
    length
}

/// The first position from `i` on that is no blank.
fn skip_blanks(text: &Vec<char>, i: usize) -> (at: usize)
    requires
        i <= text@.len(),
    ensures
        at == trimmed_start(text@, i as int, text@.len() as int),
        i <= at <= text@.len(),
{
    let mut at: usize = i;
    while at < text.len() && is_whitespace(text[at])
        invariant
            i <= at <= text@.len(),
            trimmed_start(text@, i as int, text@.len() as int) == trimmed_start(
                text@,
                at as int,
                text@.len() as int,
            ),
        decreases text@.len() - at,
    {
        at = at + 1;
    }
    at
}

} // verus!
