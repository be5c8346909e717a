//! Tables of text normalization.

use vstd::prelude::*;

verus! {

/// A ligature and the letters it stands for.
#[derive(Debug)]
pub struct Ligature {
    pub character: char,
    pub letters: Vec<char>,
}

/// A range of code points, both ends included.
#[derive(Debug, Clone, Copy, PartialEq, Eq, Structural)]
pub struct CodeRange {
    pub first: u32,
    pub last: u32,
}

/// The tables that normalize text.
#[derive(Debug)]
pub struct TextRules {
    /// Marks and the marks they are normalized to.
    pub punctuation: Vec<(char, char)>,
    pub ligatures: Vec<Ligature>,
    /// Code points that say little about what is drawn.
    pub suspicious: Vec<CodeRange>,
}

/// The mark that the table, from entry `i` on, gives for a character.
pub open spec fn mark_from(table: Seq<(char, char)>, c: char, i: int) -> char
    decreases table.len() - i,
{
    if i < 0 || i >= table.len() {
        c
    } else if table[i].0 == c {
        table[i].1
    } else {
        mark_from(table, c, i + 1)
    }
}

/// The letters that the table, from entry `i` on, gives for a character.
pub open spec fn letters_from(table: Seq<Ligature>, c: char, i: int) -> Option<Seq<char>>
    decreases table.len() - i,
{
    if i < 0 || i >= table.len() {
        None
    } else if table[i].character == c {
        Some(table[i].letters@)
    } else {
        letters_from(table, c, i + 1)
    }
}

impl TextRules {
    /// A character with its punctuation normalized.
    pub open spec fn mark(self, c: char) -> char {
        mark_from(self.punctuation@, c, 0)
    }

    /// The letters of a ligature.
    pub open spec fn letters(self, c: char) -> Option<Seq<char>> {
        letters_from(self.ligatures@, c, 0)
    }

    /// Whether a code point says little about what is drawn.
    pub open spec fn suspects(self, code: u32) -> bool {
        exists|i: int|
            0 <= i < self.suspicious@.len() && (#[trigger] self.suspicious@[i]).first <= code
                <= self.suspicious@[i].last
    }

    /// Normalizes one punctuation mark.
    pub fn normalize_punctuation(&self, c: char) -> (mark: char)
        ensures
            mark == self.mark(c),
    {
        let mut i: usize = 0;
        while i < self.punctuation.len()
            invariant
                i <= self.punctuation@.len(),
                self.mark(c) == mark_from(self.punctuation@, c, i as int),
            decreases self.punctuation@.len() - i,
        {
            if self.punctuation[i].0 == c {
                return self.punctuation[i].1;
            }
            i = i + 1;
        }
        c
    }

    /// The letters of a ligature.
    pub fn ligature_expansion(&self, c: char) -> (letters: Option<&Vec<char>>)
        ensures
            match letters {
                Some(found) => self.letters(c) == Some(found@),
                None => self.letters(c) is None,
            },
    {
        let mut i: usize = 0;
        while i < self.ligatures.len()
            invariant
                i <= self.ligatures@.len(),
                self.letters(c) == letters_from(self.ligatures@, c, i as int),
            decreases self.ligatures@.len() - i,
        {
            if self.ligatures[i].character == c {
                return Some(&self.ligatures[i].letters);
            }
            i = i + 1;
        }
        None
    }

    /// Whether a code point says little about what is drawn.
    pub fn suspicious_codepoint(&self, code: u32) -> (yes: bool)
        ensures
            yes == self.suspects(code),
    {
        let mut i: usize = 0;
        while i < self.suspicious.len()
            invariant
                i <= self.suspicious@.len(),
                forall|k: int|
                    0 <= k < i ==> !((#[trigger] self.suspicious@[k]).first <= code
                        <= self.suspicious@[k].last),
            decreases self.suspicious@.len() - i,
        {
            let range: CodeRange = self.suspicious[i];
            if range.first <= code && code <= range.last {
                assert(self.suspicious@[i as int].first <= code);
                return true;
            }
            i = i + 1;
        }
        false
    }
}

} // verus!
