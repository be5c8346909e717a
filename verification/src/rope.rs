//! Text that grows by joining.

use vstd::prelude::*;

use crate::chars::{chars_of, ink, ink_upto, is_whitespace, push_text};

verus! {

/// A text made of pieces.
#[derive(Debug)]
pub enum Rope {
    Text(String),
    Join(Box<Rope>, Box<Rope>),
}

impl Rope {
    /// The characters from first to last.
    pub open spec fn content(self) -> Seq<char>
        decreases self,
    {
        match self {
            Rope::Text(text) => text@,
            Rope::Join(head, tail) => head.content() + tail.content(),
        }
    }
}

impl View for Rope {
    type V = Seq<char>;

    open spec fn view(&self) -> Seq<char> {
        self.content()
    }
}

impl Rope {
    /// A rope of one piece.
    pub fn new(text: String) -> (rope: Rope)
        ensures
            rope == Rope::Text(text),
            rope@ == text@,
    {
        Rope::Text(text)
    }

    /// One rope behind another.
    pub fn join(head: Rope, tail: Rope) -> (rope: Rope)
        ensures
            rope == Rope::Join(Box::new(head), Box::new(tail)),
            rope@ == head@ + tail@,
    {
        Rope::Join(Box::new(head), Box::new(tail))
    }

    /// An equal rope.
    pub fn copy(&self) -> (copy: Rope)
        ensures
            copy == *self,
        decreases self,
    {
        match self {
            Rope::Text(text) => Rope::Text(text.clone()),
            Rope::Join(head, tail) => Rope::Join(
                Box::new((&**head).copy()),
                Box::new((&**tail).copy()),
            ),
        }
    }

    /// The characters from first to last.
    pub fn chars(&self) -> (all: Vec<char>)
        ensures
            all@ == self@,
        decreases self,
    {
        match self {
            Rope::Text(text) => chars_of(text.as_str()),
            Rope::Join(head, tail) => {
                let mut all: Vec<char> = (&**head).chars();
                let mut more: Vec<char> = (&**tail).chars();
                all.append(&mut more);
                all
            },
        }
    }

    /// Appends the characters to a text.
    pub fn write_to(&self, text: &mut String)
        ensures
            final(text)@ == old(text)@ + self@,
        decreases self,
    {
        let ghost before = text@;
        match self {
            Rope::Text(piece) => {
                push_text(text, piece.as_str());
            },
            Rope::Join(head, tail) => {
                (&**head).write_to(text);
                (&**tail).write_to(text);
                assert(text@ =~= before + self@);
            },
        }
    }

    /// The text in one piece.
    pub fn to_text(&self) -> (text: String)
        ensures
            text@ == self@,
    {
        let mut text: String = String::new();
        self.write_to(&mut text);
        assert(text@ =~= self@);
        text
    }

    /// Number of characters that are no blanks.
    pub fn ink_count(&self) -> (count: usize)
        ensures
            count == ink(self@),
    {
        let all: Vec<char> = self.chars();
        let mut count: usize = 0;
        let mut i: usize = 0;
        while i < all.len()
            invariant
                all@ == self@,
                i <= all@.len(),
                count <= i,
                count == ink_upto(self@, i as int),
            decreases all@.len() - i,
        {
            if !is_whitespace(all[i]) {
                count = count + 1;
            }
            i = i + 1;
        }
        count
    }
}

} // verus!
