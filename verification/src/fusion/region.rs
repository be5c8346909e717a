//! Paths in the tree of fallback regions.

use vstd::prelude::*;

use crate::chars::{push_decimal, push_text, text_of_decimal};

verus! {

/// Axis used by one recursive whitespace cut.
#[derive(Debug, Clone, Copy, PartialEq, Eq, Structural)]
pub enum CutAxis {
    Horizontal,
    Vertical,
}

/// The way from the root of the tree to a region.
#[derive(Debug)]
pub enum RegionPath {
    Root,
    Child { parent: Box<RegionPath>, axis: CutAxis, ordinal: u32 },
}

impl RegionPath {
    /// The path of a part of a region.
    pub open spec fn part(self, axis: CutAxis, ordinal: u32) -> RegionPath {
        RegionPath::Child { parent: Box::new(self), axis, ordinal }
    }

    /// Spelling of the path.
    pub open spec fn text(self) -> Seq<char>
        decreases self,
    {
        match self {
            RegionPath::Root => "r"@,
            RegionPath::Child { parent, axis, ordinal } => parent.text() + (match axis {
                CutAxis::Horizontal => ".h"@,
                CutAxis::Vertical => ".v"@,
            }) + text_of_decimal(ordinal as nat),
        }
    }

    /// The root of the tree.
    pub fn root() -> (path: RegionPath)
        ensures
            path == RegionPath::Root,
    {
        RegionPath::Root
    }

    /// The path of a part of a region that is cut horizontally.
    pub fn horizontal_child(&self, ordinal: u32) -> (path: RegionPath)
        ensures
            path == self.part(CutAxis::Horizontal, ordinal),
    {
        self.child(CutAxis::Horizontal, ordinal)
    }

    /// The path of a part of a region that is cut vertically.
    pub fn vertical_child(&self, ordinal: u32) -> (path: RegionPath)
        ensures
            path == self.part(CutAxis::Vertical, ordinal),
    {
        self.child(CutAxis::Vertical, ordinal)
    }

    /// The path of a part of a region.
    pub fn child(&self, axis: CutAxis, ordinal: u32) -> (path: RegionPath)
        ensures
            path == self.part(axis, ordinal),
    {
        RegionPath::Child { parent: Box::new(self.copy()), axis, ordinal }
    }

    /// An equal path.
    pub fn copy(&self) -> (copy: RegionPath)
        ensures
            copy == *self,
        decreases self,
    {
        match self {
            RegionPath::Root => RegionPath::Root,
            RegionPath::Child { parent, axis, ordinal } => RegionPath::Child {
                parent: Box::new((&**parent).copy()),
                axis: *axis,
                ordinal: *ordinal,
            },
        }
    }

    /// Appends the spelling to a text.
    pub fn write_to(&self, text: &mut String)
        ensures
            final(text)@ == old(text)@ + self.text(),
        decreases self,
    {
        let ghost before = text@;
        match self {
            RegionPath::Root => {
                push_text(text, "r");
            },
            RegionPath::Child { parent, axis, ordinal } => {
                (&**parent).write_to(text);
                match axis {
                    CutAxis::Horizontal => {
                        push_text(text, ".h");
                    },
                    CutAxis::Vertical => {
                        push_text(text, ".v");
                    },
                }
                push_decimal(text, *ordinal as u64);
                assert(text@ =~= before + self.text());
            },
        }
    }

    /// The spelling.
    pub fn to_text(&self) -> (text: String)
        ensures
            text@ == self.text(),
    {
        let mut text: String = String::new();
        self.write_to(&mut text);
        assert(text@ =~= self.text());
        text
    }
}

} // verus!
