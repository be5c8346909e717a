//! The result of one page.

use vstd::prelude::*;

use crate::blocks::Block;
use crate::figure::delivery::PageImageAsset;
use crate::types::PageWarning;

verus! {

/// Everything that was found on one page.
#[derive(Debug)]
pub struct PageResult {
    pub page_number: u32,
    pub width: i32,
    pub height: i32,
    pub rotation: i32,
    pub blocks: Vec<Block>,
    pub images: Vec<PageImageAsset>,
    pub warnings: Vec<PageWarning>,
    /// Keys and values, in the order of the keys.
    pub diagnostics: Vec<(String, String)>,
}

impl PageResult {
    /// A page of blocks of which nothing else is said.
    pub fn new(page_number: u32, width: i32, height: i32, rotation: i32, blocks: Vec<Block>) -> (page:
        PageResult)
        ensures
            page.page_number == page_number,
            page.width == width,
            page.height == height,
            page.rotation == rotation,
            page.blocks == blocks,
            page.images@.len() == 0,
            page.warnings@.len() == 0,
            page.diagnostics@.len() == 0,
    {
        PageResult {
            page_number,
            width,
            height,
            rotation,
            blocks,
            images: Vec::new(),
            warnings: Vec::new(),
            diagnostics: Vec::new(),
        }
    }
}

} // verus!
