//! Layout and text fusion for parsed documents.
//!
//! Lengths are whole numbers of ten-thousandths of a point and angles whole
//! numbers of ten-thousandths of a degree, so every comparison is exact.

use vstd::prelude::*;

pub mod blocks;
pub mod chars;
pub mod config;
pub mod context;
pub mod error;
pub mod extract;
pub mod figure;
pub mod fusion;
pub mod geometry;
pub mod label_laws;
pub mod label_policy;
pub mod layout;
pub mod line;
pub mod numerals;
pub mod ocr;
pub mod page;
pub mod parser;
pub mod parser_laws;
pub mod pdfium;
pub mod progress;
pub mod result;
pub mod rope;
pub mod sorting;
pub mod text_laws;
pub mod text_rules;
pub mod texts;
pub mod types;
