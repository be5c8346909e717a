//! The analysis of one page.

pub mod complete;
pub mod compose;
pub mod page_laws;
pub mod prepare;
pub mod recognized;
