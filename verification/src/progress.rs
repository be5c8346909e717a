//! Observable progress of a parse.

use vstd::prelude::*;

verus! {

/// Actual document pipeline boundaries, independent of execution speed or platform.
#[derive(Debug, Clone, Copy, PartialEq, Eq, Structural)]
pub enum ParseProgress {
    Opening,
    Scanning { completed: u32, total: u32 },
    Analyzing { completed: u32, total: u32 },
    Linking { total: u32 },
    Complete { total: u32 },
}

} // verus!
