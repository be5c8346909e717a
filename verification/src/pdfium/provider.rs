//! Where documents are opened.

use vstd::prelude::*;

verus! {

/// Default provider on a thread of this process; no worker executable is required.
#[derive(Debug, Clone, Copy, PartialEq, Eq, Structural)]
pub struct LocalPdfiumProvider;

impl Default for LocalPdfiumProvider {
    fn default() -> (provider: LocalPdfiumProvider)
        ensures
            provider == LocalPdfiumProvider,
    {
        LocalPdfiumProvider
    }
}

} // verus!
