//! Facts about a document as a whole.

pub mod builder;
pub mod chrome_laws;
pub mod context_laws;
pub mod continuation_laws;
pub mod relation_laws;
pub mod relations;
pub mod standalone;
