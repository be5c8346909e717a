//! The protocol of the isolated PDFium process.

pub mod ipc;
pub mod provider;
pub mod raster;
pub mod worker;
pub mod worker_laws;
