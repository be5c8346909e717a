//! Images of a page: matching them to layouts and handing them over.

pub mod catalog;
pub mod catalog_laws;
pub mod delivery;
pub mod images;
pub mod picture_laws;
pub mod raster;
