//! From characters and fonts to text facts.

pub mod cmap_laws;
pub mod font_cmap;
pub mod font_laws;
pub mod glyph;
pub mod glyph_laws;
pub mod metadata;
pub mod page_text;
pub mod probe_laws;
pub mod reading_laws;
pub mod run_laws;
pub mod text;
