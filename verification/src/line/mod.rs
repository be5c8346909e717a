//! Grouping of text facts into lines.

pub mod assemble;
pub mod assembly_laws;
pub mod atom_laws;
pub mod axes;
pub mod axis_laws;
pub mod band_laws;
pub mod bidi;
pub mod conservation;
pub mod formula;
pub mod formula_laws;
pub mod fraction;
pub mod fragment;
pub mod inline;
pub mod mean;
pub mod metrics;
pub mod originals;
pub mod ownership;
pub mod projection;
pub mod projection_laws;
pub mod script_laws;
pub mod scripts;
