//! Extraction of verse records from plain-text transcriptions of the
//! Taittiriya Samhita, with the catalogue of sources they come from.

pub mod catalog;
pub mod error;
pub mod number;
pub mod numbering;
pub mod pattern;
pub mod text;
pub mod verse;
