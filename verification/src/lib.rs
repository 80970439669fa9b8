//! TrueType glyph subsetting engine.
//!
//! Given an opened font's tables (handed over as plain values) and a requested
//! set of glyph indices, the engine computes the transitive closure of glyphs
//! needed (composite glyphs reference other glyphs), reassigns them to a
//! compact new glyph-id space, rewrites the in-place binary glyph-id
//! references inside composite glyph records, and re-serializes the `hmtx`,
//! `loca` and `glyf` tables together with the patches for the `head`, `hhea`
//! and `maxp` headers.
//!
//! The crate also carries a few plain data records of the surrounding
//! document-production pipeline (ICC profile headers, page ranges).
#![allow(non_camel_case_types)]
#![allow(non_snake_case)]

pub mod bytes;
pub mod err;
pub mod extract;
pub mod font;
pub mod glyfrec;
pub mod icc;
pub mod pages;
pub mod registry;
pub mod serialize;

pub use err::SubsetError;
pub use extract::tt_get_metrics;
pub use font::{LongMetric, Os2Defaults, SourceFont};
pub use registry::{tt_glyph_desc, tt_glyphs};
pub use serialize::{tt_build_tables, BuiltTables};
