//! Library for re-tagging aligned-read records: decodes cell barcodes and
//! UMIs from structured read names, synthesizes or looks up per-base quality
//! strings, and persists the parsed quality map in a binary cache format.

pub mod cache;
pub mod hts;
pub mod loader;
pub mod name;
pub mod qmap;
pub mod quality;
pub mod scan;
pub mod tagger;
pub mod text;
pub mod token;
