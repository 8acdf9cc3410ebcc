//! In-memory registry of loaded images with PNG text-metadata extraction.
//!
//! The library has two halves: `extract` parses the chunk structure of a
//! PNG byte stream and collects the uncompressed Latin-1 text entries
//! (`tEXt` chunks), and `registry` maintains the ordered list of loaded
//! images together with a single "focused" selection.

pub mod extract;
pub mod registry;
