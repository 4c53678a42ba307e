//! Extraction of tagged documentation blocks from doc comments, and the
//! planning of the markdown tree that mirrors them.

pub mod config;
pub mod mermaid;
pub mod parser;
pub mod pattern;
pub mod summary;
pub mod sync;
pub mod text;
pub mod writer;
