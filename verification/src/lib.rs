//! Extraction of control-flow structure from textual compiler IR dumps.
//!
//! The library scans a sequence of raw text lines for function bodies,
//! segments each body into basic blocks, reconstructs predecessor and
//! successor edges from label annotations and branch instructions, and
//! renders the resulting graph as deterministic flowchart text.

pub mod model;
pub mod text;
pub mod parse;
pub mod render;
pub mod laws;
