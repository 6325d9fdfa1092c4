//! Plain-text extraction from decoded page content-stream operations.
//!
//! The pipeline has two stages: a stateful scanner that turns a flat
//! operation stream into text-object records by tracking begin/end
//! text-block markers, and a generic adjacent-run grouper that collapses
//! consecutive records with equal keys, so that back-to-back duplicate
//! draws contribute their text only once.

pub mod extract;
pub mod grouping;
pub mod operations;
pub mod scanner;
