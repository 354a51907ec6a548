//! A parser for HTML-like markup that keeps the markup as it was written, with a document model
//! and CSS-like queries.
//!
//! - `text`, `attrs`, `tree`: characters and text, attributes, and trees as mathematical values.
//! - `grammar`, `parser`: what a markup text means, and the parser that reads it.
//! - `forest`, `pruning`, `levels`, `arena`: linked nodes, and the arena that holds them.
//! - `query`, `selector`: what a selector means, and its reading and matching.
//! - `document`: documents and handles to their nodes.
//! - `canonical`, `round_trip`, `verbatim`, `laws`: what holds of the library as a whole.
pub mod arena;
pub mod attrs;
pub mod canonical;
pub mod document;
pub mod forest;
pub mod grammar;
pub mod laws;
pub mod levels;
pub mod parser;
pub mod pruning;
pub mod query;
pub mod round_trip;
pub mod selector;
pub mod text;
pub mod tree;
pub mod verbatim;
