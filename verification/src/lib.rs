//! Locate math-expression spans inside Markdown text and either escape them
//! for a downstream Markdown renderer or replace them with typeset HTML.
//!
//! The core is a single-pass byte scanner that classifies ranges of a
//! document into plain text, inline math and display math, skipping fenced
//! and inline code and honouring backslash escapes of closing delimiters.
//! Its behaviour is specified by a recursive automaton over byte sequences
//! and the executable scanner is proved to emit exactly the events that the
//! automaton describes.

pub mod config;
pub mod encoding;
pub mod escape;
pub mod preprocess;
pub mod render;
pub mod scan;
