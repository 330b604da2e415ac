//! Extraction of fenced code blocks from markdown text, and the decisions
//! that route each block to an interpreter.

pub mod block;
pub mod dispatch;
pub mod fence;
pub mod laws;
pub mod lines;
pub mod parser;
