//! Converts markdown documents into Notion blocks.
pub mod laws;
pub mod markdown;
pub mod notion;
pub mod parser;
