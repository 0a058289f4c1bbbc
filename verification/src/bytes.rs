//! Parsers recognizing token streams.
pub mod complete;
pub mod laws;
