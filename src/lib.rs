//! Keeps documentation comments in Rust sources in step with the files they
//! are taken from.
//!
//! A pair of marker comments names a file and, optionally, where the taken
//! part of it begins and ends; the text between the markers is replaced by
//! that part, rendered as `///` or `//!` lines.
pub mod text_pos;
pub mod attr;
pub mod resolve;
pub mod engine;
pub mod fmt;
pub mod messages;
pub mod fixed_point;
