//! The parsing engine: character classes, data types, utilities and the parser.

pub mod builder;
pub mod config;
pub mod laws;
pub mod literals;
pub mod parser;
pub mod registry;
pub mod round_trip;
pub mod symbols;
pub mod types;
pub mod util;
