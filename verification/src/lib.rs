//! Front end of a small programming language: a symbolizer that turns code
//! points into positioned symbols, and a tree builder that grows an
//! arena-indexed syntax tree from them.

pub mod engine;
