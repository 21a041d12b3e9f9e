//! The line-oriented command language.

pub mod program;
