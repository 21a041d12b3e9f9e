//! A personal task tracker.
//!
//! Tasks have a random identifier, a validated non-empty name and an
//! optional due instant.  A line-oriented command language turns free
//! text into edit instructions, a disambiguator computes the shortest
//! unique identifier prefix for display, and a "due today" filter
//! selects the tasks to show.

pub mod commands;
pub mod config;
pub mod formatter;
pub mod json;
pub mod monoid;
pub mod parser;
pub mod semigroup;
pub mod task;
pub mod watch;
