//! A small substring search over the lines of a text: the run configuration
//! built from command-line tokens, and the line filter itself.

pub mod config;
pub mod search;
pub mod text;

pub use config::Config;
pub use search::{line_contains, search};
