//! A stream editor in the tradition of GNU `sed`, as an embeddable library.

pub mod blocks;
pub mod bre;
pub mod cli;
pub mod collecting;
pub mod command;
pub mod compiling;
pub mod dialects;
pub mod effects;
pub mod engine;
pub mod error;
pub mod grammar;
pub mod input;
pub mod joining;
pub mod laws;
pub mod listing;
pub mod machine;
pub mod oneliners;
pub mod pattern;
pub mod program;
pub mod ranges;
pub mod refusals;
pub mod replacing;
pub mod script;
pub mod sed;
pub mod selection;
pub mod session;
pub mod substitute;
pub mod text;
pub mod unescape;
pub mod writing;

pub use cli::Options;
pub use error::{Error, Result};
pub use sed::{eval, Sed};
