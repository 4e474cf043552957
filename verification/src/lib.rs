//! A personal command-reference library: entries pairing a shell command's
//! name with a free-text description, kept in insertion order with unique
//! names, together with the text format in which a collection is persisted.

pub mod commands;
pub mod front;
pub mod store;

pub use commands::Command;
pub use commands::CommandList;
