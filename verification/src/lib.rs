//! Resolution of command arguments against a tree-shaped schema.
//!
//! A command declares the arguments it takes as a tree: typed leaves, and
//! groups that route to further nodes and may carry a handler. An invocation
//! reaches the library either as the options of an interaction, already named
//! and typed, or as the raw text of a message. [`argument::Argument::parse`]
//! resolves either of them to the handler to run and the named values to
//! hand to it, or to nothing where the input selects no handler.
//!
//! The handler is whatever the schema carries: the library selects it and
//! hands it back, and never calls it.

pub mod argument;
pub mod argument_map;
pub mod commands;
pub mod framework;
pub mod interaction;
pub mod laws;
pub mod message;
pub mod settings;
pub mod text;
pub mod tokenizer;
pub mod walk;
