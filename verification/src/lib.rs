//! A trove of named, namespaced shell command snippets.
//!
//! The collection manager in [`command::trove`] resolves name collisions,
//! keeps track of namespaces and merges collections. Every executable
//! function carries a contract over the mathematical model in
//! [`command::model`].

pub mod command;
pub mod config;
pub mod text;
