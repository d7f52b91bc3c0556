//! A stand-in credential store: a hierarchical, path-keyed map of secrets with
//! path-safety checks, a tree listing, and helpers for substituting itself for
//! the real tool inside a child process.
pub mod error;
pub mod path;
pub mod store;
pub mod codec;
pub mod json;
pub mod render;
pub mod policy;
pub mod session;
pub mod entry;
