//! Resolves the shared libraries that a dynamically linked program lacks to
//! the packages that provide them, and renders the sandbox that runs it.

pub mod candidates;
pub mod error;
pub mod names;
pub mod prompt;
pub mod report;
pub mod script;
pub mod selection;
pub mod text;
pub mod tools;
