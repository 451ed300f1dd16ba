//! An in-memory bundler for ECMAScript modules: a virtual file store, a
//! resolver for relative import specifiers, and the planning of the import
//! graph traversal that decides which modules go into a bundle, in which
//! order, or why the bundle fails.

pub mod bundler;
pub mod filesystem;
pub mod graph;
pub mod resolver;
mod text;
