//! Turns the flat package records of a lock file into a dependency graph and
//! renders that graph as a finite tree, expanding each package once.
//!
//! [`tree::Tree::new`] builds the graph of the records, failing on a reference
//! that names no package or more than one, and selects its roots: the packages
//! no other package depends on, in record order. [`tree::Tree::render`] walks
//! the graph depth first from the roots with one visited set for the whole
//! walk, so a package is expanded once and every later occurrence is a leaf.
pub mod graph;
pub mod laws;
pub mod package;
pub mod tree;
pub mod walk;
