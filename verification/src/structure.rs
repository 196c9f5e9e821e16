//! The tree, its abstract form, and what is proved of both.

pub mod bst;
pub mod laws;
pub mod links;
pub mod shape;
pub mod shape_facts;
