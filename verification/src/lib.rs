//! Template materialization: a registry of template repositories, lookup of
//! templates inside a repository, and rendering of a template's file tree
//! into a workspace with placeholder substitution.

pub mod error;
pub mod text;
pub mod context;
pub mod render;
pub mod tree;
pub mod engine;
pub mod registry;
pub mod resolver;
pub mod catalog;
pub mod actions;
