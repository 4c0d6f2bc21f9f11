//! Discovery of the transitive dependency graph of a project whose
//! dependency manifests are published as versioned text files.

pub mod bound;
pub mod crawler;
pub mod descent;
pub mod document;
pub mod fetch;
pub mod graph;
pub mod laws;
pub mod manifest;
pub mod text;
pub mod url;
pub mod visited;
pub mod walk;
