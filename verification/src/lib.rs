//! A named tree with navigation to parents and children, kept in one arena,
//! and a builder that grows such a tree from the entries of a directory walk.
pub mod tree;
pub mod laws;
pub mod exclude;
pub mod walk;
pub mod render;
