//! Source scanning and import resolution: which files exist, what each one
//! refers to, and what those references resolve to without an install.
pub mod tree;
pub mod graph;
pub mod extract;
pub mod cache;
pub mod resolve;
pub mod syntax;
pub mod captures;
pub mod workspace;
pub mod rules;
pub mod scan;
pub mod assemble;
pub mod edges;
