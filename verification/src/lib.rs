//! Incremental builder for a directed dependency graph over a dotted module
//! namespace.
//!
//! The crate models modules as nodes keyed by their canonical dotted name,
//! tracks dependency and dependent edges between them, and maintains a
//! shortest-depth-from-root metric.  A [`builder::GraphBuilder`] expands the
//! import statements of a source unit into such a graph, consulting external
//! collaborators (a name resolver, a source loader and a statement parser)
//! through traits, and caches finished subgraphs across builds.

pub mod builder;
pub mod errors;
pub mod graph;
pub mod import_stmt;
pub mod module_spec;
pub mod name_resolution;
pub mod names;
