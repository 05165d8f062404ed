//! Failure values for graph operations and builds.
//!
//! Skippable conditions (a name that does not resolve, a source that cannot
//! be loaded) are not errors: the builder logs nothing and simply goes on.
//! The variants here are the fatal conditions: broken preconditions of a
//! graph operation, or an import structure the expansion cannot safely
//! proceed past.  Each names the module that triggered it.

use vstd::prelude::*;

verus! {

/// A broken precondition of a graph operation.
#[derive(Debug)]
pub enum GraphError {
    /// A node with this name is already present.
    DuplicateNode(String),
    /// No node with this name is present.
    UnknownNode(String),
    /// An edge was added from a node whose depth is not yet known.
    UninitializedDepth(String),
    /// A depth would exceed the machine limit of the depth counter.
    DepthOverflow(String),
    /// Two nodes with this name disagree on their recorded origin.
    MergeIdentityConflict(String),
}

/// A fatal condition aborting a build.
#[derive(Debug)]
pub enum BuildError {
    /// A graph operation failed while the build mutated its graph.
    Graph(GraphError),
    /// A module's imports were expanded while already mid-expansion.
    CircularExpansion(String),
    /// A relative import was made from the parentless entry unit.
    RelativeImportFromRoot(String),
    /// A relative import reached above the top-level package; the payload
    /// is the enclosing package it was resolved against.
    InvalidRelativeImport(String),
    /// An import-from statement came without a module or level.
    MalformedImportFrom,
    /// The statement parser could not parse this module's source.
    ParseFailure(String),
    /// The expansion consumed its recursion budget.  The budget is far
    /// beyond any realistic build; this guards against collaborators that
    /// keep inventing fresh modules forever.
    ExpansionBudgetExceeded,
}

} // verus!
