//! An in-memory temporal property graph engine.
//!
//! A directed multigraph whose edges carry discrete integer event times and
//! whose nodes and edges carry constant and time-varying properties. Queries
//! compose lazy views over the store: half-open time windows, layered
//! subgraphs and per-event exploded edges.

#![verifier::loop_isolation(false)]

pub mod edge;
pub mod graph;
pub mod node;
pub mod path;
pub mod properties;
pub mod view;
pub mod windowset;
pub mod props;
pub mod runner;
pub mod snapshot;
pub mod time;

use vstd::prelude::*;

verus! {

/// Errors returned by the mutation and loading surface.
#[derive(Clone, Copy, PartialEq, Eq, Structural, Debug)]
pub enum GraphError {
    /// A snapshot payload does not match the current schema.
    GraphLoadError,
    /// A constant property was rewritten with a value of another type.
    PropertyTypeError,
    /// A layer name was demanded that the store does not know.
    UnknownLayer,
    /// A property mutation referenced a node that does not exist.
    MissingNode,
    /// A property mutation referenced an edge that does not exist.
    MissingEdge,
}

} // verus!
