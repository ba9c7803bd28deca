//! An in-memory graph container with directed or undirected edge semantics.
//!
//! The graph keeps a per-node adjacency store together with a canonical edge
//! map; an edge-key canonicalization rule makes undirected edges independent
//! of the order in which their endpoints are given.  Traversal is offered by
//! a family of cursor views over the adjacency store and the edge map.

use vstd::prelude::*;

pub mod edge;
pub mod graph;
pub mod laws;
pub mod model;
pub mod node;
pub mod traverse;

verus! {

pub use crate::graph::{Directed, Graph, Undirected, UndirectedGraph};
pub use crate::node::NodeTrait;

} // verus!
