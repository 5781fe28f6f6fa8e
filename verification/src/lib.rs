//! An in-memory computation graph with memoized evaluation and transitive
//! cache invalidation.
//!
//! Nodes live in an arena ([`graph::Graph`]) and are addressed through small
//! handle types ([`graph::Node`], [`graph::Input`]). Each node owns a pure
//! transformation, optional external input values, edges to the nodes whose
//! outputs feed it, and a memoized output. Computing a node forces its
//! dependencies depth-first and fills caches bottom-up; mutating a node's
//! input or edges clears every cache that transitively consumed it. Values
//! are opaque 64-bit words, so an embedding is free to store, for instance,
//! float bit patterns in them.

pub mod graph;
pub mod model;
