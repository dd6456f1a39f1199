//! Rewrite retraction for an e-graph: a union-find with deletion, and an
//! undo engine that removes previously introduced e-nodes from their
//! e-classes when every root keeps an extractable (finite) term, then
//! garbage-collects the e-classes that are no longer reachable from a root.

pub mod egraph;
pub mod terms;
pub mod undo;
pub mod unionfind;
