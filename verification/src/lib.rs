//! An arena-based tree whose nodes are addressed by stable, creation-ordered
//! identifiers, together with a verified engine that reorders one parent's
//! children in place.
//!
//! The engine works in three stages: a snapshot of the current child order, a
//! stable planner that computes the target order, and an applier that realizes
//! the target order on the sibling chain using only a local
//! "move a node to just before a sibling" splice.

pub mod arena;
pub mod splice;
pub mod apply;
pub mod plan;
pub mod sort;
pub mod laws;
