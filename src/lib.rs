//! An elastic, range-sharded field store.
//!
//! Outer keys are hashed into a fixed slot space; a partition table maps
//! contiguous slot ranges to storage nodes, and an over-full node is split
//! at the midpoint of its range, handing the upper half to a fresh node.
pub mod allot;
pub mod assoc;
pub mod hashset;
pub mod node;
pub mod node_id;
pub mod slot;
