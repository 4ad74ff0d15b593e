//! Verified core of a node-based terrain generator: the node graph's structure, the evaluation
//! scheduling and caching rules, the chunk layout of the terrain, and per-node feedback messages.

pub mod node;
pub mod assoc;
pub mod graph;
pub mod tiling;
pub mod evaluation;
pub mod sequences;
pub mod session;
pub mod project;
pub mod nodes;
