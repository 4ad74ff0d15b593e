//! Evaluation bookkeeping: which node outputs are cached for which chunk, and the scheduling
//! decisions that drive a node's ancestors to a fully cached state.

pub mod cache;
pub mod frame;
pub mod plan;
pub mod process;

pub use cache::{Cache, CacheEntry, CacheState, CacheUuid, EvalScope};
