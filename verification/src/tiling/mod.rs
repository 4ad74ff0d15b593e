//! How the terrain is carved into chunks, and the index arithmetic that crops and stitches the
//! tiles computed for them.

pub mod grid;
pub mod stitch;

pub use grid::{ChunkCoord, ChunkGrid};
pub use stitch::{assemble_tiles, crop_center};
