//! The combinatorial side of the 2-D polygon boolean engine: the keep tables,
//! orientation flags, snapped vertex ids, and the split-and-dedup step that
//! turns input segments into arrangement edges with per-operand windings.

pub mod arrangement;
pub mod classify;
pub mod dcel;
pub mod geom;
pub mod intersect;
pub mod reconstruct;
pub mod snap;

pub use classify::{inside, Op};
pub use geom::Orient;
pub use snap::VertexId;
