//! Prismatic (2.5-D) boolean reduction: the operand vocabulary, the error type,
//! the dispatch decisions of the entry points, and the assembly of traced
//! loops into cells.

pub mod cells;
pub mod detect;
pub mod error;
pub mod plan;
pub mod voxels;

pub use error::{Operand, PrismError};
pub use plan::{opening_residency, opening_subtraction_plan, union_plan, OpeningPlan, UnionPlan, DEFAULT_BUDGET};
