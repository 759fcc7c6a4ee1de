//! Error type for the prismatic (2.5-D) boolean reduction.

use vstd::prelude::*;

verus! {

/// Which operand of a binary prismatic boolean a failure refers to.
#[derive(Debug, Clone, Copy, PartialEq, Eq, Structural)]
pub enum Operand {
    /// The positive / first operand (`A`).
    A,
    /// The negative / second operand (`B`).
    B,
}

/// Why a prismatic (2.5-D) reduction could not be carried out, or failed.
#[derive(Debug, Clone, PartialEq)]
pub enum PrismError {
    /// No prismatic direction is common to both operands.
    NoCommonDirection,
    /// An operand's extrusion axis is zero, i.e. it has no direction.
    DegenerateAxis,
    /// An operand has a circular cross-section whose boundary would land on the
    /// 2-D side as an arc.
    CircularInvolved {
        /// Which operand is circular.
        operand: Operand,
    },
    /// The 2-D engine reported an arc it cannot yet handle.
    ArcNotYetSupported,
    /// The reprofiled region or the band structure exceeded the complexity
    /// budget; the member is isolated.
    ComplexityLimit {
        /// The complexity measure that was hit.
        measure: usize,
        /// The budget it exceeded.
        budget: usize,
    },
    /// The 2-D engine rejected an input or failed internally; its diagnostic
    /// message is carried.
    Poly2(String),
    /// The assembled 3-D result failed structural validation; the defects are
    /// carried as diagnostic messages.
    InvalidResult(Vec<String>),
}

} // verus!
