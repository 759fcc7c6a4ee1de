//! CSG history: the node vocabulary, stable ids, members and evaluation errors.
//!
//! A building member is a shallow CSG tree ("sum of extrusions minus
//! openings"), the source of truth from which a B-rep is evaluated. The tree is
//! generic over its extrusion leaf `L`: the combinatorial rules here (which
//! members a tree clips against, which evaluation path a tree takes) never read
//! the leaf's geometry.

pub mod ids;
pub mod member;
pub mod node;

pub use crate::boolean::prismatic::error::Operand;
pub use ids::{OpeningId, StableId};
pub use member::{BrepAction, EvalError, Member, MemberPlan, UnsupportedReason};
pub use node::{ClipRule, CsgNode, Opening};
