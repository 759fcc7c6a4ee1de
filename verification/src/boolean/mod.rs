//! Boolean machinery: the residency truth tables, the half-space side rules and
//! the shared union-find helpers.

pub mod coplanar_rules;
pub mod prismatic;
pub mod poly2d;
pub mod support;
pub mod components;
pub mod half_space;
pub mod cut_actions;
pub mod nesting;
pub mod kept_loops;
pub mod caps;
