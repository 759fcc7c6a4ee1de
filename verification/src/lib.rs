//! archi-kernel — the combinatorial core of a domain-specific B-rep kernel for
//! building simulation, verified with Verus.
//!
//! The kernel restricts its surfaces to planes and circular cylinders so that
//! every surface intersection has a closed form. Everything that decides *which*
//! piece of geometry survives — the boolean residency tables, the half-space
//! side rules, union-find grouping, the member dependency graph and its
//! evaluation order — lives here with machine-checked contracts.

pub mod boolean;
pub mod tolerance;
pub mod topo;
pub mod geom;
pub mod csg;
pub mod model;
pub mod clash;
pub mod curved;
pub mod mass;
