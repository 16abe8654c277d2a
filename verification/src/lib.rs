//! A set-theoretic constraint algebra.
//!
//! The flat layer is a value domain over atomic literals, the primitive
//! kinds, integer and exact-real intervals, ordered tuples and unions, with a
//! subsumption decision procedure, refinement, union, intersection and
//! reduction to a canonical form.
//!
//! The recursive layer generalizes the algebra to graph-structured
//! constraints: a named graph of nodes in which `Def(name)` refers back to
//! another node, with a coinductive subsumption check that carries an
//! assumption set to break cycles, so recursive schemata such as lists are
//! decided finitely.

pub mod constraint;
pub mod expr;
pub mod fixed;
pub mod interval;
pub mod node;
pub mod pretty;

pub use constraint::Constraint;
pub use expr::ConstraintExpr;
pub use node::AtomicConstraint;
pub use node::ConstraintNode;
