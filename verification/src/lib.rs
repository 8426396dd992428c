//! A borrow-liveness analysis over an abstracted control-flow fact model.
//!
//! Base relations describe borrows, control-flow edges, region liveness and
//! borrow invalidations.  From these the solver derives, by a monotone
//! Datalog-style fixpoint, the set of `(borrow, point)` pairs at which a
//! borrow is live.

pub mod facts;
pub mod intern;
pub mod ir;
pub mod lower;
pub mod parser;
pub mod solve;
pub mod tab_delim;
pub mod text;
