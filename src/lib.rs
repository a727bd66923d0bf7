//! Compiles multi-semester course-scheduling rules into a linear constraint
//! model over boolean placement variables, and drives the two-stage
//! (minimum credits, then balanced load) optimisation.
pub mod catalog;
pub mod context;
pub mod geneds;
pub mod laws;
pub mod linear;
pub mod pipeline;
pub mod prereqs;
pub mod rows;
pub mod two_stage;
