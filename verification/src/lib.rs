//! Grid diagrams for mathematical knots and their legal transformations.
//!
//! A knot is encoded as an n-by-n grid in which every row and every column
//! carries exactly one over-mark (`'x'`) and one under-mark (`'o'`).  The
//! crate validates such diagrams, applies the Cromwell moves (translation,
//! commutation, stabilization), extracts the closed combinatorial circuit
//! that the marks induce, and resolves the circuit's crossings into lift
//! information for a three-dimensional embedding.

pub mod diagram;
pub mod grid;
pub mod knot;
pub mod tangle;
pub mod topology;
