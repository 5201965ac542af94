//! Satisfiability of propositional formulas written with the single
//! connective NAND (`↑`), by exhaustive search over variable assignments.

pub mod formula;
pub mod assignment;
pub mod evaluator;
pub mod search;
pub mod laws;
