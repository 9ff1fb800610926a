//! A satisfiability solver for propositional formulas in 3-CNF.
//!
//! A formula is a sequence of clauses of at most three literals. The solver
//! propagates unit clauses, probes every free variable with a 2-SAT test on
//! the clauses that mention it, and branches when no probe forces a value.
//! Every function carries a contract that Verus checks; the only trusted
//! parts are the calls into the graph library.

pub mod assignment;
pub mod clause;
pub mod dimacs;
pub mod error;
pub mod graph;
pub mod phi;
pub mod solver;
pub mod two_satisfiability;
