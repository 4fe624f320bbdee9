//! A CNF satisfiability engine: a clause database with an occurrence index
//! and a unit worklist, unit propagation and pure-literal simplification,
//! a plain backtracking search (DPLL), and a graph-augmented variant that
//! records an implication graph and derives learned clauses from conflicts.
#![verifier::loop_isolation(false)]

mod cfcl;
mod clause;
mod clause_db;
mod cnf;
mod cnf_graph;
mod dpll;
mod lit;
mod model;
mod rng;

pub use cfcl::cfcl;
pub use clause::Clause;
pub use clause::Clauses;
pub use clause_db::FakeHashSet;
pub use cnf::Cnf;
pub use cnf_graph::CnfGraph;
pub use dpll::dpll;
pub use dpll::PartialSolution;
pub use lit::Lit;
pub use lit::SatError;

use vstd::prelude::*;

verus! {

/// How a branching candidate is chosen: deterministically by the literal
/// order, or uniformly at random among the occurring literals.
#[derive(Debug, Clone, Copy)]
pub enum Strategy {
    Direct,
    Random,
}

} // verus!
