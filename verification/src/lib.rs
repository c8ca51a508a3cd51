//! Production-schedule optimisation: a resource ledger, a batching engine,
//! a dependency-weighted fitness model and a genetic search over candidate
//! orders of processes.

pub mod ast;
pub mod check;
pub mod dna;
pub mod error;
pub mod genetic;
pub mod heuristic;
pub mod inventory;
pub mod node;
pub mod parser;
pub mod score;
pub mod simulate;
pub mod solver;
pub mod utils;
