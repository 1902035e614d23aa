//! HUES: higher-order unconstrained binary and spin optimisation over exact
//! integer coefficients.

pub mod active;
pub mod basis;
pub mod bitset;
pub mod bounds;
pub mod chordal;
pub mod cliques;
pub mod coeff;
pub mod delta;
pub mod domain;
pub mod fixes;
pub mod granularity;
pub mod graph_laws;
pub mod heuristic;
pub mod instance;
pub mod kernelization;
pub mod lasserre;
pub mod lists;
pub mod merge;
pub mod moments;
pub mod node;
pub mod number;
pub mod number_laws;
pub mod objective_laws;
pub mod parity;
pub mod quadratic;
pub mod reach;
pub mod reduction;
pub mod restriction;
pub mod sets;
pub mod settings;
pub mod solution;
pub mod state;
pub mod sums;
pub mod term;
pub mod text;
pub mod unionfind;
pub mod views;
