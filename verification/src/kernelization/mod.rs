//! Variable fixing that keeps an optimum.

pub mod components;
pub mod config;
pub mod coupling;
pub mod coupling_laws;
pub mod dominance;
pub mod dominance_laws;
pub mod error;
pub mod f2;
pub mod fixpoint_laws;
pub mod gap_laws;
pub mod kernelizer;
pub mod maxflow;
pub mod orbit_laws;
pub mod orbits;
pub mod pair_laws;
pub mod persistency;
pub mod propagate;
pub mod qpbo;
pub mod report_laws;
pub mod result;
pub mod roof_dual;
pub mod roof_laws;
pub mod rules;
pub mod run_laws;
pub mod sflip;
pub mod split;
pub mod symmetry_graph;
pub mod symmetry_laws;
