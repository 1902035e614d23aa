//! Heuristic searches for good assignments.
//!
//! Each search is a state that makes one move per step. The caller reads the
//! clock and the interrupt flag and hands them to the step.

pub mod greedy;
pub mod parallel_tempering;
pub mod pool;
pub mod pool_laws;
pub mod rng;
pub mod run;
pub mod sa;
pub mod saw;
pub mod search_laws;
pub mod tabu;
pub mod walk;

use crate::domain::VarType;
use crate::solution::BitSolution;
use crate::solution;
use vstd::prelude::*;

verus! {

/// Why a search ended.
#[derive(Debug, Clone, Copy, PartialEq, Eq, Structural)]
pub enum Status {
    /// All moves were made.
    Completed,
    /// The time limit was reached.
    TimeLimit,
    /// An assignment at or below the cutoff was found.
    Cutoff,
    /// The search was interrupted.
    Interrupted,
}

/// The text of a status.
pub open spec fn status_text(s: Status) -> Seq<char> {
    match s {
        Status::Completed => "completed"@,
        Status::TimeLimit => "time limit"@,
        Status::Cutoff => "cutoff reached"@,
        Status::Interrupted => "interrupted"@,
    }
}

impl Status {
    /// The text of a status.
    pub fn as_str(&self) -> (r: &'static str)
        ensures
            r@ == status_text(*self),
    {
        match self {
            Status::Completed => "completed",
            Status::TimeLimit => "time limit",
            Status::Cutoff => "cutoff reached",
            Status::Interrupted => "interrupted",
        }
    }
}

/// What the caller saw before a step.
#[derive(Debug, Clone, Copy, PartialEq, Eq, Structural)]
pub struct Signals {
    pub interrupted: bool,
    pub timed_out: bool,
}

/// An assignment as a line of characters.
pub fn format_solution(solution: &BitSolution, var_type: VarType) -> (r: String)
    ensures
        r@ == solution::format_text(var_type, solution@),
{
    solution.format_string(var_type)
}

} // verus!
