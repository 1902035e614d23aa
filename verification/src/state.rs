//! Incremental evaluation state.

use crate::domain::VarType;
use crate::term::Term;
use crate::term;
use vstd::prelude::*;

verus! {

/// Per-term status of an assignment.
#[derive(Debug)]
pub struct TermState {
    /// Whether the product of the term's variables is one.
    pub term_status: Vec<bool>,
    /// Over bits, how many of the term's variables are high; empty over spins.
    pub active_counts: Vec<usize>,
}

/// How many of the listed variables are high.
pub open spec fn high_count(idx: Seq<usize>, x: Seq<bool>) -> nat
    decreases idx.len(),
{
    if idx.len() == 0 {
        0
    } else {
        high_count(idx.drop_last(), x) + (if x[idx.last() as int] {
            1nat
        } else {
            0nat
        })
    }
}

impl TermState {
    /// The state describes the assignment `x`.
    pub open spec fn tracks(&self, vt: VarType, terms: Seq<Term>, x: Seq<bool>) -> bool {
        &&& self.term_status@.len() == terms.len()
        &&& forall|i: int|
            0 <= i < terms.len() ==> #[trigger] self.term_status@[i] == (term::monomial(
                vt,
                terms[i].indices@,
                x,
            ) == 1)
        &&& vt == VarType::Bin ==> self.active_counts@.len() == terms.len() && forall|i: int|
            0 <= i < terms.len() ==> #[trigger] self.active_counts@[i] == high_count(
                terms[i].indices@,
                x,
            )
        &&& vt == VarType::Spin ==> self.active_counts@.len() == 0
    }
}

/// Cached objective change of every single flip.
#[derive(Debug)]
pub struct DeltaCache {
    pub deltas: Vec<i64>,
    /// The epoch in which a variable was last marked for refresh.
    pub marks: Vec<u32>,
    pub mark_epoch: u32,
}

} // verus!
