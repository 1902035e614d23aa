//! Errors of kernelization.

use crate::domain::VarType;
use crate::fixes::FixError;
use crate::fixes;
use crate::text;
use vstd::prelude::*;

verus! {

/// Why a kernelization step failed.
#[derive(Debug, Clone)]
pub enum KernelizationError {
    InvalidVariableIndex { index: usize, n_vars: usize },
    InvalidFixValue { index: usize, value: String, var_type: VarType },
    ConflictingFixes { index: usize },
    MappingMismatch { expected: usize, got: usize },
    InvalidSolutionLength { expected: usize, got: usize },
    LiftingError { source_fixed: usize, reduced_fixed: usize, expected_solution_length: usize },
    FixingError { source: Box<FixError> },
}

impl KernelizationError {
    /// The text of the error.
    pub open spec fn spec_message(&self) -> Seq<char> {
        match *self {
            KernelizationError::InvalidVariableIndex { index, n_vars } => "variable index "@
                + text::decimal(index as nat) + " is out of range 0.."@ + text::decimal(n_vars as nat),
            KernelizationError::InvalidFixValue { index, value, var_type } =>
            "invalid fixed value "@ + value@ + " for variable "@ + text::decimal(index as nat)
                + " with type "@ + fixes::var_type_name(var_type),
            KernelizationError::ConflictingFixes { index } =>
            "conflicting fixed values for variable "@ + text::decimal(index as nat),
            KernelizationError::MappingMismatch { expected, got } =>
            "mapping mismatch: expected source size "@ + text::decimal(expected as nat) + ", got "@
                + text::decimal(got as nat),
            KernelizationError::InvalidSolutionLength { expected, got } =>
            "invalid solution length: expected "@ + text::decimal(expected as nat) + ", got "@ + text::decimal(
                got as nat,
            ),
            KernelizationError::LiftingError {
                source_fixed,
                reduced_fixed,
                expected_solution_length,
            } => "lifting error: source has "@ + text::decimal(source_fixed as nat)
                + " fixed variables, reduced solution has "@ + text::decimal(reduced_fixed as nat)
                + " fixed variables, expected solution length "@ + text::decimal(
                expected_solution_length as nat,
            ),
            KernelizationError::FixingError { source } => "error applying fix: "@
                + source.spec_message(),
        }
    }

    /// The text of the error.
    pub fn message(&self) -> (r: String)
        ensures
            r@ == self.spec_message(),
    {
        let mut s = String::new();
        match self {
            KernelizationError::InvalidVariableIndex { index, n_vars } => {
                s.push_str("variable index ");
                text::push_decimal(&mut s, *index as u64);
                s.push_str(" is out of range 0..");
                text::push_decimal(&mut s, *n_vars as u64);
            },
            KernelizationError::InvalidFixValue { index, value, var_type } => {
                s.push_str("invalid fixed value ");
                s.push_str(value.as_str());
                s.push_str(" for variable ");
                text::push_decimal(&mut s, *index as u64);
                s.push_str(" with type ");
                match var_type {
                    VarType::Bin => s.push_str("Bin"),
                    VarType::Spin => s.push_str("Spin"),
                }
            },
            KernelizationError::ConflictingFixes { index } => {
                s.push_str("conflicting fixed values for variable ");
                text::push_decimal(&mut s, *index as u64);
            },
            KernelizationError::MappingMismatch { expected, got } => {
                s.push_str("mapping mismatch: expected source size ");
                text::push_decimal(&mut s, *expected as u64);
                s.push_str(", got ");
                text::push_decimal(&mut s, *got as u64);
            },
            KernelizationError::InvalidSolutionLength { expected, got } => {
                s.push_str("invalid solution length: expected ");
                text::push_decimal(&mut s, *expected as u64);
                s.push_str(", got ");
                text::push_decimal(&mut s, *got as u64);
            },
            KernelizationError::LiftingError {
                source_fixed,
                reduced_fixed,
                expected_solution_length,
            } => {
                s.push_str("lifting error: source has ");
                text::push_decimal(&mut s, *source_fixed as u64);
                s.push_str(" fixed variables, reduced solution has ");
                text::push_decimal(&mut s, *reduced_fixed as u64);
                s.push_str(" fixed variables, expected solution length ");
                text::push_decimal(&mut s, *expected_solution_length as u64);
            },
            KernelizationError::FixingError { source } => {
                s.push_str("error applying fix: ");
                let inner = source.message();
                s.push_str(inner.as_str());
            },
        }
        s
    }
}

} // verus!
