//! Which rules run, and what they did.

use crate::text;
use vstd::prelude::*;

verus! {

/// The rules.
#[derive(Debug, Clone, Copy, PartialEq, Eq, Structural)]
pub enum KernelizationRuleId {
    ExternalFixes,
    Dominance,
    RoofDuality,
    SpinCouplingReduction,
    SflipSymmetry,
}

/// Which rules run, and how often.
#[derive(Debug, Clone, Copy, PartialEq, Eq, Structural)]
pub struct KernelizationConfig {
    pub enable_binary_dominance: bool,
    pub enable_spin_dominance: bool,
    /// Persistent labels over bits, from a minimum cut.
    pub enable_binary_roof_duality: bool,
    /// Persistent labels over spins, from a minimum cut.
    pub enable_spin_roof_duality: bool,
    pub remove_zero_coeff_terms: bool,
    pub max_rounds: usize,
    /// Eliminate pairs of spins that occur only together.
    pub enable_coupling_reduction: bool,
    pub enable_sflip_symmetry: bool,
}

impl Default for KernelizationConfig {
    fn default() -> (r: Self)
        ensures
            r == (KernelizationConfig {
                enable_binary_dominance: true,
                enable_spin_dominance: true,
                enable_binary_roof_duality: true,
                enable_spin_roof_duality: true,
                remove_zero_coeff_terms: true,
                max_rounds: 32,
                enable_coupling_reduction: false,
                enable_sflip_symmetry: true,
            }),
    {
        KernelizationConfig {
            enable_binary_dominance: true,
            enable_spin_dominance: true,
            enable_binary_roof_duality: true,
            enable_spin_roof_duality: true,
            remove_zero_coeff_terms: true,
            max_rounds: 32,
            enable_coupling_reduction: false,
            enable_sflip_symmetry: true,
        }
    }
}

impl KernelizationConfig {
    /// Nothing runs.
    pub fn none() -> (r: Self)
        ensures
            r == (KernelizationConfig {
                enable_binary_dominance: false,
                enable_spin_dominance: false,
                enable_binary_roof_duality: false,
                enable_spin_roof_duality: false,
                remove_zero_coeff_terms: false,
                max_rounds: 0,
                enable_coupling_reduction: false,
                enable_sflip_symmetry: false,
            }),
    {
        KernelizationConfig {
            enable_binary_dominance: false,
            enable_spin_dominance: false,
            enable_binary_roof_duality: false,
            enable_spin_roof_duality: false,
            remove_zero_coeff_terms: false,
            max_rounds: 0,
            enable_coupling_reduction: false,
            enable_sflip_symmetry: false,
        }
    }

    /// The rules that may run at every node of a search.
    pub fn node_level() -> (r: Self)
        ensures
            r == (KernelizationConfig {
                enable_binary_dominance: true,
                enable_spin_dominance: true,
                enable_binary_roof_duality: false,
                enable_spin_roof_duality: false,
                remove_zero_coeff_terms: true,
                max_rounds: 32,
                enable_coupling_reduction: false,
                enable_sflip_symmetry: false,
            }),
    {
        KernelizationConfig {
            enable_binary_dominance: true,
            enable_spin_dominance: true,
            enable_binary_roof_duality: false,
            enable_spin_roof_duality: false,
            remove_zero_coeff_terms: true,
            max_rounds: 32,
            enable_coupling_reduction: false,
            enable_sflip_symmetry: false,
        }
    }
}

/// What a kernelization did.
#[derive(Debug, Clone, Copy, PartialEq, Eq, Structural)]
pub struct KernelizationReport {
    pub initial_n_vars: usize,
    pub final_n_vars: usize,
    pub initial_n_terms: usize,
    pub final_n_terms: usize,
    pub rounds: usize,
    pub externally_fixed: usize,
    /// Variables fixed by rules.
    pub rule_fixed: usize,
    pub dominance_fixed: usize,
    /// Variables fixed by the gap to the incumbent.
    pub lb_fixing_fixed: usize,
    pub roof_duality_fixed: usize,
    /// Variables fixed by spin coupling, two per pair.
    pub coupling_fixed: usize,
    pub unconditional_coupling_pairs_detected: usize,
    pub conditional_coupling_pairs_detected: usize,
    /// Variables that followed others fixed in the same round.
    pub conditional_coupling_implied_fixed: usize,
    pub frustrated_pairs_detected: usize,
    pub sflip_symmetry_fixed: usize,
}

impl Default for KernelizationReport {
    fn default() -> (r: Self)
        ensures
            r == (KernelizationReport {
                initial_n_vars: 0,
                final_n_vars: 0,
                initial_n_terms: 0,
                final_n_terms: 0,
                rounds: 0,
                externally_fixed: 0,
                rule_fixed: 0,
                dominance_fixed: 0,
                lb_fixing_fixed: 0,
                roof_duality_fixed: 0,
                coupling_fixed: 0,
                unconditional_coupling_pairs_detected: 0,
                conditional_coupling_pairs_detected: 0,
                conditional_coupling_implied_fixed: 0,
                frustrated_pairs_detected: 0,
                sflip_symmetry_fixed: 0,
            }),
    {
        KernelizationReport {
            initial_n_vars: 0,
            final_n_vars: 0,
            initial_n_terms: 0,
            final_n_terms: 0,
            rounds: 0,
            externally_fixed: 0,
            rule_fixed: 0,
            dominance_fixed: 0,
            lb_fixing_fixed: 0,
            roof_duality_fixed: 0,
            coupling_fixed: 0,
            unconditional_coupling_pairs_detected: 0,
            conditional_coupling_pairs_detected: 0,
            conditional_coupling_implied_fixed: 0,
            frustrated_pairs_detected: 0,
            sflip_symmetry_fixed: 0,
        }
    }
}

/// A quotient rounded to the nearest integer, ties to the even one.
pub open spec fn rounded_quotient(a: nat, b: nat) -> nat {
    let q = a / b;
    let twice = 2 * (a % b);
    if twice > b || (twice == b && q % 2 == 1) {
        q + 1
    } else {
        q
    }
}

/// The tenths of a percent that `part` is of `whole`.
pub open spec fn tenths_of_percent(part: nat, whole: nat) -> nat {
    if whole == 0 {
        0
    } else {
        rounded_quotient(1000 * part, whole)
    }
}

/// A number of tenths with one decimal.
pub open spec fn one_decimal(tenths: nat) -> Seq<char> {
    text::decimal(tenths / 10) + "."@ + text::decimal(tenths % 10)
}

impl KernelizationReport {
    /// How many variables were fixed.
    pub open spec fn fixed_total(&self) -> nat {
        if self.initial_n_vars >= self.final_n_vars {
            (self.initial_n_vars - self.final_n_vars) as nat
        } else {
            0
        }
    }

    /// The first line of the summary.
    pub open spec fn summary_line(&self) -> Seq<char> {
        "kernelization summary: rounds="@ + text::decimal(self.rounds as nat) + ", vars "@ + text::decimal(
            self.initial_n_vars as nat,
        ) + " -> "@ + text::decimal(self.final_n_vars as nat) + " ("@ + text::decimal(self.fixed_total())
            + "/"@ + text::decimal(self.initial_n_vars as nat) + " fixed, "@ + one_decimal(
            tenths_of_percent(self.fixed_total(), self.initial_n_vars as nat),
        ) + "%)"@
    }

    /// The line that counts by rule.
    pub open spec fn rules_line(&self) -> Seq<char> {
        "  external_fixed="@ + text::decimal(self.externally_fixed as nat) + " | dominance="@ + text::decimal(
            self.dominance_fixed as nat,
        ) + " | lb_fixing="@ + text::decimal(self.lb_fixing_fixed as nat) + " | roof_duality="@
            + text::decimal(self.roof_duality_fixed as nat) + " | sflip="@ + text::decimal(
            self.sflip_symmetry_fixed as nat,
        ) + " | coupling="@ + text::decimal(self.coupling_fixed as nat)
    }

    /// The line on coupling.
    pub open spec fn coupling_line(&self) -> Seq<char> {
        "  coupling details: unconditional_pairs="@ + text::decimal(
            self.unconditional_coupling_pairs_detected as nat,
        ) + " | conditional_pairs="@ + text::decimal(self.conditional_coupling_pairs_detected as nat)
            + " | conditional_implied="@ + text::decimal(self.conditional_coupling_implied_fixed as nat)
            + " | frustrated_pairs="@ + text::decimal(self.frustrated_pairs_detected as nat)
    }

    fn summary(&self) -> (r: String)
        ensures
            r@ == self.summary_line(),
    {
        let fixed: usize = if self.initial_n_vars >= self.final_n_vars {
            self.initial_n_vars - self.final_n_vars
        } else {
            0
        };
        let tenths: u64 = if self.initial_n_vars == 0 {
            0
        } else {
            let a: u128 = 1000 * (fixed as u128);
            let b: u128 = self.initial_n_vars as u128;
            let q: u128 = a / b;
            let rem: u128 = a % b;
            proof {
                assert(a / b <= 1000 && a % b < b) by (nonlinear_arith)
                    requires
                        a <= 1000 * b,
                        b > 0,
                ;
            }
            let twice: u128 = 2 * rem;
            if twice > b || (twice == b && q % 2 == 1) {
                (q + 1) as u64
            } else {
                q as u64
            }
        };
        let mut s = String::new();
        s.push_str("kernelization summary: rounds=");
        text::push_decimal(&mut s, self.rounds as u64);
        s.push_str(", vars ");
        text::push_decimal(&mut s, self.initial_n_vars as u64);
        s.push_str(" -> ");
        text::push_decimal(&mut s, self.final_n_vars as u64);
        s.push_str(" (");
        text::push_decimal(&mut s, fixed as u64);
        s.push_str("/");
        text::push_decimal(&mut s, self.initial_n_vars as u64);
        s.push_str(" fixed, ");
        let ghost before = s@;
        text::push_decimal(&mut s, tenths / 10);
        s.push_str(".");
        text::push_decimal(&mut s, tenths % 10);
        assert(s@ =~= before + one_decimal(tenths as nat));
        s.push_str("%)");
        s
    }

    /// The summary in words.
    pub fn verbose_lines(&self) -> (r: Vec<String>)
        ensures
            r@.len() == (if self.coupling_fixed > 0 {
                3int
            } else {
                2
            }),
            r@[0]@ == self.summary_line(),
            r@[1]@ == self.rules_line(),
            self.coupling_fixed > 0 ==> r@[2]@ == self.coupling_line(),
    {
        let mut lines: Vec<String> = Vec::new();
        lines.push(self.summary());
        let mut s = String::new();
        s.push_str("  external_fixed=");
        text::push_decimal(&mut s, self.externally_fixed as u64);
        s.push_str(" | dominance=");
        text::push_decimal(&mut s, self.dominance_fixed as u64);
        s.push_str(" | lb_fixing=");
        text::push_decimal(&mut s, self.lb_fixing_fixed as u64);
        s.push_str(" | roof_duality=");
        text::push_decimal(&mut s, self.roof_duality_fixed as u64);
        s.push_str(" | sflip=");
        text::push_decimal(&mut s, self.sflip_symmetry_fixed as u64);
        s.push_str(" | coupling=");
        text::push_decimal(&mut s, self.coupling_fixed as u64);
        lines.push(s);
        if self.coupling_fixed > 0 {
            let mut c = String::new();
            c.push_str("  coupling details: unconditional_pairs=");
            text::push_decimal(&mut c, self.unconditional_coupling_pairs_detected as u64);
            c.push_str(" | conditional_pairs=");
            text::push_decimal(&mut c, self.conditional_coupling_pairs_detected as u64);
            c.push_str(" | conditional_implied=");
            text::push_decimal(&mut c, self.conditional_coupling_implied_fixed as u64);
            c.push_str(" | frustrated_pairs=");
            text::push_decimal(&mut c, self.frustrated_pairs_detected as u64);
            lines.push(c);
        }
        lines
    }
}

} // verus!
