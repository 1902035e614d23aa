//! Variable domains and domain-specific objective operations.

use crate::delta;
use crate::fixes::Fixes;
use crate::fixes;
use crate::granularity;
use crate::instance::HuboInstance;
use crate::instance;
use crate::sets;
use crate::solution::BitSolution;
use crate::solution;
use crate::state::TermState;
use crate::state;
use crate::term::Term;
use crate::term;
use vstd::prelude::*;

verus! {

/// Runtime tag of a variable domain.
#[derive(Debug, Clone, Copy, PartialEq, Eq, Structural)]
pub enum VarType {
    /// Variables in {0, 1}.
    Bin,
    /// Variables in {-1, +1}.
    Spin,
}

/// Variables in {0, 1}.
#[derive(Debug, Clone, Copy, PartialEq, Eq)]
pub struct Bin;

/// Variables in {-1, +1}.
#[derive(Debug, Clone, Copy, PartialEq, Eq)]
pub struct Spin;

/// The values of a domain.
pub open spec fn valid_value(vt: VarType, v: int) -> bool {
    v == term::bit_value(vt, false) || v == term::bit_value(vt, true)
}

/// How often `v` is listed.
pub open spec fn occurrences(idx: Seq<usize>, v: usize) -> nat
    decreases idx.len(),
{
    if idx.len() == 0 {
        0
    } else {
        occurrences(idx.drop_last(), v) + (if idx.last() == v {
            1nat
        } else {
            0nat
        })
    }
}

/// `v` survives in the reduced form of `idx`: every listed variable over
/// bits, where squares are idempotent, and those listed an odd number of times
/// over spins, where squares are one.
pub open spec fn survives(vt: VarType, idx: Seq<usize>, v: usize) -> bool {
    match vt {
        VarType::Bin => occurrences(idx, v) > 0,
        VarType::Spin => occurrences(idx, v) % 2 == 1,
    }
}

/// `r` is the reduced form of `idx`.
pub open spec fn is_reduced_form(vt: VarType, idx: Seq<usize>, r: Seq<usize>) -> bool {
    sets::ascending(r) && forall|v: usize| #[trigger] r.contains(v) == survives(vt, idx, v)
}

/// The listed variables that are free, renamed by `map`.
pub open spec fn free_renamed(
    idx: Seq<usize>,
    f: Seq<Option<bool>>,
    map: Seq<usize>,
) -> Seq<usize>
    decreases idx.len(),
{
    if idx.len() == 0 {
        Seq::empty()
    } else if fixes::fixed_at(f, idx.last() as int) is None {
        free_renamed(idx.drop_last(), f, map).push(map[idx.last() as int])
    } else {
        free_renamed(idx.drop_last(), f, map)
    }
}

/// Some listed variable is fixed low.
pub open spec fn has_low(idx: Seq<usize>, f: Seq<Option<bool>>) -> bool {
    exists|i: int| 0 <= i < idx.len() && fixes::fixed_at(f, (#[trigger] idx[i]) as int) == Some(false)
}

/// An odd number of listed entries is fixed low.
pub open spec fn odd_lows(idx: Seq<usize>, f: Seq<Option<bool>>) -> bool
    decreases idx.len(),
{
    if idx.len() == 0 {
        false
    } else {
        odd_lows(idx.drop_last(), f) != (fixes::fixed_at(f, idx.last() as int) == Some(false))
    }
}

/// A term under fixes: `None` when it vanishes, otherwise its new coefficient
/// and its free variables, renamed.
pub open spec fn folded(
    vt: VarType,
    idx: Seq<usize>,
    c: int,
    f: Seq<Option<bool>>,
    map: Seq<usize>,
) -> Option<(int, Seq<usize>)> {
    match vt {
        VarType::Bin => if has_low(idx, f) {
            None
        } else {
            Some((c, free_renamed(idx, f, map)))
        },
        VarType::Spin => Some(
            (
                if odd_lows(idx, f) {
                    -c
                } else {
                    c
                },
                free_renamed(idx, f, map),
            ),
        ),
    }
}

/// The entries of `idx` other than `v`.
pub open spec fn without(idx: Seq<usize>, v: usize) -> Seq<usize>
    decreases idx.len(),
{
    if idx.len() == 0 {
        Seq::empty()
    } else if idx.last() == v {
        without(idx.drop_last(), v)
    } else {
        without(idx.drop_last(), v).push(idx.last())
    }
}

/// The coefficient of a partially assigned term after one more variable is
/// fixed to `high`.
pub open spec fn fixed_coeff(vt: VarType, c: int, high: bool) -> int {
    if high {
        c
    } else {
        c * term::bit_value(vt, false)
    }
}

/// A variable domain. Implemented by [`Bin`] and [`Spin`].
pub trait VarDomain: Sized {
    /// The domain's tag.
    spec fn tag() -> VarType;

    /// The domain's tag.
    fn var_type() -> (r: VarType)
        ensures
            r == Self::tag(),
    ;

    /// The reduced form of a list of variables: ascending, with powers
    /// simplified.
    fn reduce_indices(indices: &[usize]) -> (r: Vec<usize>)
        ensures
            is_reduced_form(Self::tag(), indices@, r@),
    ;

    /// Apply fixes to one term.
    fn fold_term_under_fixes(
        term_indices: &[usize],
        coeff: i64,
        fixes: &Fixes,
        old_to_new: &[usize],
    ) -> (r: Option<(i64, Vec<usize>)>)
        requires
            fixes.wf(),
            forall|i: int|
                0 <= i < term_indices@.len() && fixes::fixed_at(
                    fixes@,
                    #[trigger] term_indices@[i] as int,
                ) is None ==> term_indices@[i] < old_to_new@.len(),
            coeff == i64::MIN ==> Self::tag() == VarType::Bin || !has_low(term_indices@, fixes@),
        ensures
            r matches Some(p) ==> folded(
                Self::tag(),
                term_indices@,
                coeff as int,
                fixes@,
                old_to_new@,
            ) == Some((p.0 as int, p.1@)),
            r is None ==> folded(Self::tag(), term_indices@, coeff as int, fixes@, old_to_new@)
                is None,
    ;

    /// The character of a domain value.
    fn format_char(high: bool) -> (r: char)
        ensures
            r == spec_format_char(Self::tag(), high),
    ;

    /// The domain value of a bit.
    fn high_to_coeff(high: bool) -> (r: i64)
        ensures
            r == term::bit_value(Self::tag(), high),
    ;

    /// The low domain value.
    fn default_low() -> (r: i64)
        ensures
            r == term::bit_value(Self::tag(), false),
    {
        Self::high_to_coeff(false)
    }

    /// Whether a number is a value of the domain.
    fn is_valid_value(value: i64) -> (r: bool)
        ensures
            r == valid_value(Self::tag(), value as int),
    ;

    /// Fix one variable of a partially assigned term. Returns the term's value
    /// once it is constant.
    fn update_partial_term(
        coeff: &mut i64,
        free_variables: &mut Vec<usize>,
        variable: usize,
        high: bool,
    ) -> (r: Option<i64>)
        requires
            *old(coeff) == i64::MIN ==> Self::tag() == VarType::Bin || high,
        ensures
            *final(coeff) == fixed_coeff(Self::tag(), *old(coeff) as int, high),
            final(free_variables)@ == without(old(free_variables)@, variable),
            r == (if *final(coeff) == 0 || final(free_variables)@.len() == 0 {
                Some(*final(coeff))
            } else {
                None
            }),
    ;

    /// The letter that labels variables in solution files.
    fn var_letter() -> (r: char)
        ensures
            r == spec_var_letter(Self::tag()),
    ;

    /// The objective value of an assignment.
    fn evaluate_bitsol(instance: &HuboInstance<Self>, sol: &BitSolution) -> (r: i64)
        requires
            instance::sums_fit(Self::tag(), instance.offset, instance.terms@, sol@),
        ensures
            r == instance::value_at(Self::tag(), instance.offset, instance.terms@, sol@),
    ;

    /// The term state of an assignment.
    fn init_term_state(instance: &HuboInstance<Self>, sol: &BitSolution) -> (r: TermState)
        requires
            term::terms_below(instance.terms@, sol@.len() as int),
        ensures
            r.tracks(Self::tag(), instance.terms@, sol@),
    ;

    /// The objective change of flipping `var`.
    fn delta_from_term_state(
        instance: &HuboInstance<Self>,
        var: usize,
        sol: &BitSolution,
        term_state: &TermState,
    ) -> (r: i64)
        requires
            instance.wf(),
            instance.fits(),
            sol@.len() == instance.n(),
            var < sol@.len(),
            term_state.tracks(Self::tag(), instance.terms@, sol@),
        ensures
            r == instance::value_at(
                Self::tag(),
                instance.offset,
                instance.terms@,
                solution::flipped(sol@, var as int),
            ) - instance::value_at(Self::tag(), instance.offset, instance.terms@, sol@),
    ;

    /// Flip `var` in the assignment and in its term state.
    fn flip_with_term_state(
        instance: &HuboInstance<Self>,
        var: usize,
        sol: &mut BitSolution,
        term_state: &mut TermState,
    )
        requires
            instance.wf(),
            old(sol)@.len() == instance.n(),
            var < old(sol)@.len(),
            old(term_state).tracks(Self::tag(), instance.terms@, old(sol)@),
        ensures
            final(sol)@ == solution::flipped(old(sol)@, var as int),
            final(term_state).tracks(Self::tag(), instance.terms@, final(sol)@),
    ;

    /// The local field of every variable.
    fn local_fields(instance: &HuboInstance<Self>, sol: &BitSolution) -> (r: Vec<i64>)
        requires
            instance.wf(),
            instance.fits(),
            sol@.len() == instance.n(),
        ensures
            r@.len() == instance.n(),
            forall|v: int|
                0 <= v < r@.len() ==> #[trigger] r@[v] == instance::field_sum(
                    Self::tag(),
                    instance.terms@,
                    sol@,
                    v as usize,
                ),
    ;

    /// The spacing of the objective grid, where one is known.
    fn objective_granularity(terms: &[Term]) -> (r: Option<i64>)
        ensures
            granularity::granularity_result(Self::tag(), terms@, r),
    ;

    /// One attainable objective value.
    fn objective_grid_base(offset: i64, terms: &[Term]) -> (r: i64)
        requires
            granularity::grid_base_fits(Self::tag(), offset as int, terms@),
        ensures
            r == granularity::grid_base(Self::tag(), offset as int, terms@),
    ;
}

/// The character of a domain value.
pub open spec fn spec_format_char(vt: VarType, high: bool) -> char {
    match vt {
        VarType::Bin => if high { '1' } else { '0' },
        VarType::Spin => if high { '+' } else { '-' },
    }
}

/// The letter that labels variables in solution files.
pub open spec fn spec_var_letter(vt: VarType) -> char {
    match vt {
        VarType::Bin => 'x',
        VarType::Spin => 's',
    }
}

proof fn lemma_has_low_push(idx: Seq<usize>, f: Seq<Option<bool>>, k: int)
    requires
        0 <= k < idx.len(),
    ensures
        has_low(idx.take(k + 1), f) == (has_low(idx.take(k), f) || fixes::fixed_at(f, idx[k] as int)
            == Some(false)),
{
    let a = idx.take(k);
    let b = idx.take(k + 1);
    if has_low(a, f) {
        let i = choose|i: int|
            0 <= i < a.len() && fixes::fixed_at(f, (#[trigger] a[i]) as int) == Some(false);
        assert(b[i] == a[i]);
    }
    if fixes::fixed_at(f, idx[k] as int) == Some(false) {
        assert(b[k] == idx[k]);
    }
    if has_low(b, f) {
        let i = choose|i: int|
            0 <= i < b.len() && fixes::fixed_at(f, (#[trigger] b[i]) as int) == Some(false);
        if i < k {
            assert(a[i] == b[i]);
        }
    }
}

/// The listed variables that are free, renamed.
fn rename_free(indices: &[usize], fixes: &Fixes, old_to_new: &[usize]) -> (r: Vec<usize>)
    requires
        fixes.wf(),
        forall|i: int|
            0 <= i < indices@.len() && fixes::fixed_at(fixes@, #[trigger] indices@[i] as int) is None
                ==> indices@[i] < old_to_new@.len(),
    ensures
        r@ == free_renamed(indices@, fixes@, old_to_new@),
{
    let mut out: Vec<usize> = Vec::new();
    let mut k: usize = 0;
    assert(indices@.take(0) =~= Seq::empty());
    while k < indices.len()
        invariant
            k <= indices@.len(),
            fixes.wf(),
            forall|i: int|
                0 <= i < indices@.len() && fixes::fixed_at(fixes@, #[trigger] indices@[i] as int) is None
                    ==> indices@[i] < old_to_new@.len(),
            out@ == free_renamed(indices@.take(k as int), fixes@, old_to_new@),
        decreases indices@.len() - k,
    {
        let i: usize = indices[k];
        assert(indices@.take(k + 1).drop_last() =~= indices@.take(k as int));
        if fixes.get(i).is_none() {
            out.push(old_to_new[i]);
        }
        k += 1;
    }
    assert(indices@.take(k as int) =~= indices@);
    out
}

/// Remove every occurrence of `v`.
pub fn remove_all(s: &mut Vec<usize>, v: usize)
    ensures
        final(s)@ == without(old(s)@, v),
{
    let mut out: Vec<usize> = Vec::new();
    let mut k: usize = 0;
    assert(s@.take(0) =~= Seq::empty());
    while k < s.len()
        invariant
            k <= s@.len(),
            s@ == old(s)@,
            out@ == without(s@.take(k as int), v),
        decreases s@.len() - k,
    {
        assert(s@.take(k + 1).drop_last() =~= s@.take(k as int));
        if s[k] != v {
            out.push(s[k]);
        }
        k += 1;
    }
    assert(s@.take(k as int) =~= s@);
    *s = out;
}

/// How many of the listed variables are high.
fn count_high(indices: &[usize], sol: &BitSolution) -> (r: usize)
    requires
        term::indices_below(indices@, sol@.len() as int),
    ensures
        r == state::high_count(indices@, sol@),
        r <= indices@.len(),
{
    let mut count: usize = 0;
    let mut k: usize = 0;
    assert(indices@.take(0) =~= Seq::empty());
    while k < indices.len()
        invariant
            k <= indices@.len(),
            count <= k,
            term::indices_below(indices@, sol@.len() as int),
            count == state::high_count(indices@.take(k as int), sol@),
        decreases indices@.len() - k,
    {
        assert(indices@.take(k + 1).drop_last() =~= indices@.take(k as int));
        if sol.values.contains(indices[k]) {
            count += 1;
        }
        k += 1;
    }
    assert(indices@.take(k as int) =~= indices@);
    count
}

/// One coefficient is at most the sum of all absolute coefficients.
pub proof fn lemma_coeff_bound(terms: Seq<Term>, k: int)
    requires
        0 <= k < terms.len(),
    ensures
        term::abs(terms[k].coeff as int) <= term::abs_sum(terms),
{
    term::lemma_abs_sum_take(terms, k + 1);
    term::lemma_abs_sum_take(terms, k);
    assert(terms.take(k + 1).drop_last() =~= terms.take(k));
}

/// The fields of a prefix of the terms, and one more term, stay within the sum
/// of all absolute coefficients.
proof fn lemma_field_bound(vt: VarType, terms: Seq<Term>, x: Seq<bool>, v: usize, k: int)
    requires
        0 <= k < terms.len(),
    ensures
        term::abs(instance::field_sum(vt, terms.take(k), x, v)) + term::abs(terms[k].coeff as int) <= term::abs_sum(terms),
{
    lemma_field_range(vt, terms.take(k), x, v);
    term::lemma_abs_sum_take(terms, k + 1);
    assert(terms.take(k + 1).drop_last() =~= terms.take(k));
}

proof fn lemma_field_range(vt: VarType, terms: Seq<Term>, x: Seq<bool>, v: usize)
    ensures
        term::abs(instance::field_sum(vt, terms, x, v)) <= term::abs_sum(terms),
    decreases terms.len(),
{
    if terms.len() > 0 {
        lemma_field_range(vt, terms.drop_last(), x, v);
        let w = without(terms.last().indices@, v);
        term::lemma_monomial_range(vt, w, x);
        let m = term::monomial(vt, w, x);
        let c = terms.last().coeff as int;
        assert(c * m == if m == 0 { 0 } else if m == 1 { c } else { -c }) by (nonlinear_arith)
            requires
                m == 0 || m == 1 || m == -1,
        ;
    }
}

impl VarDomain for Bin {
    open spec fn tag() -> VarType {
        VarType::Bin
    }

    fn var_type() -> VarType {
        VarType::Bin
    }

    fn reduce_indices(indices: &[usize]) -> Vec<usize> {
        let mut s: Vec<usize> = Vec::new();
        let mut k: usize = 0;
        assert(indices@.take(0) =~= Seq::empty());
        while k < indices.len()
            invariant
                k <= indices@.len(),
                is_reduced_form(VarType::Bin, indices@.take(k as int), s@),
            decreases indices@.len() - k,
        {
            assert(indices@.take(k + 1).drop_last() =~= indices@.take(k as int));
            sets::insert_sorted(&mut s, indices[k]);
            k += 1;
        }
        assert(indices@.take(k as int) =~= indices@);
        s
    }

    fn fold_term_under_fixes(
        term_indices: &[usize],
        coeff: i64,
        fixes: &Fixes,
        old_to_new: &[usize],
    ) -> Option<(i64, Vec<usize>)> {
        let mut k: usize = 0;
        while k < term_indices.len()
            invariant
                k <= term_indices@.len(),
                fixes.wf(),
                !has_low(term_indices@.take(k as int), fixes@),
            decreases term_indices@.len() - k,
        {
            proof {
                lemma_has_low_push(term_indices@, fixes@, k as int);
            }
            if let Some(high) = fixes.get(term_indices[k]) {
                if !high {
                    assert(has_low(term_indices@, fixes@)) by {
                        assert(term_indices@[k as int] == term_indices[k as int]);
                    }
                    return None;
                }
            }
            k += 1;
        }
        assert(term_indices@.take(k as int) =~= term_indices@);
        Some((coeff, rename_free(term_indices, fixes, old_to_new)))
    }

    fn format_char(high: bool) -> char {
        if high {
            '1'
        } else {
            '0'
        }
    }

    fn high_to_coeff(high: bool) -> i64 {
        if high {
            1
        } else {
            0
        }
    }

    fn is_valid_value(value: i64) -> bool {
        value == 0 || value == 1
    }

    fn update_partial_term(
        coeff: &mut i64,
        free_variables: &mut Vec<usize>,
        variable: usize,
        high: bool,
    ) -> Option<i64> {
        if !high {
            *coeff = 0;
        }
        remove_all(free_variables, variable);
        if *coeff == 0 || free_variables.len() == 0 {
            Some(*coeff)
        } else {
            None
        }
    }

    fn var_letter() -> char {
        'x'
    }

    fn evaluate_bitsol(instance: &HuboInstance<Self>, sol: &BitSolution) -> i64 {
        let mut value: i64 = instance.offset;
        let mut i: usize = 0;
        assert(instance.terms@.take(0) =~= Seq::empty());
        while i < instance.terms.len()
            invariant
                i <= instance.terms@.len(),
                instance::sums_fit(Self::tag(), instance.offset, instance.terms@, sol@),
                value == instance.offset + term::poly(VarType::Bin, instance.terms@.take(i as int), sol@),
            decreases instance.terms@.len() - i,
        {
            let high: usize = count_high(instance.terms[i].indices.as_slice(), sol);
            proof {
                term::lemma_poly_take(VarType::Bin, instance.terms@, sol@, i as int);
                delta::lemma_bin_monomial(instance.terms@[i as int].indices@, sol@);
                assert(i64::MIN <= instance.offset + term::poly(
                    Self::tag(),
                    instance.terms@.take(i + 1),
                    sol@,
                ) <= i64::MAX);
            }
            proof {
                let c = instance.terms@[i as int].coeff as int;
                assert(c * 0 == 0 && c * 1 == c);
            }
            if high == instance.terms[i].indices.len() {
                value += instance.terms[i].coeff;
            }
            i += 1;
        }
        assert(instance.terms@.take(i as int) =~= instance.terms@);
        value
    }

    fn init_term_state(instance: &HuboInstance<Self>, sol: &BitSolution) -> TermState {
        let mut term_status: Vec<bool> = Vec::new();
        let mut active_counts: Vec<usize> = Vec::new();
        let mut i: usize = 0;
        while i < instance.terms.len()
            invariant
                i <= instance.terms@.len(),
                term::terms_below(instance.terms@, sol@.len() as int),
                term_status@.len() == i,
                forall|j: int|
                    0 <= j < i ==> #[trigger] term_status@[j] == (term::monomial(
                        VarType::Bin,
                        instance.terms@[j].indices@,
                        sol@,
                    ) == 1),
                active_counts@.len() == i,
                forall|j: int|
                    0 <= j < i ==> #[trigger] active_counts@[j] == state::high_count(
                        instance.terms@[j].indices@,
                        sol@,
                    ),
            decreases instance.terms@.len() - i,
        {
            let high: usize = count_high(instance.terms[i].indices.as_slice(), sol);
            proof {
                delta::lemma_bin_monomial(instance.terms@[i as int].indices@, sol@);
            }
            active_counts.push(high);
            term_status.push(high == instance.terms[i].indices.len());
            i += 1;
        }
        TermState { term_status, active_counts }
    }

    fn delta_from_term_state(
        instance: &HuboInstance<Self>,
        var: usize,
        sol: &BitSolution,
        term_state: &TermState,
    ) -> i64 {
        let mut delta: i64 = 0;
        let var_is_one = sol.values.contains(var);
        let ghost list = instance.var_terms@[var as int]@;
        let n: usize = instance.terms.len();
        proof {
            delta::lemma_incidence(instance.terms@, var, instance.terms@.len());
            delta::lemma_whole_change(VarType::Bin, instance.terms@, sol@, var);
            assert(list.take(0) =~= Seq::empty());
        }
        let mut j: usize = 0;
        while j < instance.var_terms[var].len()
            invariant
                instance.wf(),
                instance.fits(),
                sol@.len() == instance.n(),
                var < sol@.len(),
                term_state.tracks(VarType::Bin, instance.terms@, sol@),
                var_is_one == sol@[var as int],
                list == instance.var_terms@[var as int]@,
                list == instance::incidence(instance.terms@, var, instance.terms@.len()),
                delta::list_abs(instance.terms@, list) <= term::abs_sum(instance.terms@),
                forall|q: int|
                    0 <= q < list.len() ==> (#[trigger] list[q]) < instance.terms@.len()
                        && instance.terms@[list[q] as int].indices@.contains(var),
                j <= list.len(),
                delta == delta::list_change(VarType::Bin, instance.terms@, sol@, var, list.take(j as int)),
            decreases list.len() - j,
        {
            let ti: usize = instance.var_terms[var][j];
            proof {
                assert(ti == list[j as int]);
                let t = instance.terms@[ti as int];
                assert(term::indices_below(t.indices@, sol@.len() as int));
                assert(t.indices@.no_duplicates());
                delta::lemma_bin_change(t, sol@, var);
                assert(list.take(j + 1).drop_last() =~= list.take(j as int));
                delta::lemma_list_change_bound(VarType::Bin, instance.terms@, sol@, var, list, j + 1);
                delta::lemma_list_change_bound(VarType::Bin, instance.terms@, sol@, var, list, j as int);
                lemma_coeff_bound(instance.terms@, ti as int);
                assert(term_state.term_status@[ti as int] == (term::monomial(
                    VarType::Bin,
                    t.indices@,
                    sol@,
                ) == 1));
            }
            let count: usize = term_state.active_counts[ti];
            let len: usize = instance.terms[ti].indices.len();
            if var_is_one {
                if count == len {
                    delta -= instance.terms[ti].coeff;
                }
            } else if count < len && count + 1 == len {
                delta += instance.terms[ti].coeff;
            }
            j += 1;
        }
        assert(list.take(j as int) =~= list);
        delta
    }

    fn flip_with_term_state(
        instance: &HuboInstance<Self>,
        var: usize,
        sol: &mut BitSolution,
        term_state: &mut TermState,
    ) {
        let ghost x = sol@;
        let ghost y = solution::flipped(x, var as int);
        let ghost list = instance.var_terms@[var as int]@;
        let was_one = sol.values.contains(var);
        let n: usize = instance.terms.len();
        sol.flip(var);
        proof {
            delta::lemma_incidence(instance.terms@, var, instance.terms@.len());
        }
        let mut j: usize = 0;
        while j < instance.var_terms[var].len()
            invariant
                instance.wf(),
                n == instance.terms@.len(),
                x.len() == instance.n(),
                var < x.len(),
                y == solution::flipped(x, var as int),
                was_one == x[var as int],
                list == instance.var_terms@[var as int]@,
                forall|q: int|
                    0 <= q < list.len() ==> (#[trigger] list[q]) < instance.terms@.len()
                        && instance.terms@[list[q] as int].indices@.contains(var),
                sets::ascending(list),
                j <= list.len(),
                term_state.term_status@.len() == instance.terms@.len(),
                forall|t: int|
                    0 <= t < instance.terms@.len() ==> #[trigger] term_state.term_status@[t] == (
                    term::monomial(
                        VarType::Bin,
                        instance.terms@[t].indices@,
                        if list.take(j as int).contains(t as usize) { y } else { x },
                    ) == 1),
                term_state.active_counts@.len() == instance.terms@.len(),
                forall|t: int|
                    0 <= t < instance.terms@.len() ==> #[trigger] term_state.active_counts@[t]
                        == state::high_count(
                        instance.terms@[t].indices@,
                        if list.take(j as int).contains(t as usize) { y } else { x },
                    ),
            decreases list.len() - j,
        {
            let ti: usize = instance.var_terms[var][j];
            proof {
                assert(ti == list[j as int]);
                let t = instance.terms@[ti as int];
                assert(term::indices_below(t.indices@, x.len() as int));
                assert(t.indices@.no_duplicates());
                sets::lemma_contains_take(list, j as int);
                assert(!list.take(j as int).contains(ti)) by {
                    if list.take(j as int).contains(ti) {
                        let q = choose|q: int| 0 <= q < j && list.take(j as int)[q] == ti;
                        assert(list[q] < list[j as int]);
                    }
                }
                delta::lemma_flip_present(t.indices@, x, var);
                delta::lemma_bin_change(t, x, var);
                delta::lemma_bin_monomial(t.indices@, y);
                assert(term_state.active_counts@[ti as int] == state::high_count(t.indices@, x));
            }
            let len: usize = instance.terms[ti].indices.len();
            let old_count: usize = term_state.active_counts[ti];
            let count: usize = if was_one {
                old_count - 1
            } else {
                old_count + 1
            };
            term_state.active_counts.set(ti, count);
            term_state.term_status.set(ti, count == len);
            j += 1;
        }
        proof {
            assert(list.take(j as int) =~= list);
            assert forall|t: int|
                0 <= t < instance.terms@.len() && !list.contains(t as usize) implies term::monomial(
                VarType::Bin,
                (#[trigger] instance.terms@[t]).indices@,
                x,
            ) == term::monomial(VarType::Bin, instance.terms@[t].indices@, y) && state::high_count(
                instance.terms@[t].indices@,
                x,
            ) == state::high_count(instance.terms@[t].indices@, y) by {
                assert(term::indices_below(instance.terms@[t].indices@, x.len() as int));
                assert(!instance.terms@[t].indices@.contains(var));
                delta::lemma_flip_absent(VarType::Bin, instance.terms@[t].indices@, x, var);
            }
        }
    }

    fn local_fields(instance: &HuboInstance<Self>, sol: &BitSolution) -> Vec<i64> {
        let n: usize = instance.var_terms.len();
        let mut h: Vec<i64> = vec![0i64; n];
        let mut i: usize = 0;
        assert(instance.terms@.take(0) =~= Seq::empty());
        while i < instance.terms.len()
            invariant
                i <= instance.terms@.len(),
                instance.wf(),
                instance.fits(),
                sol@.len() == instance.n(),
                n == instance.n(),
                h@.len() == n,
                forall|v: int|
                    0 <= v < n ==> #[trigger] h@[v] == instance::field_sum(
                        VarType::Bin,
                        instance.terms@.take(i as int),
                        sol@,
                        v as usize,
                    ),
            decreases instance.terms@.len() - i,
        {
            let ghost t = instance.terms@[i as int];
            let high: usize = count_high(instance.terms[i].indices.as_slice(), sol);
            let len: usize = instance.terms[i].indices.len();
            let c: i64 = instance.terms[i].coeff;
            proof {
                assert(instance.terms@.take(i + 1).drop_last() =~= instance.terms@.take(i as int));
                delta::lemma_bin_monomial(t.indices@, sol@);
                assert(t.indices@.no_duplicates());
                assert(term::indices_below(t.indices@, sol@.len() as int));
                assert(t.indices@.take(0) =~= Seq::empty());
            }
            let mut p: usize = 0;
            while p < len
                invariant
                    i < instance.terms@.len(),
                    p <= len,
                    instance.wf(),
                    instance.fits(),
                    sol@.len() == instance.n(),
                    n == instance.n(),
                    t == instance.terms@[i as int],
                    t.indices@.no_duplicates(),
                    term::indices_below(t.indices@, sol@.len() as int),
                    len == t.indices@.len(),
                    c == t.coeff,
                    high == state::high_count(t.indices@, sol@),
                    high <= len,
                    h@.len() == n,
                    forall|v: int|
                        0 <= v < n ==> #[trigger] h@[v] == instance::field_sum(
                            VarType::Bin,
                            instance.terms@.take(i as int),
                            sol@,
                            v as usize,
                        ) + (if t.indices@.take(p as int).contains(v as usize) {
                            c * term::monomial(VarType::Bin, without(t.indices@, v as usize), sol@)
                        } else {
                            0
                        }),
                decreases len - p,
            {
                let j: usize = instance.terms[i].indices[p];
                let j_set = sol.values.contains(j);
                proof {
                    assert(j == t.indices@[p as int]);
                    assert(t.indices@.contains(j));
                    delta::lemma_without(t.indices@, sol@, j);
                    delta::lemma_bin_monomial(t.indices@, sol@);
                    delta::lemma_bin_monomial(without(t.indices@, j), sol@);
                    sets::lemma_contains_take(t.indices@, p as int);
                    assert(!t.indices@.take(p as int).contains(j)) by {
                        if t.indices@.take(p as int).contains(j) {
                            let q = choose|q: int| 0 <= q < p && t.indices@.take(p as int)[q] == j;
                            assert(t.indices@[q] == t.indices@[p as int]);
                        }
                    }
                    lemma_field_bound(VarType::Bin, instance.terms@, sol@, j, i as int);
                    assert(h@[j as int] == instance::field_sum(
                        VarType::Bin,
                        instance.terms@.take(i as int),
                        sol@,
                        j,
                    ));
                    assert(c * -1 == -c);
                    assert(c * 1 == c);
                    assert(c * 0 == 0);
                }
                let own: usize = if j_set { 1 } else { 0 };
                if high - own == len - 1 {
                    h.set(j, h[j] + c);
                }
                p += 1;
            }
            assert(t.indices@.take(p as int) =~= t.indices@);
            i += 1;
        }
        assert(instance.terms@.take(i as int) =~= instance.terms@);
        h
    }

    fn objective_granularity(terms: &[Term]) -> Option<i64> {
        granularity::bin_granularity(terms)
    }

    fn objective_grid_base(offset: i64, terms: &[Term]) -> i64 {
        granularity::low_grid_base(VarType::Bin, offset, terms)
    }
}

impl VarDomain for Spin {
    open spec fn tag() -> VarType {
        VarType::Spin
    }

    fn var_type() -> VarType {
        VarType::Spin
    }

    fn reduce_indices(indices: &[usize]) -> Vec<usize> {
        let mut s: Vec<usize> = Vec::new();
        let mut k: usize = 0;
        assert(indices@.take(0) =~= Seq::empty());
        while k < indices.len()
            invariant
                k <= indices@.len(),
                is_reduced_form(VarType::Spin, indices@.take(k as int), s@),
            decreases indices@.len() - k,
        {
            assert(indices@.take(k + 1).drop_last() =~= indices@.take(k as int));
            sets::toggle_sorted(&mut s, indices[k]);
            k += 1;
        }
        assert(indices@.take(k as int) =~= indices@);
        s
    }

    fn fold_term_under_fixes(
        term_indices: &[usize],
        coeff: i64,
        fixes: &Fixes,
        old_to_new: &[usize],
    ) -> Option<(i64, Vec<usize>)> {
        let mut c: i64 = coeff;
        let mut k: usize = 0;
        assert(term_indices@.take(0) =~= Seq::empty());
        while k < term_indices.len()
            invariant
                k <= term_indices@.len(),
                fixes.wf(),
                coeff == i64::MIN ==> !has_low(term_indices@, fixes@),
                c == (if odd_lows(term_indices@.take(k as int), fixes@) {
                    -coeff
                } else {
                    coeff as int
                }),
            decreases term_indices@.len() - k,
        {
            assert(term_indices@.take(k + 1).drop_last() =~= term_indices@.take(k as int));
            if let Some(high) = fixes.get(term_indices[k]) {
                if !high {
                    assert(has_low(term_indices@, fixes@)) by {
                        assert(term_indices@[k as int] == term_indices[k as int]);
                    }
                    c = -c;
                }
            }
            k += 1;
        }
        assert(term_indices@.take(k as int) =~= term_indices@);
        Some((c, rename_free(term_indices, fixes, old_to_new)))
    }

    fn format_char(high: bool) -> char {
        if high {
            '+'
        } else {
            '-'
        }
    }

    fn high_to_coeff(high: bool) -> i64 {
        if high {
            1
        } else {
            -1
        }
    }

    fn is_valid_value(value: i64) -> bool {
        value == -1 || value == 1
    }

    fn update_partial_term(
        coeff: &mut i64,
        free_variables: &mut Vec<usize>,
        variable: usize,
        high: bool,
    ) -> Option<i64> {
        if !high {
            *coeff = -*coeff;
        }
        remove_all(free_variables, variable);
        if *coeff == 0 || free_variables.len() == 0 {
            Some(*coeff)
        } else {
            None
        }
    }

    fn var_letter() -> char {
        's'
    }

    fn evaluate_bitsol(instance: &HuboInstance<Self>, sol: &BitSolution) -> i64 {
        let mut value: i64 = instance.offset;
        let mut i: usize = 0;
        assert(instance.terms@.take(0) =~= Seq::empty());
        while i < instance.terms.len()
            invariant
                i <= instance.terms@.len(),
                instance::sums_fit(Self::tag(), instance.offset, instance.terms@, sol@),
                value == instance.offset + term::poly(VarType::Spin, instance.terms@.take(i as int), sol@),
            decreases instance.terms@.len() - i,
        {
            let high: usize = count_high(instance.terms[i].indices.as_slice(), sol);
            proof {
                term::lemma_poly_take(VarType::Spin, instance.terms@, sol@, i as int);
                delta::lemma_spin_monomial(instance.terms@[i as int].indices@, sol@);
                assert(i64::MIN <= instance.offset + term::poly(
                    Self::tag(),
                    instance.terms@.take(i + 1),
                    sol@,
                ) <= i64::MAX);
            }
            if (instance.terms[i].indices.len() - high) % 2 == 0 {
                value += instance.terms[i].coeff;
            } else {
                proof {
                    let c = instance.terms@[i as int].coeff as int;
                    assert(c * -1 == -c);
                }
                value -= instance.terms[i].coeff;
            }
            i += 1;
        }
        assert(instance.terms@.take(i as int) =~= instance.terms@);
        value
    }

    fn init_term_state(instance: &HuboInstance<Self>, sol: &BitSolution) -> TermState {
        let mut term_status: Vec<bool> = Vec::new();
        let mut active_counts: Vec<usize> = Vec::new();
        let mut i: usize = 0;
        while i < instance.terms.len()
            invariant
                i <= instance.terms@.len(),
                term::terms_below(instance.terms@, sol@.len() as int),
                term_status@.len() == i,
                forall|j: int|
                    0 <= j < i ==> #[trigger] term_status@[j] == (term::monomial(
                        VarType::Spin,
                        instance.terms@[j].indices@,
                        sol@,
                    ) == 1),
                active_counts@.len() == 0,
            decreases instance.terms@.len() - i,
        {
            let high: usize = count_high(instance.terms[i].indices.as_slice(), sol);
            proof {
                delta::lemma_spin_monomial(instance.terms@[i as int].indices@, sol@);
            }
            term_status.push((instance.terms[i].indices.len() - high) % 2 == 0);
            i += 1;
        }
        TermState { term_status, active_counts }
    }

    fn delta_from_term_state(
        instance: &HuboInstance<Self>,
        var: usize,
        sol: &BitSolution,
        term_state: &TermState,
    ) -> i64 {
        let mut delta: i64 = 0;
        let var_is_one = sol.values.contains(var);
        let ghost list = instance.var_terms@[var as int]@;
        let n: usize = instance.terms.len();
        proof {
            delta::lemma_incidence(instance.terms@, var, instance.terms@.len());
            delta::lemma_whole_change(VarType::Spin, instance.terms@, sol@, var);
            assert(list.take(0) =~= Seq::empty());
        }
        let mut j: usize = 0;
        while j < instance.var_terms[var].len()
            invariant
                instance.wf(),
                instance.fits(),
                sol@.len() == instance.n(),
                var < sol@.len(),
                term_state.tracks(VarType::Spin, instance.terms@, sol@),
                var_is_one == sol@[var as int],
                list == instance.var_terms@[var as int]@,
                list == instance::incidence(instance.terms@, var, instance.terms@.len()),
                delta::list_abs(instance.terms@, list) <= term::abs_sum(instance.terms@),
                forall|q: int|
                    0 <= q < list.len() ==> (#[trigger] list[q]) < instance.terms@.len()
                        && instance.terms@[list[q] as int].indices@.contains(var),
                j <= list.len(),
                delta == delta::list_change(VarType::Spin, instance.terms@, sol@, var, list.take(j as int)),
            decreases list.len() - j,
        {
            let ti: usize = instance.var_terms[var][j];
            proof {
                assert(ti == list[j as int]);
                let t = instance.terms@[ti as int];
                assert(term::indices_below(t.indices@, sol@.len() as int));
                assert(t.indices@.no_duplicates());
                delta::lemma_spin_change(t, sol@, var);
                assert(list.take(j + 1).drop_last() =~= list.take(j as int));
                delta::lemma_list_change_bound(VarType::Spin, instance.terms@, sol@, var, list, j + 1);
                delta::lemma_list_change_bound(VarType::Spin, instance.terms@, sol@, var, list, j as int);
                lemma_coeff_bound(instance.terms@, ti as int);
                assert(term_state.term_status@[ti as int] == (term::monomial(
                    VarType::Spin,
                    t.indices@,
                    sol@,
                ) == 1));
            }
            if term_state.term_status[ti] {
                delta -= 2 * instance.terms[ti].coeff;
            } else {
                delta += 2 * instance.terms[ti].coeff;
            }
            j += 1;
        }
        assert(list.take(j as int) =~= list);
        delta
    }

    fn flip_with_term_state(
        instance: &HuboInstance<Self>,
        var: usize,
        sol: &mut BitSolution,
        term_state: &mut TermState,
    ) {
        let ghost x = sol@;
        let ghost y = solution::flipped(x, var as int);
        let ghost list = instance.var_terms@[var as int]@;
        let was_one = sol.values.contains(var);
        let n: usize = instance.terms.len();
        sol.flip(var);
        proof {
            delta::lemma_incidence(instance.terms@, var, instance.terms@.len());
        }
        let mut j: usize = 0;
        while j < instance.var_terms[var].len()
            invariant
                instance.wf(),
                n == instance.terms@.len(),
                x.len() == instance.n(),
                var < x.len(),
                y == solution::flipped(x, var as int),
                was_one == x[var as int],
                list == instance.var_terms@[var as int]@,
                forall|q: int|
                    0 <= q < list.len() ==> (#[trigger] list[q]) < instance.terms@.len()
                        && instance.terms@[list[q] as int].indices@.contains(var),
                sets::ascending(list),
                j <= list.len(),
                term_state.term_status@.len() == instance.terms@.len(),
                forall|t: int|
                    0 <= t < instance.terms@.len() ==> #[trigger] term_state.term_status@[t] == (
                    term::monomial(
                        VarType::Spin,
                        instance.terms@[t].indices@,
                        if list.take(j as int).contains(t as usize) { y } else { x },
                    ) == 1),
                term_state.active_counts@.len() == 0,
            decreases list.len() - j,
        {
            let ti: usize = instance.var_terms[var][j];
            proof {
                assert(ti == list[j as int]);
                let t = instance.terms@[ti as int];
                assert(term::indices_below(t.indices@, x.len() as int));
                assert(t.indices@.no_duplicates());
                sets::lemma_contains_take(list, j as int);
                assert(!list.take(j as int).contains(ti)) by {
                    if list.take(j as int).contains(ti) {
                        let q = choose|q: int| 0 <= q < j && list.take(j as int)[q] == ti;
                        assert(list[q] < list[j as int]);
                    }
                }
                delta::lemma_flip_present(t.indices@, x, var);
                term::lemma_monomial_range(VarType::Spin, t.indices@, x);
                assert(term_state.term_status@[ti as int] == (term::monomial(
                    VarType::Spin,
                    t.indices@,
                    x,
                ) == 1));
            }
            let status = term_state.term_status[ti];
            term_state.term_status.set(ti, !status);
            j += 1;
        }
        proof {
            assert(list.take(j as int) =~= list);
            assert forall|t: int|
                0 <= t < instance.terms@.len() && !list.contains(t as usize) implies term::monomial(
                VarType::Spin,
                (#[trigger] instance.terms@[t]).indices@,
                x,
            ) == term::monomial(VarType::Spin, instance.terms@[t].indices@, y) && state::high_count(
                instance.terms@[t].indices@,
                x,
            ) == state::high_count(instance.terms@[t].indices@, y) by {
                assert(term::indices_below(instance.terms@[t].indices@, x.len() as int));
                assert(!instance.terms@[t].indices@.contains(var));
                delta::lemma_flip_absent(VarType::Spin, instance.terms@[t].indices@, x, var);
            }
        }
    }

    fn local_fields(instance: &HuboInstance<Self>, sol: &BitSolution) -> Vec<i64> {
        let n: usize = instance.var_terms.len();
        let mut h: Vec<i64> = vec![0i64; n];
        let mut i: usize = 0;
        assert(instance.terms@.take(0) =~= Seq::empty());
        while i < instance.terms.len()
            invariant
                i <= instance.terms@.len(),
                instance.wf(),
                instance.fits(),
                sol@.len() == instance.n(),
                n == instance.n(),
                h@.len() == n,
                forall|v: int|
                    0 <= v < n ==> #[trigger] h@[v] == instance::field_sum(
                        VarType::Spin,
                        instance.terms@.take(i as int),
                        sol@,
                        v as usize,
                    ),
            decreases instance.terms@.len() - i,
        {
            let ghost t = instance.terms@[i as int];
            let high: usize = count_high(instance.terms[i].indices.as_slice(), sol);
            let len: usize = instance.terms[i].indices.len();
            let c: i64 = instance.terms[i].coeff;
            proof {
                assert(instance.terms@.take(i + 1).drop_last() =~= instance.terms@.take(i as int));
                delta::lemma_spin_monomial(t.indices@, sol@);
                assert(t.indices@.no_duplicates());
                assert(term::indices_below(t.indices@, sol@.len() as int));
                assert(t.indices@.take(0) =~= Seq::empty());
            }
            let mut p: usize = 0;
            while p < len
                invariant
                    i < instance.terms@.len(),
                    p <= len,
                    instance.wf(),
                    instance.fits(),
                    sol@.len() == instance.n(),
                    n == instance.n(),
                    t == instance.terms@[i as int],
                    t.indices@.no_duplicates(),
                    term::indices_below(t.indices@, sol@.len() as int),
                    len == t.indices@.len(),
                    c == t.coeff,
                    high == state::high_count(t.indices@, sol@),
                    high <= len,
                    h@.len() == n,
                    forall|v: int|
                        0 <= v < n ==> #[trigger] h@[v] == instance::field_sum(
                            VarType::Spin,
                            instance.terms@.take(i as int),
                            sol@,
                            v as usize,
                        ) + (if t.indices@.take(p as int).contains(v as usize) {
                            c * term::monomial(VarType::Spin, without(t.indices@, v as usize), sol@)
                        } else {
                            0
                        }),
                decreases len - p,
            {
                let j: usize = instance.terms[i].indices[p];
                let j_set = sol.values.contains(j);
                proof {
                    assert(j == t.indices@[p as int]);
                    assert(t.indices@.contains(j));
                    delta::lemma_without(t.indices@, sol@, j);
                    delta::lemma_spin_monomial(t.indices@, sol@);
                    delta::lemma_bin_monomial(without(t.indices@, j), sol@);
                    sets::lemma_contains_take(t.indices@, p as int);
                    assert(!t.indices@.take(p as int).contains(j)) by {
                        if t.indices@.take(p as int).contains(j) {
                            let q = choose|q: int| 0 <= q < p && t.indices@.take(p as int)[q] == j;
                            assert(t.indices@[q] == t.indices@[p as int]);
                        }
                    }
                    lemma_field_bound(VarType::Spin, instance.terms@, sol@, j, i as int);
                    assert(h@[j as int] == instance::field_sum(
                        VarType::Spin,
                        instance.terms@.take(i as int),
                        sol@,
                        j,
                    ));
                    assert(c * -1 == -c);
                    assert(c * 1 == c);
                    assert(c * 0 == 0);
                }
                let full_positive = (len - high) % 2 == 0;
                if full_positive == j_set {
                    h.set(j, h[j] + c);
                } else {
                    h.set(j, h[j] - c);
                }
                p += 1;
            }
            assert(t.indices@.take(p as int) =~= t.indices@);
            i += 1;
        }
        assert(instance.terms@.take(i as int) =~= instance.terms@);
        h
    }

    fn objective_granularity(terms: &[Term]) -> Option<i64> {
        granularity::spin_granularity(terms)
    }

    fn objective_grid_base(offset: i64, terms: &[Term]) -> i64 {
        granularity::low_grid_base(VarType::Spin, offset, terms)
    }
}


} // verus!
