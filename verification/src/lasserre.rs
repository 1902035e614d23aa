//! Moment relaxations: which moments there are, where they stand in the moment
//! matrix, and the objective over them. A caller solves the relaxation.

use crate::active::ActiveTerms;
use crate::active;
use crate::basis;
use crate::domain::{VarDomain, VarType};
use crate::fixes::Fixes;
use crate::instance::HuboInstance;
use crate::lists;
use crate::moments;
use crate::sets;
use crate::term::Term;
use crate::term;
use vstd::prelude::*;

verus! {

/// How far the dense relaxation goes.
#[derive(Debug, Clone, Copy)]
pub struct ExactLasserreConfig {
    pub level: usize,
    pub max_vars: usize,
    pub max_basis: usize,
}

impl Default for ExactLasserreConfig {
    fn default() -> (r: Self)
        ensures
            r.level == 2,
            r.max_vars == 50,
            r.max_basis == 80,
    {
        ExactLasserreConfig { level: 2, max_vars: 50, max_basis: 80 }
    }
}

/// The dense relaxation as a bound.
#[derive(Debug, Clone, Copy)]
pub struct ExactLasserre(pub ExactLasserreConfig);

impl Default for ExactLasserre {
    fn default() -> (r: Self)
        ensures
            r.0.level == 2,
            r.0.max_vars == 50,
            r.0.max_basis == 80,
    {
        ExactLasserre(ExactLasserreConfig::default())
    }
}

/// How far a relaxation goes.
#[derive(Debug, Clone, Copy)]
pub struct LasserreConfig {
    /// The level, at least one. Level two adds pairs and products of terms that
    /// share a variable.
    pub level: usize,
    /// Not used.
    pub max_iter: usize,
    /// With more free variables the termwise bound is taken.
    pub max_vars: usize,
    /// The most monomials of the basis.
    pub max_basis: usize,
}

impl Default for LasserreConfig {
    fn default() -> (r: Self)
        ensures
            r.level == 2,
            r.max_iter == 100,
            r.max_vars == 50,
            r.max_basis == 80,
    {
        LasserreConfig { level: 2, max_iter: 100, max_vars: 50, max_basis: 80 }
    }
}

/// The relaxation as a bound.
#[derive(Debug, Clone, Copy)]
pub struct Lasserre(pub LasserreConfig);

impl Default for Lasserre {
    fn default() -> (r: Self)
        ensures
            r.0.level == 2,
            r.0.max_iter == 100,
            r.0.max_vars == 50,
            r.0.max_basis == 80,
    {
        Lasserre(LasserreConfig::default())
    }
}

/// The relaxation over the cliques of a quadratic form as a bound.
#[derive(Debug, Clone, Copy)]
pub struct ChordalSdp(pub LasserreConfig);

/// The monomials of a relaxation, and for each entry of the upper triangle of
/// the moment matrix the moment that stands there.
pub struct MomentApparatus {
    pub basis: Vec<Vec<usize>>,
    pub free_moments: Vec<Vec<usize>>,
    pub upper_entry_to_y: Vec<Vec<usize>>,
    pub mat_dim: usize,
}

/// How many entries of the upper triangle stand before row `i`.
pub open spec fn row_start(n: nat, i: nat) -> int
    decreases i,
{
    if i == 0 {
        0
    } else {
        row_start(n, (i - 1) as nat) + n - (i - 1)
    }
}

/// The place of entry `(i, j)` of the upper triangle, row by row.
pub open spec fn upper_place(n: nat, i: nat, j: nat) -> int {
    row_start(n, i) + j - i
}

/// The place of an entry as a formula.
pub proof fn upper_place_formula(n: nat, i: nat, j: nat)
    ensures
        2 * upper_place(n, i, j) == 2 * (i * n) - i * (i - 1) + 2 * (j - i),
    decreases i,
{
    if i > 0 {
        upper_place_formula(n, (i - 1) as nat, j);
        assert(2 * ((i - 1) * n) - (i - 1) * (i - 2) + 2 * n - 2 * (i - 1) == 2 * (i * n) - i * (i
            - 1)) by (nonlinear_arith);
    } else {
        assert(0 * n == 0);
    }
}

/// `s` is the product of two monomials of the basis.
pub open spec fn is_basis_product(vt: VarType, b: Seq<Vec<usize>>, s: Seq<usize>) -> bool {
    exists|i: int, j: int|
        0 <= i <= j < b.len() && moments::is_product(vt, #[trigger] b[i]@, #[trigger] b[j]@, s)
}

/// The moments are the nonconstant products of two monomials of the basis.
pub open spec fn are_moments(vt: VarType, b: Seq<Vec<usize>>, m: Seq<Vec<usize>>) -> bool {
    &&& lists::in_list_order(true, m)
    &&& forall|s: Seq<usize>| #[trigger]
        lists::has_list(m, s) == (s.len() > 0 && is_basis_product(vt, b, s))
}

/// The entry of two monomials: nothing for the constant, else the moment of
/// their product.
pub open spec fn is_entry(
    vt: VarType,
    m: Seq<Vec<usize>>,
    a: Seq<usize>,
    b: Seq<usize>,
    e: Seq<usize>,
) -> bool {
    exists|s: Seq<usize>| #[trigger]
        moments::is_product(vt, a, b, s) && (if s.len() == 0 {
            e.len() == 0
        } else {
            e.len() == 1 && e[0] < m.len() && m[e[0] as int]@ == s
        })
}

/// The constant part of an entry of the moment matrix: over bits one in the first
/// place, over spins one on the diagonal.
pub open spec fn constant_at(vt: VarType, i: nat, j: nat) -> int {
    match vt {
        VarType::Bin => if i == 0 && j == 0 {
            1
        } else {
            0
        },
        VarType::Spin => if i == j {
            1
        } else {
            0
        },
    }
}

impl MomentApparatus {
    /// The apparatus of the terms at level `d`.
    pub open spec fn is_for(
        &self,
        d: nat,
        vt: VarType,
        max_basis: nat,
        terms: Seq<Vec<usize>>,
    ) -> bool {
        &&& basis::is_basis(terms, d, max_basis, self.basis@)
        &&& basis::are_lists(self.basis@)
        &&& self.mat_dim == self.basis@.len()
        &&& are_moments(vt, self.basis@, self.free_moments@)
        &&& self.upper_entry_to_y@.len() == row_start(self.mat_dim as nat, self.mat_dim as nat)
        &&& forall|i: nat, j: nat|
            i <= j < self.mat_dim ==> is_entry(
                vt,
                self.free_moments@,
                self.basis@[i as int]@,
                self.basis@[j as int]@,
                self.upper_entry_to_y@[#[trigger] upper_place(self.mat_dim as nat, i, j)]@,
            )
    }

    /// Build the apparatus of the terms at level `d`.
    pub fn build_for_instance(
        d: usize,
        var_type: VarType,
        max_basis: usize,
        terms: &Vec<Vec<usize>>,
    ) -> (r: Self)
        requires
            basis::are_lists(terms@),
        ensures
            r.is_for(d as nat, var_type, max_basis as nat, terms@),
    {
        let basis = basis::build_basis(terms, d, max_basis);
        let n: usize = basis.len();
        let free_moments = all_moments(var_type, &basis);
        let upper_entry_to_y = all_entries(var_type, &basis, &free_moments);
        MomentApparatus { basis, free_moments, upper_entry_to_y, mat_dim: n }
    }

    /// The place of entry `(i, j)` of the upper triangle.
    pub fn upper_index(&self, i: usize, j: usize) -> (r: usize)
        requires
            i <= j < self.mat_dim,
            row_start(self.mat_dim as nat, self.mat_dim as nat) <= usize::MAX,
        ensures
            r == upper_place(self.mat_dim as nat, i as nat, j as nat),
    {
        let n: u128 = self.mat_dim as u128;
        let a: u128 = i as u128;
        let b: u128 = j as u128;
        proof {
            upper_place_formula(n as nat, a as nat, b as nat);
            lemma_place_below(n as nat, a as nat, b as nat);
            assert(a * n <= u64::MAX * u64::MAX) by (nonlinear_arith)
                requires
                    0 <= a <= u64::MAX,
                    0 <= n <= u64::MAX,
            ;
            assert(0 <= a * (a - 1) <= a * n) by (nonlinear_arith)
                requires
                    0 <= a < n,
            ;
            assert((a * (a - 1)) % 2 == 0) by {
                lemma_even(a as nat);
            }
        }
        let below: u128 = if a == 0 {
            0
        } else {
            a * (a - 1) / 2
        };
        assert(2 * below == a * (a - 1)) by {
            if a == 0 {
                assert(0 * (0 - 1) == 0) by (nonlinear_arith);
            }
        }
        (a * n - below + (b - a)) as usize
    }

    /// The number of a moment.
    pub fn moment_index(&self, mono: &Vec<usize>) -> (r: Option<usize>)
        ensures
            r matches Some(k) ==> k < self.free_moments@.len() && self.free_moments@[k as int]@
                == mono@,
            r is None ==> !lists::has_list(self.free_moments@, mono@),
    {
        lists::find_list(&self.free_moments, mono)
    }

    /// The constant part of an entry of the moment matrix.
    pub fn constant_entry(var_type: VarType, i: usize, j: usize) -> (r: i64)
        ensures
            r == constant_at(var_type, i as nat, j as nat),
    {
        match var_type {
            VarType::Bin => if i == 0 && j == 0 {
                1
            } else {
                0
            },
            VarType::Spin => if i == j {
                1
            } else {
                0
            },
        }
    }
}

proof fn lemma_even(a: nat)
    ensures
        (a * (a - 1)) % 2 == 0,
    decreases a,
{
    if a > 0 {
        lemma_even((a - 1) as nat);
        assert(a * (a - 1) == (a - 1) * (a - 2) + 2 * (a - 1)) by (nonlinear_arith);
    } else {
        assert(0 * (0 - 1) == 0) by (nonlinear_arith);
    }
}

pub proof fn lemma_place_below(n: nat, i: nat, j: nat)
    requires
        i <= j < n,
    ensures
        0 <= row_start(n, i),
        upper_place(n, i, j) < row_start(n, n),
    decreases n - i,
{
    lemma_row_start(n, i);
    if i + 1 < n {
        lemma_place_below(n, i + 1, (n - 1) as nat);
    }
}

pub proof fn lemma_row_start(n: nat, i: nat)
    requires
        i <= n,
    ensures
        row_start(n, i) >= 0,
    decreases i,
{
    if i > 0 {
        lemma_row_start(n, (i - 1) as nat);
    }
}

/// Some product of monomial `i` with a monomial before `j`, or of an earlier
/// monomial with a later one.
spec fn is_product_so_far(
    vt: VarType,
    b: Seq<Vec<usize>>,
    i: int,
    j: int,
    s: Seq<usize>,
) -> bool {
    exists|p: int, q: int|
        0 <= p <= q < b.len() && (p < i || (p == i && q < j)) && moments::is_product(
            vt,
            #[trigger] b[p]@,
            #[trigger] b[q]@,
            s,
        )
}

/// All nonconstant products of two monomials.
fn all_moments(vt: VarType, b: &Vec<Vec<usize>>) -> (r: Vec<Vec<usize>>)
    requires
        basis::are_lists(b@),
    ensures
        are_moments(vt, b@, r@),
{
    let n: usize = b.len();
    let mut r: Vec<Vec<usize>> = Vec::new();
    let mut i: usize = 0;
    while i < n
        invariant
            i <= n,
            n == b@.len(),
            basis::are_lists(b@),
            lists::in_list_order(true, r@),
            forall|s: Seq<usize>| #[trigger]
                lists::has_list(r@, s) == (s.len() > 0 && is_product_so_far(
                    vt,
                    b@,
                    i as int,
                    i as int,
                    s,
                )),
        decreases n - i,
    {
        let mut j: usize = i;
        while j < n
            invariant
                i <= j <= n,
                i < n,
                n == b@.len(),
                basis::are_lists(b@),
                lists::in_list_order(true, r@),
                forall|s: Seq<usize>| #[trigger]
                    lists::has_list(r@, s) == (s.len() > 0 && is_product_so_far(
                        vt,
                        b@,
                        i as int,
                        j as int,
                        s,
                    )),
            decreases n - j,
        {
            assert(sets::ascending(b@[i as int]@) && sets::ascending(b@[j as int]@));
            let mono = moments::combine_sets(&b[i], &b[j], vt);
            let ghost m = mono@;
            let ghost r0 = r@;
            proof {
                assert forall|s: Seq<usize>| #[trigger]
                    is_product_so_far(vt, b@, i as int, j + 1, s) == (is_product_so_far(
                        vt,
                        b@,
                        i as int,
                        j as int,
                        s,
                    ) || s == m) by {
                    if is_product_so_far(vt, b@, i as int, j + 1, s) {
                        let (p, q) = choose|p: int, q: int|
                            0 <= p <= q < b@.len() && (p < i || (p == i && q < j + 1))
                                && moments::is_product(
                                vt,
                                #[trigger] b@[p]@,
                                #[trigger] b@[q]@,
                                s,
                            );
                        if p == i && q == j {
                            lemma_product_unique(vt, b@[p]@, b@[q]@, s, m);
                        } else {
                            assert(moments::is_product(vt, b@[p]@, b@[q]@, s));
                        }
                    }
                    if is_product_so_far(vt, b@, i as int, j as int, s) {
                        let (p, q) = choose|p: int, q: int|
                            0 <= p <= q < b@.len() && (p < i || (p == i && q < j))
                                && moments::is_product(
                                vt,
                                #[trigger] b@[p]@,
                                #[trigger] b@[q]@,
                                s,
                            );
                        assert(moments::is_product(vt, b@[p]@, b@[q]@, s));
                    }
                    if s == m {
                        assert(moments::is_product(vt, b@[i as int]@, b@[j as int]@, s));
                    }
                }
            }
            if mono.len() > 0 {
                lists::add_list(&mut r, mono, true);
            }
            proof {
                assert forall|s: Seq<usize>| #[trigger] lists::has_list(r@, s) == (s.len() > 0
                    && is_product_so_far(vt, b@, i as int, j + 1, s)) by {
                    assert(lists::has_list(r0, s) == (s.len() > 0 && is_product_so_far(
                        vt,
                        b@,
                        i as int,
                        j as int,
                        s,
                    )));
                    assert(is_product_so_far(vt, b@, i as int, j + 1, s) == (is_product_so_far(
                        vt,
                        b@,
                        i as int,
                        j as int,
                        s,
                    ) || s == m));
                }
            }
            j += 1;
        }
        proof {
            assert forall|s: Seq<usize>| #[trigger] lists::has_list(r@, s) == (s.len() > 0
                && is_product_so_far(vt, b@, i + 1, i + 1, s)) by {
                assert(lists::has_list(r@, s) == (s.len() > 0 && is_product_so_far(
                    vt,
                    b@,
                    i as int,
                    n as int,
                    s,
                )));
                if is_product_so_far(vt, b@, i + 1, i + 1, s) {
                    let (p, q) = choose|p: int, q: int|
                        0 <= p <= q < b@.len() && (p < i + 1 || (p == i + 1 && q < i + 1))
                            && moments::is_product(vt, #[trigger] b@[p]@, #[trigger] b@[q]@, s);
                    assert(moments::is_product(vt, b@[p]@, b@[q]@, s));
                }
                if is_product_so_far(vt, b@, i as int, n as int, s) {
                    let (p, q) = choose|p: int, q: int|
                        0 <= p <= q < b@.len() && (p < i || (p == i && q < n))
                            && moments::is_product(vt, #[trigger] b@[p]@, #[trigger] b@[q]@, s);
                    assert(moments::is_product(vt, b@[p]@, b@[q]@, s));
                }
            }
        }
        i += 1;
    }
    proof {
        assert forall|s: Seq<usize>| #[trigger] lists::has_list(r@, s) == (s.len() > 0
            && is_basis_product(vt, b@, s)) by {
            assert(lists::has_list(r@, s) == (s.len() > 0 && is_product_so_far(
                vt,
                b@,
                n as int,
                n as int,
                s,
            )));
            if is_basis_product(vt, b@, s) {
                let (p, q) = choose|p: int, q: int|
                    0 <= p <= q < b@.len() && moments::is_product(
                        vt,
                        #[trigger] b@[p]@,
                        #[trigger] b@[q]@,
                        s,
                    );
                assert(moments::is_product(vt, b@[p]@, b@[q]@, s));
            }
        }
    }
    r
}

proof fn lemma_product_unique(
    vt: VarType,
    a: Seq<usize>,
    b: Seq<usize>,
    s: Seq<usize>,
    t: Seq<usize>,
)
    requires
        moments::is_product(vt, a, b, s),
        moments::is_product(vt, a, b, t),
    ensures
        s == t,
{
    assert forall|v: usize| s.contains(v) == t.contains(v) by {}
    sets::lemma_ascending_unique(s, t);
}

/// The entries of the upper triangle, row by row.
fn all_entries(vt: VarType, b: &Vec<Vec<usize>>, m: &Vec<Vec<usize>>) -> (r: Vec<Vec<usize>>)
    requires
        basis::are_lists(b@),
        are_moments(vt, b@, m@),
    ensures
        r@.len() == row_start(b@.len(), b@.len()),
        forall|i: nat, j: nat|
            i <= j < b@.len() ==> is_entry(
                vt,
                m@,
                b@[i as int]@,
                b@[j as int]@,
                r@[#[trigger] upper_place(b@.len(), i, j)]@,
            ),
{
    let n: usize = b.len();
    let ghost nn = b@.len();
    let mut r: Vec<Vec<usize>> = Vec::new();
    let mut i: usize = 0;
    while i < n
        invariant
            i <= n,
            n == b@.len(),
            nn == n,
            basis::are_lists(b@),
            are_moments(vt, b@, m@),
            r@.len() == row_start(nn, i as nat),
            forall|p: nat, q: nat|
                p < i && p <= q < n ==> is_entry(
                    vt,
                    m@,
                    b@[p as int]@,
                    b@[q as int]@,
                    r@[#[trigger] upper_place(nn, p, q)]@,
                ),
        decreases n - i,
    {
        let mut j: usize = i;
        while j < n
            invariant
                i <= j <= n,
                i < n,
                n == b@.len(),
                nn == n,
                basis::are_lists(b@),
                are_moments(vt, b@, m@),
                r@.len() == upper_place(nn, i as nat, j as nat),
                forall|p: nat, q: nat|
                    (p < i && p <= q < n) || (p == i && p <= q < j) ==> is_entry(
                        vt,
                        m@,
                        b@[p as int]@,
                        b@[q as int]@,
                        r@[#[trigger] upper_place(nn, p, q)]@,
                    ),
            decreases n - j,
        {
            assert(sets::ascending(b@[i as int]@) && sets::ascending(b@[j as int]@));
            let mono = moments::combine_sets(&b[i], &b[j], vt);
            let ghost r0 = r@;
            let mut e: Vec<usize> = Vec::new();
            if mono.len() > 0 {
                if let Some(k) = lists::find_list(m, &mono) {
                    e.push(k);
                }
                proof {
                    assert(is_basis_product(vt, b@, mono@)) by {
                        assert(moments::is_product(vt, b@[i as int]@, b@[j as int]@, mono@));
                    }
                    assert(lists::has_list(m@, mono@));
                }
            }
            assert(moments::is_product(vt, b@[i as int]@, b@[j as int]@, mono@));
            assert(is_entry(vt, m@, b@[i as int]@, b@[j as int]@, e@));
            r.push(e);
            proof {
                assert forall|p: nat, q: nat|
                    (p < i && p <= q < n) || (p == i && p <= q < j + 1) implies is_entry(
                    vt,
                    m@,
                    b@[p as int]@,
                    b@[q as int]@,
                    r@[#[trigger] upper_place(nn, p, q)]@,
                ) by {
                    if p < i {
                        lemma_place_order(nn, p, q, i as nat, j as nat);
                        assert(r@[upper_place(nn, p, q)] == r0[upper_place(nn, p, q)]);
                    } else if q < j {
                        lemma_row_start(nn, i as nat);
                        assert(r@[upper_place(nn, p, q)] == r0[upper_place(nn, p, q)]);
                    } else {
                        lemma_row_start(nn, i as nat);
                    }
                }
            }
            j += 1;
        }
        i += 1;
    }
    r
}

pub proof fn lemma_place_order(n: nat, p: nat, q: nat, i: nat, j: nat)
    requires
        p < i <= j <= n,
        p <= q < n,
    ensures
        0 <= upper_place(n, p, q) < upper_place(n, i, j),
    decreases i,
{
    lemma_row_start(n, p);
    if p + 1 == i {
    } else {
        lemma_place_order(n, p, q, (i - 1) as nat, (n - 1) as nat);
    }
}

/// The terms of an instance that are left, ready for a relaxation.
pub struct LasserreSdpState {
    pub var_type: VarType,
    pub d: usize,
    pub max_basis: usize,
    pub base_offset: i64,
    pub free_globals: Vec<usize>,
    pub active_terms: Vec<Term>,
}

/// A list without variable `p`, and the variables after `p` numbered one lower.
pub open spec fn closed_up(s: Seq<usize>, p: usize) -> Seq<usize>
    decreases s.len(),
{
    if s.len() == 0 {
        Seq::empty()
    } else if s.last() == p {
        closed_up(s.drop_last(), p)
    } else if s.last() > p {
        closed_up(s.drop_last(), p).push((s.last() - 1) as usize)
    } else {
        closed_up(s.drop_last(), p).push(s.last())
    }
}

/// The coefficient of a term with one variable fixed; nothing when the term
/// vanishes.
pub open spec fn fixed_coeff(vt: VarType, s: Seq<usize>, c: int, p: usize, high: bool) -> Option<
    int,
> {
    if !s.contains(p) || high {
        Some(c)
    } else {
        match vt {
            VarType::Bin => None,
            VarType::Spin => Some(-c),
        }
    }
}

/// The first `k` terms with variable `p` fixed, those that keep a variable.
pub open spec fn fixed_terms(
    vt: VarType,
    terms: Seq<Term>,
    p: usize,
    high: bool,
    k: nat,
) -> Seq<(Seq<usize>, i64)>
    decreases k,
{
    if k == 0 {
        Seq::empty()
    } else {
        let before = fixed_terms(vt, terms, p, high, (k - 1) as nat);
        let t = terms[k - 1];
        match fixed_coeff(vt, t.indices@, t.coeff as int, p, high) {
            Some(c) => if closed_up(t.indices@, p).len() == 0 {
                before
            } else {
                before.push((closed_up(t.indices@, p), c as i64))
            },
            None => before,
        }
    }
}

/// What those of the first `k` terms add that keep no variable.
pub open spec fn fixed_constant(
    vt: VarType,
    terms: Seq<Term>,
    p: usize,
    high: bool,
    k: nat,
) -> int
    decreases k,
{
    if k == 0 {
        0
    } else {
        let t = terms[k - 1];
        fixed_constant(vt, terms, p, high, (k - 1) as nat) + (match fixed_coeff(
            vt,
            t.indices@,
            t.coeff as int,
            p,
            high,
        ) {
            Some(c) => if closed_up(t.indices@, p).len() == 0 {
                c
            } else {
                0
            },
            None => 0,
        })
    }
}

/// An ascending list stays ascending and in range.
proof fn lemma_closed_up(s: Seq<usize>, p: usize, m: nat)
    requires
        sets::ascending(s),
        forall|i: int| 0 <= i < s.len() ==> (#[trigger] s[i]) < m,
        p < m,
    ensures
        sets::ascending(closed_up(s, p)),
        forall|i: int|
            0 <= i < closed_up(s, p).len() ==> (#[trigger] closed_up(s, p)[i]) < m - 1,
        s.len() > 0 ==> forall|i: int|
            0 <= i < closed_up(s, p).len() ==> (#[trigger] closed_up(s, p)[i]) <= s.last(),
        s.len() > 0 && s.last() > p ==> forall|i: int|
            0 <= i < closed_up(s, p).len() ==> (#[trigger] closed_up(s, p)[i]) < s.last(),
    decreases s.len(),
{
    if s.len() > 0 {
        let q = s.drop_last();
        assert(s[s.len() - 1] < m);
        assert forall|i: int| 0 <= i < q.len() implies (#[trigger] q[i]) < m by {
            assert(q[i] == s[i]);
        }
        assert forall|i: int, j: int| 0 <= i < j < q.len() implies q[i] < q[j] by {
            assert(s[i] < s[j]);
        }
        lemma_closed_up(q, p, m);
        let r = closed_up(s, p);
        let rq = closed_up(q, p);
        if q.len() > 0 {
            assert(s[q.len() - 1] < s[s.len() - 1]);
            assert(q.last() == s[q.len() - 1]);
        }
        assert forall|i: int, j: int| 0 <= i < j < r.len() implies r[i] < r[j] by {
            if j < rq.len() {
                assert(rq[i] < rq[j]);
            } else {
                assert(rq[i] <= q.last());
                if s.last() > p && q.last() > p {
                    assert(rq[i] < q.last());
                }
                if s.last() > p && q.last() <= p {
                    assert(rq[i] <= q.last());
                    if q.last() == p {
                        lemma_closed_below(q, p);
                    }
                }
            }
        }
        assert forall|i: int| 0 <= i < r.len() implies (#[trigger] r[i]) < m - 1 by {
            if i < rq.len() {
                assert(rq[i] < m - 1);
            }
        }
    }
}

/// A list that ends with `p` has only smaller variables besides.
proof fn lemma_closed_below(s: Seq<usize>, p: usize)
    requires
        sets::ascending(s),
        s.len() > 0,
        s.last() == p,
    ensures
        forall|i: int| 0 <= i < closed_up(s, p).len() ==> (#[trigger] closed_up(s, p)[i]) < p,
{
    let q = s.drop_last();
    assert forall|i: int| 0 <= i < q.len() implies (#[trigger] q[i]) < p by {
        assert(s[i] < s[s.len() - 1]);
    }
    lemma_closed_low(q, p);
}

proof fn lemma_closed_low(q: Seq<usize>, p: usize)
    requires
        forall|i: int| 0 <= i < q.len() ==> (#[trigger] q[i]) < p,
    ensures
        closed_up(q, p) == q,
    decreases q.len(),
{
    if q.len() > 0 {
        assert(q[q.len() - 1] < p);
        assert forall|i: int| 0 <= i < q.drop_last().len() implies (#[trigger] q.drop_last()[i])
            < p by {
            assert(q.drop_last()[i] == q[i]);
        }
        lemma_closed_low(q.drop_last(), p);
        assert(q =~= q.drop_last().push(q.last()));
    } else {
        assert(closed_up(q, p) =~= q);
    }
}

/// The value of a term with one variable fixed.
proof fn lemma_fixed_value(
    vt: VarType,
    s: Seq<usize>,
    c: int,
    p: usize,
    high: bool,
    y: Seq<bool>,
)
    requires
        sets::ascending(s),
        p <= y.len(),
        forall|i: int| 0 <= i < s.len() ==> (#[trigger] s[i]) <= y.len(),
        y.len() < usize::MAX,
    ensures
        c * term::monomial(vt, s, y.insert(p as int, high)) == (match fixed_coeff(
            vt,
            s,
            c,
            p,
            high,
        ) {
            Some(k) => k * term::monomial(vt, closed_up(s, p), y),
            None => 0,
        }),
    decreases s.len(),
{
    let x = y.insert(p as int, high);
    if s.len() == 0 {
        assert(!s.contains(p));
        assert(closed_up(s, p) =~= s);
    } else {
        let q = s.drop_last();
        let u = s.last();
        assert(s[s.len() - 1] <= y.len());
        assert forall|i: int| 0 <= i < q.len() implies (#[trigger] q[i]) <= y.len() by {
            assert(q[i] == s[i]);
        }
        assert forall|i: int, j: int| 0 <= i < j < q.len() implies q[i] < q[j] by {
            assert(s[i] < s[j]);
        }
        lemma_fixed_value(vt, q, c, p, high, y);
        let m = term::monomial(vt, q, x);
        let n = term::monomial(vt, closed_up(q, p), y);
        let b = term::bit_value(vt, x[u as int]);
        assert(c * (m * b) == (c * m) * b) by (nonlinear_arith);
        assert(s.contains(p) == (q.contains(p) || u == p)) by {
            if q.contains(p) {
                let i = choose|i: int| 0 <= i < q.len() && q[i] == p;
                assert(s[i] == p);
            }
            if u == p {
                assert(s[s.len() - 1] == p);
            }
            if s.contains(p) && u != p {
                let i = choose|i: int| 0 <= i < s.len() && s[i] == p;
                assert(q[i] == p);
            }
        }
        if u == p {
            assert(!q.contains(p)) by {
                if q.contains(p) {
                    let i = choose|i: int| 0 <= i < q.len() && q[i] == p;
                    assert(s[i] < s[s.len() - 1]);
                }
            }
            assert(x[u as int] == high);
            assert((c * n) * 1 == c * n);
            assert((c * n) * 0 == 0);
            assert((c * n) * -1 == (-c) * n) by (nonlinear_arith);
        } else {
            let w = closed_up(s, p).last();
            assert(closed_up(s, p).drop_last() =~= closed_up(q, p));
            assert(x[u as int] == y[w as int]);
            assert((c * n) * b == c * (n * b)) by (nonlinear_arith);
            assert(((-c) * n) * b == (-c) * (n * b)) by (nonlinear_arith);
            assert(0 * b == 0);
        }
    }
}

impl LasserreSdpState {
    /// The terms are tidy.
    pub open spec fn wf(&self) -> bool {
        active::is_tidy(self.base_offset, self.active_terms@, self.free_globals@.len())
    }

    /// The value at an assignment of the free variables.
    pub open spec fn value(&self, y: Seq<bool>) -> int {
        self.base_offset + term::poly(self.var_type, self.active_terms@, y)
    }

    /// The state of an instance under fixes.
    pub open spec fn is_of<V: VarDomain>(
        &self,
        instance: &HuboInstance<V>,
        g: Seq<Option<bool>>,
    ) -> bool {
        self.var_type == V::tag() && active::is_active_part(
            instance,
            g,
            &(ActiveTerms {
                base_offset: self.base_offset,
                free_globals: self.free_globals,
                terms: self.active_terms,
            }),
        )
    }

    /// The state of an instance under fixes, at level `d`.
    pub fn new<V: VarDomain>(
        instance: &HuboInstance<V>,
        fixes: &Fixes,
        d: usize,
        max_basis: usize,
    ) -> (r: Self)
        requires
            instance.wf(),
            instance.fits(),
            fixes.wf(),
        ensures
            r.is_of(instance, fixes@),
            r.wf(),
            r.d == d,
            r.max_basis == max_basis,
    {
        let a = active::active_terms(instance, fixes);
        LasserreSdpState {
            var_type: V::var_type(),
            d,
            max_basis,
            base_offset: a.base_offset,
            free_globals: a.free_globals,
            active_terms: a.terms,
        }
    }

    /// Fix one free variable; nothing changes when the variable is not free.
    pub fn update_with_fixed_variable(&mut self, global_var: usize, high: bool)
        requires
            old(self).wf(),
        ensures
            final(self).wf(),
            final(self).var_type == old(self).var_type,
            final(self).d == old(self).d,
            final(self).max_basis == old(self).max_basis,
            !old(self).free_globals@.contains(global_var) ==> final(self).base_offset
                == old(self).base_offset && final(self).free_globals@ == old(self).free_globals@
                && final(self).active_terms@ == old(self).active_terms@,
            old(self).free_globals@.contains(global_var) ==> exists|p: int|
                is_first_place(old(self).free_globals@, global_var, p) && #[trigger] is_fixed_state(
                    old(self),
                    final(self),
                    p,
                    high,
                ),
    {
        let ghost s0 = *self;
        let ghost m = self.free_globals@.len();
        let mut p: usize = 0;
        while p < self.free_globals.len() && self.free_globals[p] != global_var
            invariant
                p <= self.free_globals@.len(),
                self.free_globals == s0.free_globals,
                forall|i: int| 0 <= i < p ==> self.free_globals@[i] != global_var,
            decreases self.free_globals@.len() - p,
        {
            p += 1;
        }
        if p == self.free_globals.len() {
            return;
        }
        assert(self.free_globals@[p as int] == global_var);
        assert(is_first_place(s0.free_globals@, global_var, p as int));
        let mut new_terms: Vec<Term> = Vec::new();
        let mut base: i64 = self.base_offset;
        let mut k: usize = 0;
        let ghost terms = self.active_terms@;
        let ghost vt = self.var_type;
        assert(crate::views::term_views(new_terms@) =~= Seq::empty());
        assert(terms.take(0) =~= Seq::empty());
        while k < self.active_terms.len()
            invariant
                k <= terms.len(),
                *self == s0,
                s0.wf(),
                terms == s0.active_terms@,
                vt == s0.var_type,
                m == s0.free_globals@.len(),
                p < m,
                crate::views::term_views(new_terms@) == fixed_terms(vt, terms, p, high, k as nat),
                base == s0.base_offset + fixed_constant(vt, terms, p, high, k as nat),
                forall|i: int|
                    0 <= i < new_terms@.len() ==> active::is_tidy_list(
                        (#[trigger] new_terms@[i]).indices@,
                        (m - 1) as nat,
                    ),
                term::abs(base - s0.base_offset) + term::abs_sum(new_terms@) <= term::abs_sum(
                    terms.take(k as int),
                ),
            decreases terms.len() - k,
        {
            let ghost nt0 = new_terms@;
            let t = &self.active_terms[k];
            let ghost idx = t.indices@;
            proof {
                assert(active::is_tidy_list(terms[k as int].indices@, m));
                assert(terms.take(k + 1).drop_last() =~= terms.take(k as int));
                term::lemma_abs_sum_take(terms, (k + 1) as int);
                active::lemma_abs_sum_nonneg(new_terms@);
                lemma_closed_up(idx, p, m);
            }
            let mut nv: Vec<usize> = Vec::new();
            let mut found: bool = false;
            let mut i: usize = 0;
            assert(idx.take(0) =~= Seq::empty());
            while i < t.indices.len()
                invariant
                    i <= idx.len(),
                    idx == t.indices@,
                    nv@ == closed_up(idx.take(i as int), p),
                    found == idx.take(i as int).contains(p),
                decreases idx.len() - i,
            {
                let v: usize = t.indices[i];
                proof {
                    assert(idx.take(i + 1).drop_last() =~= idx.take(i as int));
                    sets::lemma_contains_take(idx, i as int);
                }
                if v == p {
                    found = true;
                } else if v > p {
                    nv.push(v - 1);
                } else {
                    nv.push(v);
                }
                i += 1;
            }
            assert(idx.take(i as int) =~= idx);
            let low: bool = found && !high;
            let gone: bool = match self.var_type {
                VarType::Bin => low,
                VarType::Spin => false,
            };
            if !gone {
                let c: i64 = if low {
                    -t.coeff
                } else {
                    t.coeff
                };
                assert(fixed_coeff(vt, idx, t.coeff as int, p, high) == Some(c as int));
                if nv.len() == 0 {
                    base = base + c;
                } else {
                    new_terms.push(Term { indices: nv, coeff: c });
                    proof {
                        assert(crate::views::term_views(new_terms@)
                            =~= crate::views::term_views(nt0).push(
                            crate::views::term_view(new_terms@[nt0.len() as int]),
                        ));
                        assert(new_terms@.drop_last() =~= nt0);
                    }
                }
            }
            k += 1;
        }
        assert(terms.take(k as int) =~= terms);
        let removed = self.free_globals.remove(p);
        self.base_offset = base;
        self.active_terms = new_terms;
        assert(is_fixed_state(&s0, self, p as int, high));
    }
}

/// `p` is the first place of `v`.
pub open spec fn is_first_place(s: Seq<usize>, v: usize, p: int) -> bool {
    &&& 0 <= p < s.len()
    &&& s[p] == v
    &&& forall|i: int| 0 <= i < p ==> s[i] != v
}

/// `b` is the state `a` with free variable `p` fixed.
pub open spec fn is_fixed_state(
    a: &LasserreSdpState,
    b: &LasserreSdpState,
    p: int,
    high: bool,
) -> bool {
    let k = a.active_terms@.len();
    &&& b.free_globals@ == a.free_globals@.remove(p)
    &&& b.base_offset == a.base_offset + fixed_constant(
        a.var_type,
        a.active_terms@,
        p as usize,
        high,
        k,
    )
    &&& crate::views::term_views(b.active_terms@) == fixed_terms(
        a.var_type,
        a.active_terms@,
        p as usize,
        high,
        k,
    )
}

proof fn lemma_fixed_poly(
    vt: VarType,
    terms: Seq<Term>,
    p: usize,
    high: bool,
    y: Seq<bool>,
    k: nat,
)
    requires
        k <= terms.len(),
        p <= y.len(),
        y.len() < usize::MAX,
        forall|i: int|
            0 <= i < terms.len() ==> active::is_tidy_list(
                (#[trigger] terms[i]).indices@,
                y.len() + 1,
            ) && terms[i].coeff > i64::MIN,
    ensures
        term::poly(vt, terms.take(k as int), y.insert(p as int, high)) == fixed_constant(
            vt,
            terms,
            p,
            high,
            k,
        ) + crate::views::view_poly(vt, fixed_terms(vt, terms, p, high, k), y),
    decreases k,
{
    if k == 0 {
        assert(terms.take(0) =~= Seq::empty());
    } else {
        let k1 = (k - 1) as nat;
        lemma_fixed_poly(vt, terms, p, high, y, k1);
        assert(terms.take(k as int).drop_last() =~= terms.take(k1 as int));
        let t = terms[k1 as int];
        assert(active::is_tidy_list(terms[k1 as int].indices@, y.len() + 1));
        lemma_fixed_value(vt, t.indices@, t.coeff as int, p, high, y);
        let before = fixed_terms(vt, terms, p, high, k1);
        let after = fixed_terms(vt, terms, p, high, k);
        match fixed_coeff(vt, t.indices@, t.coeff as int, p, high) {
            Some(c) => {
                if closed_up(t.indices@, p).len() == 0 {
                    assert(c * 1 == c);
                } else {
                    assert(after.drop_last() =~= before);
                    assert(c as i64 == c);
                }
            },
            None => {},
        }
    }
}

/// Fixing a variable keeps the value of every assignment that agrees with it.
pub proof fn fixing_keeps_value(
    a: &LasserreSdpState,
    b: &LasserreSdpState,
    p: int,
    high: bool,
    y: Seq<bool>,
)
    requires
        a.wf(),
        0 <= p < a.free_globals@.len(),
        a.free_globals@.len() <= usize::MAX,
        b.var_type == a.var_type,
        is_fixed_state(a, b, p, high),
        y.len() == a.free_globals@.len() - 1,
    ensures
        b.value(y) == a.value(y.insert(p, high)),
{
    let terms = a.active_terms@;
    assert forall|i: int| 0 <= i < terms.len() implies active::is_tidy_list(
        (#[trigger] terms[i]).indices@,
        y.len() + 1,
    ) && terms[i].coeff > i64::MIN by {
        active::lemma_coeff_fits(terms, i);
    }
    lemma_fixed_poly(a.var_type, terms, p as usize, high, y, terms.len());
    assert(terms.take(terms.len() as int) =~= terms);
    crate::views::lemma_term_views(a.var_type, b.active_terms@, y);
}

/// The relaxation of a state.
pub enum Relaxation {
    /// The bound is known without a relaxation.
    Known(i64),
    /// A base and the coefficients of the moments, to be minimised over moment
    /// matrices.
    Moments { base: i64, objective: Vec<i64>, apparatus: MomentApparatus },
}

/// The least value of a term by itself.
pub open spec fn term_floor(vt: VarType, c: int) -> int {
    match vt {
        VarType::Bin => if c < 0 {
            c
        } else {
            0
        },
        VarType::Spin => -term::abs(c),
    }
}

/// The least values of those of the first `k` terms with more than `degree`
/// variables, in all.
pub open spec fn floors_above(vt: VarType, terms: Seq<Term>, degree: nat, k: nat) -> int
    decreases k,
{
    if k == 0 {
        0
    } else {
        floors_above(vt, terms, degree, (k - 1) as nat) + (if terms[k - 1].indices@.len() > degree {
            term_floor(vt, terms[k - 1].coeff as int)
        } else {
            0
        })
    }
}

/// The lists of the first `k` terms with at most `degree` variables.
pub open spec fn lists_within(terms: Seq<Term>, degree: nat, k: nat) -> Seq<Seq<usize>>
    decreases k,
{
    if k == 0 {
        Seq::empty()
    } else if terms[k - 1].indices@.len() <= degree {
        lists_within(terms, degree, (k - 1) as nat).push(terms[k - 1].indices@)
    } else {
        lists_within(terms, degree, (k - 1) as nat)
    }
}

/// The coefficients of those of the first `k` terms with at most `degree`
/// variables that are the moment `s`, in all.
pub open spec fn moment_weight(terms: Seq<Term>, degree: nat, s: Seq<usize>, k: nat) -> int
    decreases k,
{
    if k == 0 {
        0
    } else {
        moment_weight(terms, degree, s, (k - 1) as nat) + (if terms[k - 1].indices@.len() <= degree
            && terms[k - 1].indices@ == s {
            terms[k - 1].coeff as int
        } else {
            0
        })
    }
}

/// The least values of those of the first `k` terms with at most `degree`
/// variables that are no moment, in all.
pub open spec fn floors_missing(
    vt: VarType,
    terms: Seq<Term>,
    degree: nat,
    m: Seq<Vec<usize>>,
    k: nat,
) -> int
    decreases k,
{
    if k == 0 {
        0
    } else {
        floors_missing(vt, terms, degree, m, (k - 1) as nat) + (if terms[k - 1].indices@.len()
            <= degree && !lists::has_list(m, terms[k - 1].indices@) {
            term_floor(vt, terms[k - 1].coeff as int)
        } else {
            0
        })
    }
}

/// The views of lists.
pub open spec fn list_views(s: Seq<Vec<usize>>) -> Seq<Seq<usize>> {
    Seq::new(s.len(), |i: int| s[i]@)
}

/// The level of a state, at least one.
pub open spec fn level_of(s: &LasserreSdpState) -> nat {
    if s.d == 0 {
        1
    } else {
        s.d as nat
    }
}

/// The apparatus of the terms within twice the level.
pub open spec fn is_apparatus_of(s: &LasserreSdpState, a: &MomentApparatus) -> bool {
    exists|l: Seq<Vec<usize>>| #[trigger]
        a.is_for(level_of(s), s.var_type, s.max_basis as nat, l) && list_views(l) == lists_within(
            s.active_terms@,
            2 * level_of(s),
            s.active_terms@.len(),
        )
}

/// The relaxation of a state at its level: terms above twice the level, and
/// terms that are no moment, count with their least value; without room for the
/// basis all terms do.
pub open spec fn is_relaxation(s: &LasserreSdpState, r: Relaxation) -> bool {
    let degree = 2 * level_of(s);
    let terms = s.active_terms@;
    let k = terms.len();
    let high = floors_above(s.var_type, terms, degree, k);
    if s.free_globals@.len() == 0 {
        r matches Relaxation::Known(b) && b == s.base_offset
    } else if lists_within(terms, degree, k).len() == 0 {
        r matches Relaxation::Known(b) && b == s.base_offset + high
    } else {
        match r {
            Relaxation::Known(b) => b == s.base_offset + floors_above(s.var_type, terms, 0, k)
                && exists|a: MomentApparatus| #[trigger]
                is_apparatus_of(s, &a) && a.mat_dim > s.max_basis,
            Relaxation::Moments { base, objective, apparatus } => {
                let m = apparatus.free_moments@;
                &&& apparatus.mat_dim <= s.max_basis
                &&& is_apparatus_of(s, &apparatus)
                &&& objective@.len() == m.len()
                &&& forall|i: int|
                    0 <= i < m.len() ==> #[trigger] objective@[i] == moment_weight(
                        terms,
                        degree,
                        m[i]@,
                        k,
                    )
                &&& base == s.base_offset + high + floors_missing(s.var_type, terms, degree, m, k)
            },
        }
    }
}

proof fn lemma_floors_size(vt: VarType, terms: Seq<Term>, degree: nat, m: Seq<Vec<usize>>, k: nat)
    requires
        k <= terms.len(),
    ensures
        -term::abs_sum(terms.take(k as int)) <= floors_above(vt, terms, degree, k) + floors_missing(
            vt,
            terms,
            degree,
            m,
            k,
        ) <= floors_above(vt, terms, degree, k) <= 0,
        term::abs_sum(terms.take(k as int)) <= term::abs_sum(terms),
    decreases k,
{
    term::lemma_abs_sum_take(terms, k as int);
    if k == 0 {
        assert(terms.take(0) =~= Seq::empty());
    } else {
        lemma_floors_size(vt, terms, degree, m, (k - 1) as nat);
        assert(terms.take(k as int).drop_last() =~= terms.take(k - 1));
    }
}

proof fn lemma_weight_size(terms: Seq<Term>, degree: nat, s: Seq<usize>, k: nat)
    requires
        k <= terms.len(),
    ensures
        term::abs(moment_weight(terms, degree, s, k)) <= term::abs_sum(terms.take(k as int)),
        term::abs_sum(terms.take(k as int)) <= term::abs_sum(terms),
    decreases k,
{
    term::lemma_abs_sum_take(terms, k as int);
    if k == 0 {
        assert(terms.take(0) =~= Seq::empty());
    } else {
        lemma_weight_size(terms, degree, s, (k - 1) as nat);
        assert(terms.take(k as int).drop_last() =~= terms.take(k - 1));
    }
}

/// The least value of a term by itself.
pub fn termwise_min(coeff: i64, var_type: VarType) -> (r: i64)
    requires
        coeff > i64::MIN,
    ensures
        r == term_floor(var_type, coeff as int),
{
    match var_type {
        VarType::Bin => if coeff < 0 {
            coeff
        } else {
            0
        },
        VarType::Spin => if coeff < 0 {
            coeff
        } else {
            -coeff
        },
    }
}

impl LasserreSdpState {
    /// The least values of the terms with more than `degree` variables, in all.
    fn floors(&self, degree: usize) -> (r: i64)
        requires
            self.wf(),
        ensures
            r == floors_above(
                self.var_type,
                self.active_terms@,
                degree as nat,
                self.active_terms@.len(),
            ),
    {
        let ghost terms = self.active_terms@;
        let ghost none = Seq::<Vec<usize>>::empty();
        let mut sum: i64 = 0;
        let mut k: usize = 0;
        while k < self.active_terms.len()
            invariant
                k <= terms.len(),
                terms == self.active_terms@,
                self.wf(),
                sum == floors_above(self.var_type, terms, degree as nat, k as nat),
            decreases terms.len() - k,
        {
            proof {
                lemma_floors_size(self.var_type, terms, degree as nat, none, (k + 1) as nat);
                active::lemma_coeff_fits(terms, k as int);
            }
            if self.active_terms[k].indices.len() > degree {
                sum = sum + termwise_min(self.active_terms[k].coeff, self.var_type);
            }
            k += 1;
        }
        sum
    }

    /// The relaxation of the state.
    pub fn prepare(&self) -> (r: Relaxation)
        requires
            self.wf(),
            2 * self.d <= usize::MAX,
        ensures
            is_relaxation(self, r),
    {
        if self.free_globals.len() == 0 {
            return Relaxation::Known(self.base_offset);
        }
        let ghost terms = self.active_terms@;
        let ghost vt = self.var_type;
        let level: usize = if self.d == 0 {
            1
        } else {
            self.d
        };
        let degree: usize = 2 * level;
        let ghost lv: nat = level_of(self);
        assert(lv == level as nat && 2 * lv == degree as nat);
        let mut lists: Vec<Vec<usize>> = Vec::new();
        let mut k: usize = 0;
        while k < self.active_terms.len()
            invariant
                k <= terms.len(),
                terms == self.active_terms@,
                self.wf(),
                list_views(lists@) == lists_within(terms, degree as nat, k as nat),
                basis::are_lists(lists@),
            decreases terms.len() - k,
        {
            let ghost l0 = lists@;
            if self.active_terms[k].indices.len() <= degree {
                lists.push(lists::copy_list(self.active_terms[k].indices.as_slice()));
                proof {
                    assert(active::is_tidy_list(
                        terms[k as int].indices@,
                        self.free_globals@.len(),
                    ));
                    assert(list_views(lists@) =~= list_views(l0).push(terms[k as int].indices@));
                }
            }
            k += 1;
        }
        proof {
            let none = Seq::<Vec<usize>>::empty();
            lemma_floors_size(vt, terms, degree as nat, none, terms.len());
            lemma_floors_size(vt, terms, 0, none, terms.len());
            assert(terms.take(terms.len() as int) =~= terms);
        }
        let high: i64 = self.floors(degree);
        if lists.len() == 0 {
            return Relaxation::Known(self.base_offset + high);
        }
        let apparatus = MomentApparatus::build_for_instance(
            level,
            self.var_type,
            self.max_basis,
            &lists,
        );
        if apparatus.mat_dim > self.max_basis {
            let all: i64 = self.floors(0);
            assert(list_views(lists@) == lists_within(terms, 2 * lv, terms.len()));
            assert(apparatus.is_for(lv, self.var_type, self.max_basis as nat, lists@));
            assert(is_apparatus_of(self, &apparatus));
            return Relaxation::Known(self.base_offset + all);
        }
        let ghost m = apparatus.free_moments@;
        let mut objective: Vec<i64> = Vec::new();
        while objective.len() < apparatus.free_moments.len()
            invariant
                objective@.len() <= apparatus.free_moments@.len(),
                forall|i: int| 0 <= i < objective@.len() ==> #[trigger] objective@[i] == 0,
            decreases apparatus.free_moments@.len() - objective@.len(),
        {
            objective.push(0);
        }
        let mut missing: i64 = 0;
        let mut k: usize = 0;
        while k < self.active_terms.len()
            invariant
                k <= terms.len(),
                terms == self.active_terms@,
                vt == self.var_type,
                self.wf(),
                m == apparatus.free_moments@,
                lists::in_list_order(true, m),
                objective@.len() == m.len(),
                forall|i: int|
                    0 <= i < m.len() ==> #[trigger] objective@[i] == moment_weight(
                        terms,
                        degree as nat,
                        m[i]@,
                        k as nat,
                    ),
                missing == floors_missing(vt, terms, degree as nat, m, k as nat),
            decreases terms.len() - k,
        {
            let ghost obj0 = objective@;
            proof {
                lemma_floors_size(vt, terms, degree as nat, m, (k + 1) as nat);
                lemma_floors_size(vt, terms, degree as nat, m, k as nat);
                active::lemma_coeff_fits(terms, k as int);
            }
            if self.active_terms[k].indices.len() <= degree {
                match apparatus.moment_index(&self.active_terms[k].indices) {
                    Some(i) => {
                        let c: i64 = self.active_terms[k].coeff;
                        let o: i64 = objective[i];
                        proof {
                            lemma_weight_size(terms, degree as nat, m[i as int]@, (k + 1) as nat);
                            assert(m[i as int]@ == terms[k as int].indices@);
                            assert(lists::has_list(m, terms[k as int].indices@));
                        }
                        objective.set(i, o + c);
                        proof {
                            assert forall|j: int| 0 <= j < m.len() implies #[trigger] objective@[j]
                                == moment_weight(terms, degree as nat, m[j]@, (k + 1) as nat) by {
                                assert(obj0[j] == moment_weight(
                                    terms,
                                    degree as nat,
                                    m[j]@,
                                    k as nat,
                                ));
                                if j != i && m[j]@ == terms[k as int].indices@ {
                                    if j < i {
                                        assert(lists::comes_before(true, m[j]@, m[i as int]@));
                                    } else {
                                        assert(lists::comes_before(true, m[i as int]@, m[j]@));
                                    }
                                    lists::lemma_order_total(true, m[j]@, m[i as int]@);
                                }
                            }
                        }
                    },
                    None => {
                        missing = missing + termwise_min(self.active_terms[k].coeff, self.var_type);
                        proof {
                            assert forall|j: int| 0 <= j < m.len() implies #[trigger] objective@[j]
                                == moment_weight(terms, degree as nat, m[j]@, (k + 1) as nat) by {
                                assert(obj0[j] == moment_weight(
                                    terms,
                                    degree as nat,
                                    m[j]@,
                                    k as nat,
                                ));
                                if m[j]@ == terms[k as int].indices@ {
                                    assert(lists::has_list(m, terms[k as int].indices@));
                                }
                            }
                        }
                    },
                }
            }
            k += 1;
        }
        proof {
            lemma_floors_size(vt, terms, degree as nat, m, terms.len());
            assert(list_views(lists@) == lists_within(terms, 2 * lv, terms.len()));
            assert(apparatus.is_for(lv, self.var_type, self.max_basis as nat, lists@));
            assert(is_apparatus_of(self, &apparatus));
        }
        Relaxation::Moments { base: self.base_offset + high + missing, objective, apparatus }
    }
}

/// The value of the first `i` moments at an assignment, weighted by `w`.
pub open spec fn moment_sum(
    vt: VarType,
    m: Seq<Vec<usize>>,
    w: spec_fn(int) -> int,
    y: Seq<bool>,
    i: nat,
) -> int
    decreases i,
{
    if i == 0 {
        0
    } else {
        moment_sum(vt, m, w, y, (i - 1) as nat) + w(i - 1) * term::monomial(vt, m[i - 1]@, y)
    }
}

/// The weights of the moments by the first `k` terms.
spec fn weights_of(terms: Seq<Term>, degree: nat, m: Seq<Vec<usize>>, k: nat) -> spec_fn(int) -> int {
    |i: int| moment_weight(terms, degree, m[i]@, k)
}

/// One more term adds its value to the moments that it is.
proof fn lemma_moment_step(
    vt: VarType,
    terms: Seq<Term>,
    degree: nat,
    m: Seq<Vec<usize>>,
    y: Seq<bool>,
    k: nat,
    i: nat,
)
    requires
        k < terms.len(),
        i <= m.len(),
        lists::in_list_order(true, m),
    ensures
        moment_sum(vt, m, weights_of(terms, degree, m, k + 1), y, i) == moment_sum(
            vt,
            m,
            weights_of(terms, degree, m, k),
            y,
            i,
        ) + (if terms[k as int].indices@.len() <= degree && lists::has_list(
            m.take(i as int),
            terms[k as int].indices@,
        ) {
            terms[k as int].coeff * term::monomial(vt, terms[k as int].indices@, y)
        } else {
            0
        }),
    decreases i,
{
    let s = terms[k as int].indices@;
    let c = terms[k as int].coeff as int;
    let w0 = weights_of(terms, degree, m, k);
    let w1 = weights_of(terms, degree, m, k + 1);
    if i == 0 {
        assert(!lists::has_list(m.take(0), s));
    } else {
        let i1 = (i - 1) as nat;
        lemma_moment_step(vt, terms, degree, m, y, k, i1);
        let a = m.take(i1 as int);
        let b = m.take(i as int);
        let mono = term::monomial(vt, m[i1 as int]@, y);
        assert(lists::has_list(b, s) == (lists::has_list(a, s) || m[i1 as int]@ == s)) by {
            if lists::has_list(a, s) {
                let j = choose|j: int| 0 <= j < a.len() && (#[trigger] a[j])@ == s;
                assert(b[j] == a[j]);
            }
            if m[i1 as int]@ == s {
                assert(b[i1 as int]@ == s);
            }
            if lists::has_list(b, s) {
                let j = choose|j: int| 0 <= j < b.len() && (#[trigger] b[j])@ == s;
                if j < i1 {
                    assert(a[j] == b[j]);
                }
            }
        }
        if m[i1 as int]@ == s {
            assert(!lists::has_list(a, s)) by {
                if lists::has_list(a, s) {
                    let j = choose|j: int| 0 <= j < a.len() && (#[trigger] a[j])@ == s;
                    assert(m[j] == a[j]);
                    assert(lists::comes_before(true, m[j]@, m[i1 as int]@));
                    lists::lemma_order_total(true, m[j]@, m[i1 as int]@);
                }
            }
            if s.len() <= degree {
                assert(w1(i1 as int) == w0(i1 as int) + c);
                assert((w0(i1 as int) + c) * mono == w0(i1 as int) * mono + c * mono)
                    by (nonlinear_arith);
            } else {
                assert(w1(i1 as int) == w0(i1 as int));
            }
        } else {
            assert(w1(i1 as int) == w0(i1 as int));
        }
    }
}

pub proof fn lemma_term_floor(vt: VarType, s: Seq<usize>, c: int, y: Seq<bool>)
    ensures
        term_floor(vt, c) <= c * term::monomial(vt, s, y),
{
    term::lemma_monomial_range(vt, s, y);
    let m = term::monomial(vt, s, y);
    assert(c * m == if m == 0 { 0 } else if m == 1 { c } else { -c }) by (nonlinear_arith)
        requires
            m == 0 || m == 1 || m == -1,
    ;
}

proof fn lemma_moments_below(
    vt: VarType,
    terms: Seq<Term>,
    degree: nat,
    m: Seq<Vec<usize>>,
    y: Seq<bool>,
    k: nat,
)
    requires
        k <= terms.len(),
        lists::in_list_order(true, m),
    ensures
        floors_above(vt, terms, degree, k) + floors_missing(vt, terms, degree, m, k) + moment_sum(
            vt,
            m,
            weights_of(terms, degree, m, k),
            y,
            m.len(),
        ) <= term::poly(vt, terms.take(k as int), y),
        floors_above(vt, terms, 0, k) + constants_in(terms, k) <= term::poly(
            vt,
            terms.take(k as int),
            y,
        ),
    decreases k,
{
    if k == 0 {
        assert(terms.take(0) =~= Seq::empty());
        lemma_no_weights(vt, terms, degree, m, y, m.len());
    } else {
        let k1 = (k - 1) as nat;
        lemma_moments_below(vt, terms, degree, m, y, k1);
        assert(terms.take(k as int).drop_last() =~= terms.take(k1 as int));
        let t = terms[k1 as int];
        lemma_term_floor(vt, t.indices@, t.coeff as int, y);
        lemma_moment_step(vt, terms, degree, m, y, k1, m.len());
        assert(m.take(m.len() as int) =~= m);
        if t.indices@.len() == 0 {
            assert(t.coeff * 1 == t.coeff);
        }
    }
}

/// The coefficients of those of the first `k` terms that have no variable.
spec fn constants_in(terms: Seq<Term>, k: nat) -> int
    decreases k,
{
    if k == 0 {
        0
    } else {
        constants_in(terms, (k - 1) as nat) + (if terms[k - 1].indices@.len() == 0 {
            terms[k - 1].coeff as int
        } else {
            0
        })
    }
}

proof fn lemma_no_constants(terms: Seq<Term>, m: nat, k: nat)
    requires
        k <= terms.len(),
        forall|i: int|
            0 <= i < terms.len() ==> active::is_tidy_list((#[trigger] terms[i]).indices@, m),
    ensures
        constants_in(terms, k) == 0,
    decreases k,
{
    if k > 0 {
        lemma_no_constants(terms, m, (k - 1) as nat);
        assert(active::is_tidy_list(terms[k - 1].indices@, m));
    }
}

proof fn lemma_no_weights(
    vt: VarType,
    terms: Seq<Term>,
    degree: nat,
    m: Seq<Vec<usize>>,
    y: Seq<bool>,
    i: nat,
)
    ensures
        moment_sum(vt, m, weights_of(terms, degree, m, 0), y, i) == 0,
    decreases i,
{
    if i > 0 {
        lemma_no_weights(vt, terms, degree, m, y, (i - 1) as nat);
        assert(0 * term::monomial(vt, m[i - 1]@, y) == 0);
    }
}

proof fn lemma_moment_sum_same(
    vt: VarType,
    m: Seq<Vec<usize>>,
    v: spec_fn(int) -> int,
    w: spec_fn(int) -> int,
    y: Seq<bool>,
    i: nat,
)
    requires
        forall|j: int| 0 <= j < i ==> #[trigger] v(j) == w(j),
    ensures
        moment_sum(vt, m, v, y, i) == moment_sum(vt, m, w, y, i),
    decreases i,
{
    if i > 0 {
        lemma_moment_sum_same(vt, m, v, w, y, (i - 1) as nat);
        assert(v(i - 1) == w(i - 1));
    }
}

/// A relaxation bounds every value from below: a known bound directly, and the
/// objective over moments at the moments of every assignment.
pub proof fn relaxation_is_below(s: &LasserreSdpState, r: Relaxation, y: Seq<bool>)
    requires
        s.wf(),
        is_relaxation(s, r),
    ensures
        r matches Relaxation::Known(b) ==> b <= s.value(y),
        r matches Relaxation::Moments { base, objective, apparatus } ==> base + moment_sum(
            s.var_type,
            apparatus.free_moments@,
            |i: int| objective@[i] as int,
            y,
            apparatus.free_moments@.len(),
        ) <= s.value(y),
{
    let terms = s.active_terms@;
    let k = terms.len();
    let degree = 2 * level_of(s);
    let vt = s.var_type;
    assert(terms.take(k as int) =~= terms);
    lemma_no_constants(terms, s.free_globals@.len(), k);
    match r {
        Relaxation::Known(b) => {
            let none = Seq::<Vec<usize>>::empty();
            lemma_moments_below(vt, terms, degree, none, y, k);
            if lists_within(terms, degree, k).len() == 0 {
                lemma_none_missing(vt, terms, degree, none, k);
            }
            if s.free_globals@.len() == 0 && k > 0 {
                assert(active::is_tidy_list(terms[0].indices@, 0));
                assert(terms[0].indices@[0] < 0);
            }
        },
        Relaxation::Moments { base, objective, apparatus } => {
            let m = apparatus.free_moments@;
            assert(lists::in_list_order(true, m)) by {
                let l = choose|l: Seq<Vec<usize>>| #[trigger]
                    apparatus.is_for(level_of(s), s.var_type, s.max_basis as nat, l);
            }
            lemma_moments_below(vt, terms, degree, m, y, k);
            let v = |i: int| objective@[i] as int;
            let w = weights_of(terms, degree, m, k);
            assert forall|j: int| 0 <= j < m.len() implies #[trigger] v(j) == w(j) by {
                assert(objective@[j] == moment_weight(terms, degree, m[j]@, k));
            }
            lemma_moment_sum_same(vt, m, v, w, y, m.len());
        },
    }
}

proof fn lemma_none_missing(
    vt: VarType,
    terms: Seq<Term>,
    degree: nat,
    m: Seq<Vec<usize>>,
    k: nat,
)
    requires
        k <= terms.len(),
        lists_within(terms, degree, k).len() == 0,
    ensures
        floors_missing(vt, terms, degree, m, k) == 0,
    decreases k,
{
    if k > 0 {
        lemma_none_missing(vt, terms, degree, m, (k - 1) as nat);
    }
}

/// The relaxation of a state with at most `max_vars` free variables; with more of
/// them all terms count with their least value.
pub open spec fn is_limited_relaxation(s: &LasserreSdpState, max_vars: usize, r: Relaxation) -> bool {
    if s.free_globals@.len() > max_vars {
        r matches Relaxation::Known(b) && b == s.base_offset + floors_above(
            s.var_type,
            s.active_terms@,
            0,
            s.active_terms@.len(),
        )
    } else {
        is_relaxation(s, r)
    }
}

impl LasserreSdpState {
    /// The relaxation of the state with at most `max_vars` free variables.
    pub fn prepare_within(&self, max_vars: usize) -> (r: Relaxation)
        requires
            self.wf(),
            2 * self.d <= usize::MAX,
        ensures
            is_limited_relaxation(self, max_vars, r),
    {
        if self.free_globals.len() > max_vars {
            proof {
                let terms = self.active_terms@;
                let none = Seq::<Vec<usize>>::empty();
                lemma_floors_size(self.var_type, terms, 0, none, terms.len());
                assert(terms.take(terms.len() as int) =~= terms);
            }
            let all: i64 = self.floors(0);
            return Relaxation::Known(self.base_offset + all);
        }
        self.prepare()
    }
}

/// The relaxation of an instance under fixes, at level two or above.
pub fn lasserre_relaxation<V: VarDomain>(
    instance: &HuboInstance<V>,
    fixes: &Fixes,
    cfg: &LasserreConfig,
) -> (r: (LasserreSdpState, Relaxation))
    requires
        instance.wf(),
        instance.fits(),
        fixes.wf(),
        2 * cfg.level <= usize::MAX,
    ensures
        r.0.is_of(instance, fixes@),
        r.0.wf(),
        r.0.d == (if cfg.level < 2 {
            2
        } else {
            cfg.level
        }),
        r.0.max_basis == cfg.max_basis,
        is_limited_relaxation(&r.0, cfg.max_vars, r.1),
{
    let d: usize = if cfg.level < 2 {
        2
    } else {
        cfg.level
    };
    let state = LasserreSdpState::new(instance, fixes, d, cfg.max_basis);
    let relaxation = state.prepare_within(cfg.max_vars);
    (state, relaxation)
}

/// The relaxation of an instance under fixes, at level one or above.
pub fn lasserre_exact_relaxation<V: VarDomain>(
    instance: &HuboInstance<V>,
    fixes: &Fixes,
    cfg: &ExactLasserreConfig,
) -> (r: (LasserreSdpState, Relaxation))
    requires
        instance.wf(),
        instance.fits(),
        fixes.wf(),
        2 * cfg.level <= usize::MAX,
    ensures
        r.0.is_of(instance, fixes@),
        r.0.wf(),
        r.0.d == (if cfg.level < 1 {
            1
        } else {
            cfg.level
        }),
        r.0.max_basis == cfg.max_basis,
        is_limited_relaxation(&r.0, cfg.max_vars, r.1),
{
    let d: usize = if cfg.level < 1 {
        1
    } else {
        cfg.level
    };
    let state = LasserreSdpState::new(instance, fixes, d, cfg.max_basis);
    let relaxation = state.prepare_within(cfg.max_vars);
    (state, relaxation)
}

/// The least values of all terms are at most every value.
pub proof fn floors_are_below(s: &LasserreSdpState, y: Seq<bool>)
    requires
        s.wf(),
    ensures
        s.base_offset + floors_above(s.var_type, s.active_terms@, 0, s.active_terms@.len())
            <= s.value(y),
{
    let terms = s.active_terms@;
    let k = terms.len();
    let none = Seq::<Vec<usize>>::empty();
    assert(terms.take(k as int) =~= terms);
    lemma_no_constants(terms, s.free_globals@.len(), k);
    lemma_moments_below(s.var_type, terms, 0, none, y, k);
}

proof fn lemma_moments_exact(
    vt: VarType,
    terms: Seq<Term>,
    degree: nat,
    m: Seq<Vec<usize>>,
    y: Seq<bool>,
    k: nat,
)
    requires
        k <= terms.len(),
        lists::in_list_order(true, m),
        forall|t: int|
            0 <= t < terms.len() ==> (#[trigger] terms[t]).indices@.len() <= degree
                && lists::has_list(m, terms[t].indices@),
    ensures
        floors_above(vt, terms, degree, k) == 0,
        floors_missing(vt, terms, degree, m, k) == 0,
        moment_sum(vt, m, weights_of(terms, degree, m, k), y, m.len()) == term::poly(
            vt,
            terms.take(k as int),
            y,
        ),
    decreases k,
{
    if k == 0 {
        assert(terms.take(0) =~= Seq::empty());
        lemma_no_weights(vt, terms, degree, m, y, m.len());
    } else {
        let k1 = (k - 1) as nat;
        lemma_moments_exact(vt, terms, degree, m, y, k1);
        assert(terms.take(k as int).drop_last() =~= terms.take(k1 as int));
        lemma_moment_step(vt, terms, degree, m, y, k1, m.len());
        assert(m.take(m.len() as int) =~= m);
        assert(lists::has_list(m, terms[k1 as int].indices@));
    }
}

/// Where every term is a moment within twice the level, the objective over moments is
/// the value at every assignment.
pub proof fn relaxation_of_moments_is_exact(
    s: &LasserreSdpState,
    base: i64,
    objective: Vec<i64>,
    apparatus: MomentApparatus,
    y: Seq<bool>,
)
    requires
        s.wf(),
        is_relaxation(s, (Relaxation::Moments { base, objective, apparatus })),
        forall|t: int|
            0 <= t < s.active_terms@.len() ==> (#[trigger] s.active_terms@[t]).indices@.len() <= 2
                * level_of(s) && lists::has_list(
                apparatus.free_moments@,
                s.active_terms@[t].indices@,
            ),
    ensures
        base + moment_sum(
            s.var_type,
            apparatus.free_moments@,
            |i: int| objective@[i] as int,
            y,
            apparatus.free_moments@.len(),
        ) == s.value(y),
{
    let terms = s.active_terms@;
    let k = terms.len();
    let degree = 2 * level_of(s);
    let vt = s.var_type;
    let m = apparatus.free_moments@;
    assert(terms.take(k as int) =~= terms);
    assert(lists::in_list_order(true, m)) by {
        let l = choose|l: Seq<Vec<usize>>| #[trigger]
            apparatus.is_for(level_of(s), s.var_type, s.max_basis as nat, l);
    }
    lemma_moments_exact(vt, terms, degree, m, y, k);
    let v = |i: int| objective@[i] as int;
    let w = weights_of(terms, degree, m, k);
    assert forall|j: int| 0 <= j < m.len() implies #[trigger] v(j) == w(j) by {
        assert(objective@[j] == moment_weight(terms, degree, m[j]@, k));
    }
    lemma_moment_sum_same(vt, m, v, w, y, m.len());
}

} // verus!
