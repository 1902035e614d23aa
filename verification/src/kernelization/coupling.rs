//! Spin pairs whose product has a preferred sign.

use crate::delta;
use crate::domain::{VarDomain, VarType};
use crate::domain;
use crate::fixes::Fixes;
use crate::fixes;
use crate::instance::HuboInstance;
use crate::node::{Node, PartiallyAssignedTerm};
use crate::node;
use crate::sets;
use crate::term::Term;
use crate::term;
use vstd::prelude::*;

verus! {

/// Which member of a coupled pair follows the other.
#[derive(Debug, Clone, Copy, PartialEq, Eq, Structural)]
pub enum ConditionalCouplingKind {
    /// `s_j = alpha * s_i` follows once `s_i` is assigned.
    JGivenI,
    /// `s_i = alpha * s_j` follows once `s_j` is assigned.
    IGivenJ,
}

/// A pair of spins one of which follows the other.
#[derive(Debug, Clone, Copy, PartialEq, Eq, Structural)]
pub struct ConditionalCoupling {
    pub i: usize,
    pub j: usize,
    pub alpha: i64,
    pub kind: ConditionalCouplingKind,
}

/// How a pair of variables occurs: the range of the factor of their product,
/// and which of them occur together, the first alone, the second alone.
#[derive(Debug, Clone, Copy, PartialEq, Eq, Structural)]
pub struct PairBounds {
    pub a_min: i64,
    pub a_max: i64,
    pub has_a: bool,
    pub has_b: bool,
    pub has_c: bool,
}

/// The coefficient and the variables of each term.
pub open spec fn whole_items(terms: Seq<Term>) -> spec_fn(int) -> Option<(int, Seq<usize>)> {
    |t: int| Some((terms[t].coeff as int, terms[t].indices@))
}

/// The coefficient and the variables that are left of each term.
pub open spec fn active_items(s: Seq<Option<PartiallyAssignedTerm>>) -> spec_fn(int) -> Option<
    (int, Seq<usize>),
> {
    |t: int|
        match s[t] {
            Some(p) => Some((p.coeff as int, p.free_variables@)),
            None => None,
        }
}

/// The coefficient of an item.
pub open spec fn item_coeff(parts: spec_fn(int) -> Option<(int, Seq<usize>)>, t: int) -> int {
    match parts(t) {
        Some((c, vars)) => c,
        None => 0,
    }
}

/// The variables of an item.
pub open spec fn item_vars(parts: spec_fn(int) -> Option<(int, Seq<usize>)>, t: int) -> Seq<usize> {
    match parts(t) {
        Some((c, vars)) => vars,
        None => Seq::empty(),
    }
}

/// Item `t` lists `i` or not and `j` or not, as asked.
pub open spec fn item_has(
    parts: spec_fn(int) -> Option<(int, Seq<usize>)>,
    t: int,
    i: usize,
    j: usize,
    with_i: bool,
    with_j: bool,
) -> bool {
    parts(t) is Some && item_vars(parts, t).contains(i) == with_i && item_vars(parts, t).contains(j)
        == with_j
}

/// Some of the first `k` parts lists `i` and `j` as asked.
pub open spec fn any_item_has(
    parts: spec_fn(int) -> Option<(int, Seq<usize>)>,
    i: usize,
    j: usize,
    with_i: bool,
    with_j: bool,
    k: nat,
) -> bool {
    exists|t: int| 0 <= t < k && #[trigger] item_has(parts, t, i, j, with_i, with_j)
}

/// The least value of a factor: the coefficient itself when no other variable
/// is left.
pub open spec fn interval_low(c: int, degree: int) -> int {
    if degree == 0 {
        c
    } else {
        -term::abs(c)
    }
}

/// The greatest value of a factor.
pub open spec fn interval_high(c: int, degree: int) -> int {
    if degree == 0 {
        c
    } else {
        term::abs(c)
    }
}

/// The least value of the factor of the pair's product over the first `k`
/// items.
pub open spec fn pair_low(
    parts: spec_fn(int) -> Option<(int, Seq<usize>)>,
    i: usize,
    j: usize,
    k: nat,
) -> int
    decreases k,
{
    if k == 0 {
        0
    } else {
        pair_low(parts, i, j, (k - 1) as nat) + (if item_has(parts, k - 1, i, j, true, true) {
            interval_low(item_coeff(parts, k - 1), item_vars(parts, k - 1).len() - 2)
        } else {
            0
        })
    }
}

/// The greatest value of the factor of the pair's product over the first `k`
/// items.
pub open spec fn pair_high(
    parts: spec_fn(int) -> Option<(int, Seq<usize>)>,
    i: usize,
    j: usize,
    k: nat,
) -> int
    decreases k,
{
    if k == 0 {
        0
    } else {
        pair_high(parts, i, j, (k - 1) as nat) + (if item_has(parts, k - 1, i, j, true, true) {
            interval_high(item_coeff(parts, k - 1), item_vars(parts, k - 1).len() - 2)
        } else {
            0
        })
    }
}

/// `b` describes the pair over the first `k` items.
pub open spec fn is_pair_bounds(
    parts: spec_fn(int) -> Option<(int, Seq<usize>)>,
    i: usize,
    j: usize,
    k: nat,
    b: PairBounds,
) -> bool {
    &&& b.a_min == pair_low(parts, i, j, k)
    &&& b.a_max == pair_high(parts, i, j, k)
    &&& b.has_a == any_item_has(parts, i, j, true, true, k)
    &&& b.has_b == any_item_has(parts, i, j, true, false, k)
    &&& b.has_c == any_item_has(parts, i, j, false, true, k)
}

/// The range of one factor.
pub fn term_interval(coeff: i64, degree_after_elimination: usize) -> (r: (i64, i64))
    requires
        coeff > i64::MIN,
    ensures
        r.0 == interval_low(coeff as int, degree_after_elimination as int),
        r.1 == interval_high(coeff as int, degree_after_elimination as int),
{
    if degree_after_elimination == 0 {
        (coeff, coeff)
    } else if coeff < 0 {
        (coeff, -coeff)
    } else {
        (-coeff, coeff)
    }
}

/// One more item extends the questions of [`any_item_has`] by one.
proof fn lemma_any_item(
    parts: spec_fn(int) -> Option<(int, Seq<usize>)>,
    i: usize,
    j: usize,
    with_i: bool,
    with_j: bool,
    k: nat,
)
    ensures
        any_item_has(parts, i, j, with_i, with_j, k + 1) == (any_item_has(
            parts,
            i,
            j,
            with_i,
            with_j,
            k,
        ) || item_has(parts, k as int, i, j, with_i, with_j)),
        !any_item_has(parts, i, j, with_i, with_j, 0),
{
    if any_item_has(parts, i, j, with_i, with_j, k + 1) {
        let t = choose|t: int| 0 <= t < k + 1 && #[trigger] item_has(parts, t, i, j, with_i, with_j);
        if t < k {
            assert(item_has(parts, t, i, j, with_i, with_j));
        }
    }
    if any_item_has(parts, i, j, with_i, with_j, k) {
        let t = choose|t: int| 0 <= t < k && #[trigger] item_has(parts, t, i, j, with_i, with_j);
        assert(item_has(parts, t, i, j, with_i, with_j));
    }
}

/// Two different members need two places.
proof fn lemma_two_members(s: Seq<usize>, i: usize, j: usize)
    requires
        s.contains(i),
        s.contains(j),
        i != j,
    ensures
        s.len() >= 2,
{
    let a = choose|a: int| 0 <= a < s.len() && s[a] == i;
    let b = choose|b: int| 0 <= b < s.len() && s[b] == j;
    assert(a != b);
}

/// One item's contribution to the bounds of a pair.
fn widen(b: PairBounds, coeff: i64, vars: &[usize], i: usize, j: usize) -> (r: PairBounds)
    requires
        i != j,
        coeff > i64::MIN,
        i64::MIN <= b.a_min - term::abs(coeff as int),
        b.a_min + term::abs(coeff as int) <= i64::MAX,
        i64::MIN <= b.a_max - term::abs(coeff as int),
        b.a_max + term::abs(coeff as int) <= i64::MAX,
    ensures
        r.a_min == b.a_min + (if vars@.contains(i) && vars@.contains(j) {
            interval_low(coeff as int, vars@.len() - 2)
        } else {
            0
        }),
        r.a_max == b.a_max + (if vars@.contains(i) && vars@.contains(j) {
            interval_high(coeff as int, vars@.len() - 2)
        } else {
            0
        }),
        r.has_a == (b.has_a || (vars@.contains(i) && vars@.contains(j))),
        r.has_b == (b.has_b || (vars@.contains(i) && !vars@.contains(j))),
        r.has_c == (b.has_c || (!vars@.contains(i) && vars@.contains(j))),
{
    let has_i: bool = sets::member(vars, i);
    let has_j: bool = sets::member(vars, j);
    let mut r = b;
    if has_i && has_j {
        proof {
            lemma_two_members(vars@, i, j);
        }
        let (lo, hi) = term_interval(coeff, vars.len() - 2);
        r.has_a = true;
        r.a_min = b.a_min + lo;
        r.a_max = b.a_max + hi;
    } else if has_i {
        r.has_b = true;
    } else if has_j {
        r.has_c = true;
    }
    r
}

/// The bounds of a pair over the whole instance.
pub fn pair_bounds<V: VarDomain>(instance: &HuboInstance<V>, i: usize, j: usize) -> (r: PairBounds)
    requires
        instance.fits(),
        i != j,
    ensures
        is_pair_bounds(whole_items(instance.terms@), i, j, instance.terms@.len(), r),
{
    let ghost parts = whole_items(instance.terms@);
    let ghost terms = instance.terms@;
    let mut b = PairBounds { a_min: 0, a_max: 0, has_a: false, has_b: false, has_c: false };
    let mut t: usize = 0;
    proof {
        lemma_any_item(parts, i, j, true, true, 0);
        lemma_any_item(parts, i, j, true, false, 0);
        lemma_any_item(parts, i, j, false, true, 0);
        assert(terms.take(0) =~= Seq::empty());
    }
    while t < instance.terms.len()
        invariant
            t <= terms.len(),
            i != j,
            terms == instance.terms@,
            parts == whole_items(terms),
            2 * term::abs_sum(terms) <= i64::MAX,
            term::abs(b.a_min as int) <= term::abs_sum(terms.take(t as int)),
            term::abs(b.a_max as int) <= term::abs_sum(terms.take(t as int)),
            is_pair_bounds(parts, i, j, t as nat, b),
        decreases terms.len() - t,
    {
        proof {
            term::lemma_abs_sum_take(terms, t as int);
            term::lemma_abs_sum_take(terms, t + 1);
            assert(terms.take(t + 1).drop_last() =~= terms.take(t as int));
            lemma_any_item(parts, i, j, true, true, t as nat);
            lemma_any_item(parts, i, j, true, false, t as nat);
            lemma_any_item(parts, i, j, false, true, t as nat);
            assert(parts(t as int) == Some((terms[t as int].coeff as int, terms[t as int].indices@)));
        }
        b = widen(b, instance.terms[t].coeff, instance.terms[t].indices.as_slice(), i, j);
        t += 1;
    }
    b
}

/// The bounds of a pair over what is left of the terms.
pub fn pair_bounds_active(
    term_status: &[Option<PartiallyAssignedTerm>],
    i: usize,
    j: usize,
) -> (r: PairBounds)
    requires
        2 * node::status_abs(term_status@) <= i64::MAX,
        i != j,
    ensures
        is_pair_bounds(active_items(term_status@), i, j, term_status@.len(), r),
{
    let ghost s = term_status@;
    let ghost parts = active_items(s);
    let mut b = PairBounds { a_min: 0, a_max: 0, has_a: false, has_b: false, has_c: false };
    let mut t: usize = 0;
    proof {
        lemma_any_item(parts, i, j, true, true, 0);
        lemma_any_item(parts, i, j, true, false, 0);
        lemma_any_item(parts, i, j, false, true, 0);
        assert(s.take(0) =~= Seq::empty());
    }
    while t < term_status.len()
        invariant
            t <= s.len(),
            i != j,
            s == term_status@,
            parts == active_items(s),
            2 * node::status_abs(s) <= i64::MAX,
            term::abs(b.a_min as int) <= node::status_abs(s.take(t as int)),
            term::abs(b.a_max as int) <= node::status_abs(s.take(t as int)),
            is_pair_bounds(parts, i, j, t as nat, b),
        decreases s.len() - t,
    {
        proof {
            lemma_status_abs_take(s, t as int);
            lemma_status_abs_take(s, t + 1);
            assert(s.take(t + 1).drop_last() =~= s.take(t as int));
            lemma_any_item(parts, i, j, true, true, t as nat);
            lemma_any_item(parts, i, j, true, false, t as nat);
            lemma_any_item(parts, i, j, false, true, t as nat);
        }
        if let Some(status) = &term_status[t] {
            assert(parts(t as int) == Some((status.coeff as int, status.free_variables@)));
            b = widen(b, status.coeff, status.free_variables.as_slice(), i, j);
        } else {
            assert(parts(t as int) is None);
        }
        t += 1;
    }
    b
}

proof fn lemma_status_abs_take(s: Seq<Option<PartiallyAssignedTerm>>, k: int)
    requires
        0 <= k <= s.len(),
    ensures
        0 <= node::status_abs(s.take(k)) <= node::status_abs(s),
    decreases s.len() - k,
{
    if k < s.len() {
        lemma_status_abs_take(s, k + 1);
        assert(s.take(k + 1).drop_last() =~= s.take(k));
        lemma_status_abs_nonneg(s.take(k));
    } else {
        assert(s.take(k) =~= s);
        lemma_status_abs_nonneg(s);
    }
}

proof fn lemma_status_abs_nonneg(s: Seq<Option<PartiallyAssignedTerm>>)
    ensures
        0 <= node::status_abs(s),
    decreases s.len(),
{
    if s.len() > 0 {
        lemma_status_abs_nonneg(s.drop_last());
    }
}

/// The preferred sign of a pair's product, where its factor has a constant
/// nonzero sign.
pub open spec fn preferred_sign(low: int, high: int) -> Option<i64> {
    if low > 0 {
        Some(-1i64)
    } else if high < 0 {
        Some(1i64)
    } else {
        None
    }
}

/// The preferred sign of a pair's product.
pub fn alpha_from_bounds(a_min: i64, a_max: i64) -> (r: Option<i64>)
    ensures
        r == preferred_sign(a_min as int, a_max as int),
{
    if a_min > 0 {
        Some(-1)
    } else if a_max < 0 {
        Some(1)
    } else {
        None
    }
}


/// The preferred sign of a pair that occurs only together.
pub open spec fn uncoupled_sign(
    parts: spec_fn(int) -> Option<(int, Seq<usize>)>,
    k: nat,
) -> spec_fn(usize, usize) -> Option<i64> {
    |i: usize, j: usize|
        if any_item_has(parts, i, j, true, true, k) && !any_item_has(parts, i, j, true, false, k)
            && !any_item_has(parts, i, j, false, true, k) {
            preferred_sign(pair_low(parts, i, j, k), pair_high(parts, i, j, k))
        } else {
            None
        }
}

/// The coupling of a pair one member of which also occurs alone.
pub open spec fn one_sided_coupling(
    parts: spec_fn(int) -> Option<(int, Seq<usize>)>,
    k: nat,
) -> spec_fn(usize, usize) -> Option<ConditionalCoupling> {
    |i: usize, j: usize|
        {
            let has_b = any_item_has(parts, i, j, true, false, k);
            let has_c = any_item_has(parts, i, j, false, true, k);
            if !any_item_has(parts, i, j, true, true, k) || has_b == has_c {
                None
            } else {
                match preferred_sign(pair_low(parts, i, j, k), pair_high(parts, i, j, k)) {
                    None => None,
                    Some(alpha) => Some(
                        ConditionalCoupling {
                            i,
                            j,
                            alpha,
                            kind: if has_b {
                                ConditionalCouplingKind::JGivenI
                            } else {
                                ConditionalCouplingKind::IGivenJ
                            },
                        },
                    ),
                }
            }
        }
}

/// A pair that occurs only together and whose factor takes both signs.
pub open spec fn frustrated(
    parts: spec_fn(int) -> Option<(int, Seq<usize>)>,
    k: nat,
) -> spec_fn(usize, usize) -> Option<(usize, usize)> {
    |i: usize, j: usize|
        if any_item_has(parts, i, j, true, true, k) && !any_item_has(parts, i, j, true, false, k)
            && !any_item_has(parts, i, j, false, true, k) && pair_low(parts, i, j, k) < 0
            && pair_high(parts, i, j, k) > 0 {
            Some((i, j))
        } else {
            None
        }
}

/// Some listed pair has `v`.
pub open spec fn paired(pairs: Seq<(usize, usize, i64)>, v: usize) -> bool {
    exists|q: int| 0 <= q < pairs.len() && ((#[trigger] pairs[q]).0 == v || pairs[q].1 == v)
}

/// The first place from `b` on of a partner of the variable at place `a`: one
/// that is in no pair yet and has a preferred sign.
pub open spec fn partner(
    vars: Seq<usize>,
    rel: spec_fn(usize, usize) -> Option<i64>,
    pairs: Seq<(usize, usize, i64)>,
    a: int,
    b: int,
) -> Option<int>
    decreases vars.len() - b,
{
    if b >= vars.len() {
        None
    } else if !paired(pairs, vars[b]) && rel(vars[a], vars[b]) is Some {
        Some(b)
    } else {
        partner(vars, rel, pairs, a, b + 1)
    }
}

/// The pairs after the first `k` variables have looked for their partners.
pub open spec fn greedy_pairs(
    vars: Seq<usize>,
    rel: spec_fn(usize, usize) -> Option<i64>,
    k: nat,
) -> Seq<(usize, usize, i64)>
    decreases k,
{
    if k == 0 {
        Seq::empty()
    } else {
        let p = greedy_pairs(vars, rel, (k - 1) as nat);
        if paired(p, vars[k - 1]) {
            p
        } else {
            match partner(vars, rel, p, k - 1, k as int) {
                None => p,
                Some(b) => p.push((vars[k - 1], vars[b], rel(vars[k - 1], vars[b])->0)),
            }
        }
    }
}

/// What `cls` gives for the variable at place `a` with those after it and
/// before place `b`.
pub open spec fn pair_row<T>(
    vars: Seq<usize>,
    cls: spec_fn(usize, usize) -> Option<T>,
    a: int,
    b: int,
) -> Seq<T>
    decreases b - a,
{
    if b <= a + 1 {
        Seq::empty()
    } else {
        match cls(vars[a], vars[b - 1]) {
            Some(t) => pair_row(vars, cls, a, b - 1).push(t),
            None => pair_row(vars, cls, a, b - 1),
        }
    }
}

/// What `cls` gives for the pairs whose first member is among the first `k`
/// variables.
pub open spec fn pair_scan<T>(
    vars: Seq<usize>,
    cls: spec_fn(usize, usize) -> Option<T>,
    k: nat,
) -> Seq<T>
    decreases k,
{
    if k == 0 {
        Seq::empty()
    } else {
        pair_scan(vars, cls, (k - 1) as nat) + pair_row(vars, cls, k - 1, vars.len() as int)
    }
}

/// All variables, ascending.
pub open spec fn all_vars(n: nat) -> Seq<usize> {
    Seq::new(n, |i: int| i as usize)
}

/// Where the terms of a pair are looked up.
trait PairSource {
    spec fn parts(&self) -> spec_fn(int) -> Option<(int, Seq<usize>)>;

    spec fn count(&self) -> nat;

    spec fn small(&self) -> bool;

    fn bounds(&self, i: usize, j: usize) -> (r: PairBounds)
        requires
            self.small(),
            i != j,
        ensures
            is_pair_bounds(self.parts(), i, j, self.count(), r),
    ;
}

/// The terms of an instance.
struct WholeTerms<'a, V: VarDomain> {
    instance: &'a HuboInstance<V>,
}

impl<'a, V: VarDomain> PairSource for WholeTerms<'a, V> {
    spec fn parts(&self) -> spec_fn(int) -> Option<(int, Seq<usize>)> {
        whole_items(self.instance.terms@)
    }

    spec fn count(&self) -> nat {
        self.instance.terms@.len()
    }

    spec fn small(&self) -> bool {
        self.instance.fits()
    }

    fn bounds(&self, i: usize, j: usize) -> (r: PairBounds) {
        pair_bounds(self.instance, i, j)
    }
}

/// What is left of the terms.
struct ActiveTerms<'a> {
    status: &'a [Option<PartiallyAssignedTerm>],
}

impl<'a> PairSource for ActiveTerms<'a> {
    spec fn parts(&self) -> spec_fn(int) -> Option<(int, Seq<usize>)> {
        active_items(self.status@)
    }

    spec fn count(&self) -> nat {
        self.status@.len()
    }

    spec fn small(&self) -> bool {
        2 * node::status_abs(self.status@) <= i64::MAX
    }

    fn bounds(&self, i: usize, j: usize) -> (r: PairBounds) {
        pair_bounds_active(self.status, i, j)
    }
}

/// All variables, ascending.
fn list_all(n: usize) -> (r: Vec<usize>)
    ensures
        r@ == all_vars(n as nat),
{
    let mut r: Vec<usize> = Vec::new();
    let mut i: usize = 0;
    while i < n
        invariant
            i <= n,
            r@ == all_vars(i as nat),
        decreases n - i,
    {
        r.push(i);
        i += 1;
        assert(r@ =~= all_vars(i as nat));
    }
    r
}

/// Pair up variables that occur only together and prefer a sign.
fn match_pairs<S: PairSource>(src: &S, vars: &[usize], n: usize) -> (r: Vec<(usize, usize, i64)>)
    requires
        src.small(),
        sets::ascending(vars@),
        forall|q: int| 0 <= q < vars@.len() ==> (#[trigger] vars@[q]) < n,
    ensures
        r@ == greedy_pairs(vars@, uncoupled_sign(src.parts(), src.count()), vars@.len()),
{
    let ghost rel = uncoupled_sign(src.parts(), src.count());
    let mut in_pair: Vec<bool> = Vec::new();
    while in_pair.len() < n
        invariant
            in_pair@.len() <= n,
            forall|v: int| 0 <= v < in_pair@.len() ==> !#[trigger] in_pair@[v],
        decreases n - in_pair@.len(),
    {
        in_pair.push(false);
    }
    let mut result: Vec<(usize, usize, i64)> = Vec::new();
    let mut a: usize = 0;
    while a < vars.len()
        invariant
            a <= vars@.len(),
            src.small(),
            rel == uncoupled_sign(src.parts(), src.count()),
            sets::ascending(vars@),
            forall|q: int| 0 <= q < vars@.len() ==> (#[trigger] vars@[q]) < n,
            in_pair@.len() == n,
            result@ == greedy_pairs(vars@, rel, a as nat),
            forall|v: int| 0 <= v < n ==> #[trigger] in_pair@[v] == paired(result@, v as usize),
        decreases vars@.len() - a,
    {
        let i: usize = vars[a];
        let ghost p = result@;
        if !in_pair[i] {
            let mut b: usize = a + 1;
            let mut found: bool = false;
            let mut alpha: i64 = 0;
            while !found && b < vars.len()
                invariant
                    a < b <= vars@.len(),
                    i == vars@[a as int],
                    src.small(),
                    rel == uncoupled_sign(src.parts(), src.count()),
                    sets::ascending(vars@),
                    forall|q: int| 0 <= q < vars@.len() ==> (#[trigger] vars@[q]) < n,
                    in_pair@.len() == n,
                    forall|v: int| 0 <= v < n ==> #[trigger] in_pair@[v] == paired(p, v as usize),
                    partner(vars@, rel, p, a as int, a + 1) == partner(
                        vars@,
                        rel,
                        p,
                        a as int,
                        b as int,
                    ),
                    found ==> b < vars@.len() && partner(vars@, rel, p, a as int, b as int) == Some(
                        b as int,
                    ) && rel(i, vars@[b as int]) == Some(alpha),
                decreases vars@.len() - b + (if found { 0int } else { 1int }),
            {
                let j: usize = vars[b];
                assert(in_pair@[j as int] == paired(p, j));
                if !in_pair[j] {
                    assert(vars@[a as int] < vars@[b as int]);
                    let bounds = src.bounds(i, j);
                    if bounds.has_a && !bounds.has_b && !bounds.has_c {
                        if let Some(sign) = alpha_from_bounds(bounds.a_min, bounds.a_max) {
                            alpha = sign;
                            found = true;
                        }
                    }
                }
                if !found {
                    b += 1;
                }
            }
            assert(in_pair@[i as int] == paired(p, i));
            if found {
                let j: usize = vars[b];
                result.push((i, j, alpha));
                in_pair.set(i, true);
                in_pair.set(j, true);
                proof {
                    assert forall|v: int| 0 <= v < n implies #[trigger] in_pair@[v] == paired(
                        result@,
                        v as usize,
                    ) by {
                        lemma_paired_push(p, (i, j, alpha), v as usize);
                    }
                }
            }
        } else {
            assert(in_pair@[i as int] == paired(p, i));
        }
        a += 1;
    }
    result
}

pub proof fn lemma_paired_push(p: Seq<(usize, usize, i64)>, e: (usize, usize, i64), v: usize)
    ensures
        paired(p.push(e), v) == (paired(p, v) || e.0 == v || e.1 == v),
{
    let r = p.push(e);
    if paired(p, v) {
        let q = choose|q: int| 0 <= q < p.len() && ((#[trigger] p[q]).0 == v || p[q].1 == v);
        assert(r[q] == p[q]);
    }
    if e.0 == v || e.1 == v {
        assert(r[p.len() as int] == e);
    }
    if paired(r, v) {
        let q = choose|q: int| 0 <= q < r.len() && ((#[trigger] r[q]).0 == v || r[q].1 == v);
        if q < p.len() {
            assert(p[q] == r[q]);
        }
    }
}

/// The pairs one member of which also occurs alone.
fn scan_conditional<S: PairSource>(src: &S, vars: &[usize]) -> (r: Vec<ConditionalCoupling>)
    requires
        src.small(),
        sets::ascending(vars@),
    ensures
        r@ == pair_scan(vars@, one_sided_coupling(src.parts(), src.count()), vars@.len()),
{
    let ghost cls = one_sided_coupling(src.parts(), src.count());
    let mut out: Vec<ConditionalCoupling> = Vec::new();
    let mut a: usize = 0;
    while a < vars.len()
        invariant
            a <= vars@.len(),
            src.small(),
            sets::ascending(vars@),
            cls == one_sided_coupling(src.parts(), src.count()),
            out@ == pair_scan(vars@, cls, a as nat),
        decreases vars@.len() - a,
    {
        let i: usize = vars[a];
        let mut b: usize = a + 1;
        assert(out@ =~= out@ + pair_row(vars@, cls, a as int, b as int));
        while b < vars.len()
            invariant
                a < b <= vars@.len(),
                i == vars@[a as int],
                src.small(),
                sets::ascending(vars@),
                cls == one_sided_coupling(src.parts(), src.count()),
                out@ == pair_scan(vars@, cls, a as nat) + pair_row(
                    vars@,
                    cls,
                    a as int,
                    b as int,
                ),
            decreases vars@.len() - b,
        {
            let j: usize = vars[b];
            assert(vars@[a as int] < vars@[b as int]);
            let bounds = src.bounds(i, j);
            let ghost before = out@;
            if bounds.has_a && bounds.has_b != bounds.has_c {
                if let Some(alpha) = alpha_from_bounds(bounds.a_min, bounds.a_max) {
                    let kind = if bounds.has_b {
                        ConditionalCouplingKind::JGivenI
                    } else {
                        ConditionalCouplingKind::IGivenJ
                    };
                    out.push(ConditionalCoupling { i, j, alpha, kind });
                }
            }
            b += 1;
            assert(out@ =~= pair_scan(vars@, cls, a as nat) + pair_row(
                vars@,
                cls,
                a as int,
                b as int,
            ));
        }
        a += 1;
    }
    out
}

/// The pairs that occur only together and whose factor takes both signs.
fn scan_frustrated<S: PairSource>(src: &S, vars: &[usize]) -> (r: Vec<(usize, usize)>)
    requires
        src.small(),
        sets::ascending(vars@),
    ensures
        r@ == pair_scan(vars@, frustrated(src.parts(), src.count()), vars@.len()),
{
    let ghost cls = frustrated(src.parts(), src.count());
    let mut out: Vec<(usize, usize)> = Vec::new();
    let mut a: usize = 0;
    while a < vars.len()
        invariant
            a <= vars@.len(),
            src.small(),
            sets::ascending(vars@),
            cls == frustrated(src.parts(), src.count()),
            out@ == pair_scan(vars@, cls, a as nat),
        decreases vars@.len() - a,
    {
        let i: usize = vars[a];
        let mut b: usize = a + 1;
        assert(out@ =~= out@ + pair_row(vars@, cls, a as int, b as int));
        while b < vars.len()
            invariant
                a < b <= vars@.len(),
                i == vars@[a as int],
                src.small(),
                sets::ascending(vars@),
                cls == frustrated(src.parts(), src.count()),
                out@ == pair_scan(vars@, cls, a as nat) + pair_row(
                    vars@,
                    cls,
                    a as int,
                    b as int,
                ),
            decreases vars@.len() - b,
        {
            let j: usize = vars[b];
            assert(vars@[a as int] < vars@[b as int]);
            let bounds = src.bounds(i, j);
            if bounds.has_a && !bounds.has_b && !bounds.has_c && bounds.a_min < 0 && bounds.a_max
                > 0 {
                out.push((i, j));
            }
            b += 1;
            assert(out@ =~= pair_scan(vars@, cls, a as nat) + pair_row(
                vars@,
                cls,
                a as int,
                b as int,
            ));
        }
        a += 1;
    }
    out
}

/// The pairs of an instance that occur only together and prefer a sign: with
/// `(i, j, alpha)`, `s_j = alpha * s_i`.
pub fn detect_uncoupled_pairs<V: VarDomain>(instance: &HuboInstance<V>) -> (r: Vec<
    (usize, usize, i64),
>)
    requires
        instance.fits(),
    ensures
        V::tag() == VarType::Bin ==> r@.len() == 0,
        V::tag() == VarType::Spin ==> r@ == greedy_pairs(
            all_vars(instance.n() as nat),
            uncoupled_sign(whole_items(instance.terms@), instance.terms@.len()),
            instance.n() as nat,
        ),
{
    match V::var_type() {
        VarType::Bin => Vec::new(),
        VarType::Spin => {
            let n: usize = instance.n_vars();
            let vars = list_all(n);
            match_pairs(&WholeTerms { instance }, vars.as_slice(), n)
        },
    }
}

/// The pairs of what is left that occur only together and prefer a sign.
pub fn detect_uncoupled_pairs_active<V: VarDomain>(
    instance: &HuboInstance<V>,
    term_status: &[Option<PartiallyAssignedTerm>],
    current_fixes: &Fixes,
) -> (r: Vec<(usize, usize, i64)>)
    requires
        2 * node::status_abs(term_status@) <= i64::MAX,
        current_fixes.wf(),
        current_fixes@.len() == instance.n(),
    ensures
        V::tag() == VarType::Bin ==> r@.len() == 0,
        V::tag() == VarType::Spin ==> r@ == greedy_pairs(
            fixes::free_vars(current_fixes@),
            uncoupled_sign(active_items(term_status@), term_status@.len()),
            fixes::free_vars(current_fixes@).len(),
        ),
{
    match V::var_type() {
        VarType::Bin => Vec::new(),
        VarType::Spin => {
            let n: usize = instance.n_vars();
            let vars = current_fixes.iter_unassigned();
            proof {
                fixes::lemma_free_vars(current_fixes@);
            }
            match_pairs(&ActiveTerms { status: term_status }, vars.as_slice(), n)
        },
    }
}

/// The pairs of an instance one member of which follows the other.
pub fn detect_conditionally_coupled_pairs<V: VarDomain>(instance: &HuboInstance<V>) -> (r: Vec<
    ConditionalCoupling,
>)
    requires
        instance.fits(),
    ensures
        V::tag() == VarType::Bin ==> r@.len() == 0,
        V::tag() == VarType::Spin ==> r@ == pair_scan(
            all_vars(instance.n() as nat),
            one_sided_coupling(whole_items(instance.terms@), instance.terms@.len()),
            instance.n() as nat,
        ),
{
    match V::var_type() {
        VarType::Bin => Vec::new(),
        VarType::Spin => {
            let n: usize = instance.n_vars();
            let vars = list_all(n);
            scan_conditional(&WholeTerms { instance }, vars.as_slice())
        },
    }
}

/// The pairs of what is left one member of which follows the other.
pub fn detect_conditionally_coupled_pairs_active<V: VarDomain>(
    instance: &HuboInstance<V>,
    term_status: &[Option<PartiallyAssignedTerm>],
    current_fixes: &Fixes,
) -> (r: Vec<ConditionalCoupling>)
    requires
        2 * node::status_abs(term_status@) <= i64::MAX,
        current_fixes.wf(),
        current_fixes@.len() == instance.n(),
    ensures
        V::tag() == VarType::Bin ==> r@.len() == 0,
        V::tag() == VarType::Spin ==> r@ == pair_scan(
            fixes::free_vars(current_fixes@),
            one_sided_coupling(active_items(term_status@), term_status@.len()),
            fixes::free_vars(current_fixes@).len(),
        ),
{
    match V::var_type() {
        VarType::Bin => Vec::new(),
        VarType::Spin => {
            let n: usize = instance.n_vars();
            let vars = current_fixes.iter_unassigned();
            proof {
                fixes::lemma_free_vars(current_fixes@);
            }
            scan_conditional(&ActiveTerms { status: term_status }, vars.as_slice())
        },
    }
}

/// The pairs of an instance that occur only together and whose preferred sign
/// depends on the other variables.
pub fn detect_frustrated_pairs<V: VarDomain>(instance: &HuboInstance<V>) -> (r: Vec<
    (usize, usize),
>)
    requires
        instance.fits(),
    ensures
        V::tag() == VarType::Bin ==> r@.len() == 0,
        V::tag() == VarType::Spin ==> r@ == pair_scan(
            all_vars(instance.n() as nat),
            frustrated(whole_items(instance.terms@), instance.terms@.len()),
            instance.n() as nat,
        ),
{
    match V::var_type() {
        VarType::Bin => Vec::new(),
        VarType::Spin => {
            let n: usize = instance.n_vars();
            let vars = list_all(n);
            scan_frustrated(&WholeTerms { instance }, vars.as_slice())
        },
    }
}

/// The pairs of what is left that occur only together and whose preferred sign
/// depends on the other variables.
pub fn detect_frustrated_pairs_active<V: VarDomain>(
    instance: &HuboInstance<V>,
    term_status: &[Option<PartiallyAssignedTerm>],
    current_fixes: &Fixes,
) -> (r: Vec<(usize, usize)>)
    requires
        2 * node::status_abs(term_status@) <= i64::MAX,
        current_fixes.wf(),
        current_fixes@.len() == instance.n(),
    ensures
        V::tag() == VarType::Bin ==> r@.len() == 0,
        V::tag() == VarType::Spin ==> r@ == pair_scan(
            fixes::free_vars(current_fixes@),
            frustrated(active_items(term_status@), term_status@.len()),
            fixes::free_vars(current_fixes@).len(),
        ),
{
    match V::var_type() {
        VarType::Bin => Vec::new(),
        VarType::Spin => {
            let n: usize = instance.n_vars();
            let vars = current_fixes.iter_unassigned();
            proof {
                fixes::lemma_free_vars(current_fixes@);
            }
            scan_frustrated(&ActiveTerms { status: term_status }, vars.as_slice())
        },
    }
}

/// Each pair's first member at one and its second at the preferred sign.
pub open spec fn pair_values(pairs: Seq<(usize, usize, i64)>) -> Seq<(usize, i64)>
    decreases pairs.len(),
{
    if pairs.len() == 0 {
        Seq::empty()
    } else {
        pair_values(pairs.drop_last()).push((pairs.last().0, 1i64)).push(
            (pairs.last().1, pairs.last().2),
        )
    }
}

/// The fixes that substitute the pairs.
pub fn coupling_fixes(pairs: &[(usize, usize, i64)]) -> (r: Vec<(usize, i64)>)
    ensures
        r@ == pair_values(pairs@),
{
    let mut fixes: Vec<(usize, i64)> = Vec::new();
    let mut q: usize = 0;
    assert(pairs@.take(0) =~= Seq::empty());
    while q < pairs.len()
        invariant
            q <= pairs@.len(),
            fixes@ == pair_values(pairs@.take(q as int)),
        decreases pairs@.len() - q,
    {
        let (i, j, alpha) = pairs[q];
        assert(pairs@.take(q + 1).drop_last() =~= pairs@.take(q as int));
        fixes.push((i, 1));
        fixes.push((j, alpha));
        q += 1;
    }
    assert(pairs@.take(q as int) =~= pairs@);
    fixes
}

} // verus!
