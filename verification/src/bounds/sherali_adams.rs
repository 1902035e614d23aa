//! The linear relaxation with products beyond the chains of the terms, and the
//! search for violated product inequalities.

use crate::active::ActiveTerms;
use crate::active;
use crate::bounds::lp;
use crate::bounds::product_lp::Step;
use crate::bounds::product_lp;
use crate::bounds::rlt::LinearBound;
use crate::bounds::rlt;
use crate::domain::{VarDomain, VarType};
use crate::fixes::Fixes;
use crate::instance::HuboInstance;
use crate::lists;
use crate::moments;
use crate::restriction;
use crate::sets;
use crate::term::Term;
use crate::term;
use vstd::prelude::*;

verus! {

/// Parameters of the relaxation.
#[derive(Debug, Clone)]
pub struct SheraliAdamsConfig {
    /// 0: the chains of the terms. 1: also all pairs within a term. 2: also all
    /// triples within a term, and the pairs of two terms that share a variable.
    pub level: usize,
    /// The most rounds of separation.
    pub max_rounds: usize,
    /// With more free variables, and some variable fixed, the termwise bound is
    /// taken.
    pub max_vars: usize,
}

impl Default for SheraliAdamsConfig {
    fn default() -> (r: Self)
        ensures
            r.level == 2,
            r.max_rounds == 100,
            r.max_vars == 200,
    {
        SheraliAdamsConfig { level: 2, max_rounds: 100, max_vars: 200 }
    }
}

/// The bound by the relaxation.
#[derive(Debug, Clone)]
pub struct SheraliAdams(pub SheraliAdamsConfig);

impl Default for SheraliAdams {
    fn default() -> (r: Self)
        ensures
            r.0.level == 2,
            r.0.max_rounds == 100,
            r.0.max_vars == 200,
    {
        SheraliAdams(SheraliAdamsConfig::default())
    }
}

/// An inequality that ties a product to its factors.
#[derive(Debug, Clone, Copy, PartialEq, Eq, Hash, Structural)]
pub enum SaCutKind {
    /// `w <= a` for bits, `w <= 1 + a - b` for spins.
    WLeqA,
    /// `w <= b` for bits, `w <= 1 - a + b` for spins.
    WLeqB,
    /// `w >= a + b - 1`.
    WGeqAplusB,
    /// `w >= -a - b - 1`, for spins.
    WGeqMinusAMinusB,
}

/// The left factor of a product.
#[derive(Debug, Clone)]
pub enum ChainFactor {
    X(usize),
    Prod(Vec<usize>),
}

/// A product as its left factor times a variable.
#[derive(Debug, Clone)]
pub struct ChainStep {
    pub product: Vec<usize>,
    pub left: ChainFactor,
    pub right_x: usize,
}

/// The variables of a factor.
pub open spec fn factor_list(f: ChainFactor) -> Seq<usize> {
    match f {
        ChainFactor::X(i) => seq![i],
        ChainFactor::Prod(p) => p@,
    }
}

/// A step over lists of variables.
pub struct StepView {
    pub product: Seq<usize>,
    pub left: Seq<usize>,
    pub right: usize,
}

/// The lists of a step.
pub open spec fn step_view(s: ChainStep) -> StepView {
    StepView { product: s.product@, left: factor_list(s.left), right: s.right_x }
}

/// A factor of one variable is that variable, one of more a product.
pub open spec fn is_plain(s: ChainStep) -> bool {
    (s.left is X) == (factor_list(s.left).len() == 1)
}

/// The factor of an inequality of one variable is that variable, one of more a
/// product.
pub open spec fn is_plain_cut(v: SaViolation) -> bool {
    (v.left is X) == (factor_list(v.left).len() == 1)
}

/// Every inequality is plain.
pub open spec fn are_plain_cuts(s: Seq<SaViolation>) -> bool {
    forall|i: int| 0 <= i < s.len() ==> is_plain_cut(#[trigger] s[i])
}

/// The lists of steps.
pub open spec fn step_views(s: Seq<ChainStep>) -> Seq<StepView> {
    Seq::new(s.len(), |i: int| step_view(s[i]))
}

/// `p` is a part of `size` variables of one of the first `k` terms.
pub open spec fn is_term_part(terms: Seq<Term>, size: nat, k: int, p: Seq<usize>) -> bool {
    exists|i: int| 0 <= i < k && moments::is_part_of((#[trigger] terms[i]).indices@, size, p)
}

/// `p` is an ascending pair of variables of terms `i` and `j`, which share a
/// variable.
pub open spec fn is_shared_pair(terms: Seq<Term>, i: int, j: int, p: Seq<usize>) -> bool {
    let a = terms[i].indices@;
    let b = terms[j].indices@;
    &&& moments::share_variable(a, b)
    &&& p.len() == 2
    &&& sets::ascending(p)
    &&& forall|k: int| 0 <= k < p.len() ==> a.contains(#[trigger] p[k]) || b.contains(p[k])
}

/// `p` is a pair of two of the first `k` terms that share a variable.
pub open spec fn is_cross_pair(terms: Seq<Term>, k: int, p: Seq<usize>) -> bool {
    exists|i: int, j: int| 0 <= i < j < k && #[trigger] is_shared_pair(terms, i, j, p)
}

/// The products of a level.
pub open spec fn is_chain_product(level: usize, terms: Seq<Term>, p: Seq<usize>) -> bool {
    let k = terms.len() as int;
    ||| lp::is_prefix_of(terms, k, p)
    ||| level >= 1 && is_term_part(terms, 2, k, p)
    ||| level >= 2 && is_term_part(terms, 3, k, p)
    ||| level >= 2 && is_cross_pair(terms, k, p)
}

/// The steps of the product `m` that leave out one of its first `k` variables,
/// where what is left is a product too.
pub open spec fn removal_steps(monos: Seq<Vec<usize>>, m: Seq<usize>, k: nat) -> Seq<StepView>
    decreases k,
{
    if k == 0 {
        Seq::empty()
    } else {
        let before = removal_steps(monos, m, (k - 1) as nat);
        if lists::has_list(monos, m.remove(k - 1)) {
            before.push(StepView { product: m, left: m.remove(k - 1), right: m[k - 1] })
        } else {
            before
        }
    }
}

/// The steps of the first `k` products: one for a pair, for a larger product one
/// for each variable whose removal leaves a product.
pub open spec fn steps_of(monos: Seq<Vec<usize>>, k: nat) -> Seq<StepView>
    decreases k,
{
    if k == 0 {
        Seq::empty()
    } else {
        let m = monos[k - 1]@;
        steps_of(monos, (k - 1) as nat) + (if m.len() == 2 {
            seq![StepView { product: m, left: seq![m[0]], right: m[1] }]
        } else {
            removal_steps(monos, m, m.len())
        })
    }
}

/// Add all parts of a size of all terms.
fn add_parts(terms: &Vec<Term>, size: usize, monos: &mut Vec<Vec<usize>>)
    requires
        lists::in_list_order(true, old(monos)@),
        forall|i: int|
            0 <= i < terms@.len() ==> sets::ascending((#[trigger] terms@[i]).indices@),
    ensures
        lists::in_list_order(true, final(monos)@),
        forall|p: Seq<usize>| #[trigger]
            lists::has_list(final(monos)@, p) == (lists::has_list(old(monos)@, p) || is_term_part(
                terms@,
                size as nat,
                terms@.len() as int,
                p,
            )),
{
    let ghost m0 = monos@;
    let mut i: usize = 0;
    while i < terms.len()
        invariant
            i <= terms@.len(),
            m0 == old(monos)@,
            lists::in_list_order(true, monos@),
            forall|j: int|
                0 <= j < terms@.len() ==> sets::ascending((#[trigger] terms@[j]).indices@),
            forall|p: Seq<usize>| #[trigger]
                lists::has_list(monos@, p) == (lists::has_list(m0, p) || is_term_part(
                    terms@,
                    size as nat,
                    i as int,
                    p,
                )),
        decreases terms@.len() - i,
    {
        let ghost before = monos@;
        assert(sets::ascending(terms@[i as int].indices@));
        moments::subsets_of_size_from_slice(terms[i].indices.as_slice(), size, monos);
        proof {
            assert forall|p: Seq<usize>| #[trigger] lists::has_list(monos@, p) == (
            lists::has_list(m0, p) || is_term_part(terms@, size as nat, i + 1, p)) by {
                assert(lists::has_list(before, p) == (lists::has_list(m0, p) || is_term_part(
                    terms@,
                    size as nat,
                    i as int,
                    p,
                )));
                if moments::is_part_of(terms@[i as int].indices@, size as nat, p) {
                    assert(is_term_part(terms@, size as nat, i + 1, p));
                }
                if is_term_part(terms@, size as nat, i as int, p) {
                    let j = choose|j: int|
                        0 <= j < i && moments::is_part_of(
                            (#[trigger] terms@[j]).indices@,
                            size as nat,
                            p,
                        );
                    assert(is_term_part(terms@, size as nat, i + 1, p));
                }
                if is_term_part(terms@, size as nat, i + 1, p) {
                    let j = choose|j: int|
                        0 <= j < i + 1 && moments::is_part_of(
                            (#[trigger] terms@[j]).indices@,
                            size as nat,
                            p,
                        );
                    if j < i {
                        assert(is_term_part(terms@, size as nat, i as int, p));
                    }
                }
            }
        }
        i += 1;
    }
}

/// Add the pairs of term `j` with every earlier term that shares a variable.
fn add_cross_pairs(terms: &Vec<Term>, j: usize, monos: &mut Vec<Vec<usize>>)
    requires
        j < terms@.len(),
        lists::in_list_order(true, old(monos)@),
        forall|i: int|
            0 <= i < terms@.len() ==> sets::ascending((#[trigger] terms@[i]).indices@),
    ensures
        lists::in_list_order(true, final(monos)@),
        forall|p: Seq<usize>| #[trigger]
            lists::has_list(final(monos)@, p) == (lists::has_list(old(monos)@, p) || exists|i: int|
                0 <= i < j && #[trigger] is_shared_pair(terms@, i, j as int, p)),
{
    let ghost m0 = monos@;
    let mut i: usize = 0;
    while i < j
        invariant
            i <= j < terms@.len(),
            m0 == old(monos)@,
            lists::in_list_order(true, monos@),
            forall|k: int|
                0 <= k < terms@.len() ==> sets::ascending((#[trigger] terms@[k]).indices@),
            forall|p: Seq<usize>| #[trigger]
                lists::has_list(monos@, p) == (lists::has_list(m0, p) || exists|k: int|
                    0 <= k < i && #[trigger] is_shared_pair(terms@, k, j as int, p)),
        decreases j - i,
    {
        let ghost before = monos@;
        assert(sets::ascending(terms@[i as int].indices@));
        assert(sets::ascending(terms@[j as int].indices@));
        let a = terms[i].indices.as_slice();
        let b = terms[j].indices.as_slice();
        let share: bool = moments::terms_share_variable(a, b);
        if share {
            let union = sets::sorted_union(a, b);
            moments::subsets_of_size_from_slice(union.as_slice(), 2, monos);
            proof {
                assert forall|p: Seq<usize>| moments::is_part_of(union@, 2, p) == is_shared_pair(
                    terms@,
                    i as int,
                    j as int,
                    p,
                ) by {
                    assert(forall|v: usize|
                        union@.contains(v) == (a@.contains(v) || b@.contains(v)));
                }
            }
        }
        proof {
            assert forall|p: Seq<usize>| #[trigger] lists::has_list(monos@, p) == (
            lists::has_list(m0, p) || exists|k: int|
                0 <= k < i + 1 && #[trigger] is_shared_pair(terms@, k, j as int, p)) by {
                assert(lists::has_list(before, p) == (lists::has_list(m0, p) || exists|k: int|
                    0 <= k < i && #[trigger] is_shared_pair(terms@, k, j as int, p)));
                let here = is_shared_pair(terms@, i as int, j as int, p);
                assert(lists::has_list(monos@, p) == (lists::has_list(before, p) || here));
            }
        }
        i += 1;
    }
}

/// The products of a level in order, shorter ones first.
pub fn chain_products(level: usize, terms: &Vec<Term>) -> (r: Vec<Vec<usize>>)
    requires
        forall|i: int|
            0 <= i < terms@.len() ==> sets::ascending((#[trigger] terms@[i]).indices@),
    ensures
        lists::in_list_order(true, r@),
        forall|p: Seq<usize>| #[trigger]
            lists::has_list(r@, p) == is_chain_product(level, terms@, p),
{
    let mut monos = lp::prefixes_of(terms);
    if level >= 1 {
        add_parts(terms, 2, &mut monos);
    }
    if level >= 2 {
        add_parts(terms, 3, &mut monos);
        let ghost m0 = monos@;
        let mut j: usize = 0;
        while j < terms.len()
            invariant
                j <= terms@.len(),
                lists::in_list_order(true, monos@),
                forall|k: int|
                    0 <= k < terms@.len() ==> sets::ascending((#[trigger] terms@[k]).indices@),
                forall|p: Seq<usize>| #[trigger]
                    lists::has_list(monos@, p) == (lists::has_list(m0, p) || is_cross_pair(
                        terms@,
                        j as int,
                        p,
                    )),
            decreases terms@.len() - j,
        {
            let ghost before = monos@;
            add_cross_pairs(terms, j, &mut monos);
            proof {
                assert forall|p: Seq<usize>| #[trigger] lists::has_list(monos@, p) == (
                lists::has_list(m0, p) || is_cross_pair(terms@, j + 1, p)) by {
                    assert(lists::has_list(before, p) == (lists::has_list(m0, p) || is_cross_pair(
                        terms@,
                        j as int,
                        p,
                    )));
                    if is_cross_pair(terms@, j + 1, p) {
                        let (i, k) = choose|i: int, k: int|
                            0 <= i < k < j + 1 && #[trigger] is_shared_pair(terms@, i, k, p);
                        if k < j {
                            assert(is_cross_pair(terms@, j as int, p));
                        }
                    }
                    if is_cross_pair(terms@, j as int, p) {
                        let (i, k) = choose|i: int, k: int|
                            0 <= i < k < j && #[trigger] is_shared_pair(terms@, i, k, p);
                        assert(is_cross_pair(terms@, j + 1, p));
                    }
                    if exists|i: int|
                        0 <= i < j && #[trigger] is_shared_pair(terms@, i, j as int, p) {
                        let i = choose|i: int|
                            0 <= i < j && #[trigger] is_shared_pair(terms@, i, j as int, p);
                        assert(is_cross_pair(terms@, j + 1, p));
                    }
                }
            }
            j += 1;
        }
    }
    monos
}

/// The list without its entry `k`.
fn without(m: &Vec<usize>, k: usize) -> (r: Vec<usize>)
    requires
        k < m@.len(),
    ensures
        r@ == m@.remove(k as int),
{
    let mut r = lists::copy_list(m.as_slice());
    let _ = r.remove(k);
    assert(r@ =~= m@.remove(k as int));
    r
}

/// The products of a level, shorter ones first, and the steps that tie them
/// together.
pub fn build_chain(level: usize, terms: &Vec<Term>) -> (r: (Vec<Vec<usize>>, Vec<ChainStep>))
    requires
        forall|i: int|
            0 <= i < terms@.len() ==> sets::ascending((#[trigger] terms@[i]).indices@),
    ensures
        lists::in_list_order(true, r.0@),
        forall|p: Seq<usize>| #[trigger]
            lists::has_list(r.0@, p) == is_chain_product(level, terms@, p),
        step_views(r.1@) == steps_of(r.0@, r.0@.len()),
        forall|i: int| 0 <= i < r.1@.len() ==> is_plain(#[trigger] r.1@[i]),
{
    let monos = chain_products(level, terms);
    let mut steps: Vec<ChainStep> = Vec::new();
    let mut i: usize = 0;
    assert(step_views(steps@) =~= steps_of(monos@, 0));
    while i < monos.len()
        invariant
            i <= monos@.len(),
            forall|p: Seq<usize>| #[trigger]
                lists::has_list(monos@, p) == is_chain_product(level, terms@, p),
            step_views(steps@) == steps_of(monos@, i as nat),
            forall|j: int| 0 <= j < steps@.len() ==> is_plain(#[trigger] steps@[j]),
        decreases monos@.len() - i,
    {
        let ghost m = monos@[i as int]@;
        let ghost before = step_views(steps@);
        proof {
            lemma_product_len(level, terms@, monos@, i as int);
        }
        let len: usize = monos[i].len();
        if len == 2 {
            let product = lists::copy_list(monos[i].as_slice());
            let s = ChainStep {
                product,
                left: ChainFactor::X(monos[i][0]),
                right_x: monos[i][1],
            };
            assert(is_plain(s));
            steps.push(s);
            assert(step_views(steps@) =~= steps_of(monos@, (i + 1) as nat));
        } else {
            let mut k: usize = 0;
            assert(before =~= before + removal_steps(monos@, m, 0));
            while k < len
                invariant
                    i < monos@.len(),
                    k <= len,
                    len == m.len(),
                    len > 2,
                    m == monos@[i as int]@,
                    step_views(steps@) == before + removal_steps(monos@, m, k as nat),
                    forall|j: int| 0 <= j < steps@.len() ==> is_plain(#[trigger] steps@[j]),
                decreases len - k,
            {
                let sub = without(&monos[i], k);
                let ghost inner = step_views(steps@);
                match lists::find_list(&monos, &sub) {
                    Some(q) => {
                        assert(lists::has_list(monos@, m.remove(k as int)));
                        let product = lists::copy_list(monos[i].as_slice());
                        let right_x: usize = monos[i][k];
                        let s = ChainStep { product, left: ChainFactor::Prod(sub), right_x };
                        assert(is_plain(s));
                        steps.push(s);
                        assert(step_views(steps@) =~= inner.push(step_view(s)));
                        assert(step_views(steps@) =~= before + removal_steps(
                            monos@,
                            m,
                            (k + 1) as nat,
                        ));
                    },
                    None => {},
                }
                k += 1;
            }
        }
        i += 1;
    }
    (monos, steps)
}

proof fn lemma_product_len(level: usize, terms: Seq<Term>, monos: Seq<Vec<usize>>, i: int)
    requires
        0 <= i < monos.len(),
        forall|p: Seq<usize>| #[trigger]
            lists::has_list(monos, p) == is_chain_product(level, terms, p),
    ensures
        monos[i]@.len() >= 2,
{
    let p = monos[i]@;
    assert(lists::has_list(monos, p));
    assert(is_chain_product(level, terms, p));
}

/// A step takes one variable out of a product and leaves a column.
spec fn is_good_step(n: nat, monos: Seq<Vec<usize>>, s: StepView) -> bool {
    &&& lists::has_list(monos, s.product)
    &&& exists|k: int| 0 <= k < s.product.len() && is_removal(s, k)
    &&& s.left.len() > 1 ==> lists::has_list(monos, s.left)
    &&& s.left.len() >= 1
}

/// Variable `k` of the product is the right factor.
spec fn is_removal(s: StepView, k: int) -> bool {
    s.product[k] == s.right && s.left == s.product.remove(k)
}

proof fn lemma_removal_good(n: nat, monos: Seq<Vec<usize>>, i: int, k: nat)
    requires
        0 <= i < monos.len(),
        k <= monos[i]@.len(),
        monos[i]@.len() > 2,
    ensures
        forall|j: int|
            0 <= j < removal_steps(monos, monos[i]@, k).len() ==> is_good_step(
                n,
                monos,
                #[trigger] removal_steps(monos, monos[i]@, k)[j],
            ),
    decreases k,
{
    let m = monos[i]@;
    if k > 0 {
        lemma_removal_good(n, monos, i, (k - 1) as nat);
        let s = StepView { product: m, left: m.remove(k - 1), right: m[k - 1] };
        assert(is_removal(s, k - 1));
        assert(lists::has_list(monos, m));
        if lists::has_list(monos, m.remove(k - 1)) {
            assert(is_good_step(n, monos, s));
        }
        let before = removal_steps(monos, m, (k - 1) as nat);
        let all = removal_steps(monos, m, k);
        assert forall|j: int| 0 <= j < all.len() implies is_good_step(
            n,
            monos,
            #[trigger] all[j],
        ) by {
            if j < before.len() {
                assert(all[j] == before[j]);
            } else {
                assert(all[j] == s);
            }
        }
    }
}

proof fn lemma_steps_good(n: nat, monos: Seq<Vec<usize>>, k: nat)
    requires
        k <= monos.len(),
        product_lp::are_products(n, monos),
    ensures
        forall|j: int|
            0 <= j < steps_of(monos, k).len() ==> is_good_step(
                n,
                monos,
                #[trigger] steps_of(monos, k)[j],
            ),
    decreases k,
{
    if k > 0 {
        lemma_steps_good(n, monos, (k - 1) as nat);
        let m = monos[k - 1]@;
        let before = steps_of(monos, (k - 1) as nat);
        assert(m.len() >= 2);
        let after = if m.len() == 2 {
            seq![StepView { product: m, left: seq![m[0]], right: m[1] }]
        } else {
            removal_steps(monos, m, m.len())
        };
        if m.len() == 2 {
            let s = StepView { product: m, left: seq![m[0]], right: m[1] };
            assert(m.remove(1) =~= seq![m[0]]);
            assert(is_removal(s, 1));
            assert(lists::has_list(monos, m));
            assert(is_good_step(n, monos, s));
        } else {
            lemma_removal_good(n, monos, k - 1, m.len());
        }
        assert forall|j: int| 0 <= j < steps_of(monos, k).len() implies is_good_step(
            n,
            monos,
            #[trigger] steps_of(monos, k)[j],
        ) by {
            if j < before.len() {
                assert(steps_of(monos, k)[j] == before[j]);
            } else {
                assert(steps_of(monos, k)[j] == after[j - before.len()]);
            }
        }
    }
}

proof fn lemma_products_below(n: nat, level: usize, terms: Seq<Term>, monos: Seq<Vec<usize>>)
    requires
        lists::in_list_order(true, monos),
        forall|p: Seq<usize>| #[trigger]
            lists::has_list(monos, p) == is_chain_product(level, terms, p),
        forall|i: int|
            0 <= i < terms.len() ==> active::is_tidy_list((#[trigger] terms[i]).indices@, n),
    ensures
        product_lp::are_products(n, monos),
        product_lp::covers_terms(monos, terms),
{
    assert forall|i: int| 0 <= i < monos.len() implies (#[trigger] monos[i])@.len() >= 2
        && term::indices_below(monos[i]@, n as int) by {
        lemma_product_len(level, terms, monos, i);
        let p = monos[i]@;
        assert(lists::has_list(monos, p));
        assert forall|k: int| 0 <= k < p.len() implies (#[trigger] p[k]) < n by {
            lemma_product_var(n, level, terms, p, k);
        }
    }
    assert forall|i: int|
        0 <= i < terms.len() && (#[trigger] terms[i]).indices@.len() >= 2 implies lists::has_list(
        monos,
        terms[i].indices@,
    ) by {
        let p = terms[i].indices@;
        assert(p =~= terms[i].indices@.take(p.len() as int));
        assert(lp::is_prefix_of(terms, terms.len() as int, p));
        assert(is_chain_product(level, terms, p));
    }
}

proof fn lemma_var_of_term(n: nat, terms: Seq<Term>, i: int, v: usize)
    requires
        0 <= i < terms.len(),
        active::is_tidy_list(terms[i].indices@, n),
        terms[i].indices@.contains(v),
    ensures
        v < n,
{
    let l = terms[i].indices@;
    let q = choose|q: int| 0 <= q < l.len() && l[q] == v;
    assert(l[q] < n);
}

proof fn lemma_product_var(n: nat, level: usize, terms: Seq<Term>, p: Seq<usize>, k: int)
    requires
        is_chain_product(level, terms, p),
        0 <= k < p.len(),
        forall|i: int|
            0 <= i < terms.len() ==> active::is_tidy_list((#[trigger] terms[i]).indices@, n),
    ensures
        p[k] < n,
{
    let t = terms.len() as int;
    if lp::is_prefix_of(terms, t, p) {
        let i = choose|i: int|
            0 <= i < t && 2 <= p.len() <= terms[i].indices@.len() && p == (
            #[trigger] terms[i]).indices@.take(p.len() as int);
        assert(p[k] == terms[i].indices@[k]);
        assert(active::is_tidy_list(terms[i].indices@, n));
    } else if is_term_part(terms, 2, t, p) {
        let i = choose|i: int|
            0 <= i < t && moments::is_part_of((#[trigger] terms[i]).indices@, 2, p);
        assert(terms[i].indices@.contains(p[k]));
        lemma_var_of_term(n, terms, i, p[k]);
    } else if is_term_part(terms, 3, t, p) {
        let i = choose|i: int|
            0 <= i < t && moments::is_part_of((#[trigger] terms[i]).indices@, 3, p);
        assert(terms[i].indices@.contains(p[k]));
        lemma_var_of_term(n, terms, i, p[k]);
    } else {
        let (i, j) = choose|i: int, j: int|
            0 <= i < j < t && #[trigger] is_shared_pair(terms, i, j, p);
        if terms[i].indices@.contains(p[k]) {
            lemma_var_of_term(n, terms, i, p[k]);
        } else {
            lemma_var_of_term(n, terms, j, p[k]);
        }
    }
}

/// The step in columns.
pub open spec fn is_column_step(n: int, monos: Seq<Vec<usize>>, v: StepView, s: Step) -> bool {
    &&& product_lp::column_list(n, monos, s.w as int) == v.product
    &&& product_lp::column_list(n, monos, s.a as int) == v.left
    &&& s.b == v.right
}

/// The steps in columns.
fn column_steps(
    n: usize,
    monos: &Vec<Vec<usize>>,
    chain: &Vec<ChainStep>,
) -> (r: Vec<Step>)
    requires
        n + monos@.len() <= usize::MAX,
        product_lp::are_products(n as nat, monos@),
        step_views(chain@) == steps_of(monos@, monos@.len()),
        forall|i: int| 0 <= i < chain@.len() ==> is_plain(#[trigger] chain@[i]),
    ensures
        r@.len() == chain@.len(),
        forall|i: int|
            0 <= i < r@.len() ==> is_column_step(
                n as int,
                monos@,
                step_view(chain@[i]),
                #[trigger] r@[i],
            ),
        forall|i: int|
            0 <= i < r@.len() ==> product_lp::is_step(n as int, monos@, #[trigger] r@[i]),
{
    let mut steps: Vec<Step> = Vec::new();
    let mut i: usize = 0;
    proof {
        lemma_steps_good(n as nat, monos@, monos@.len());
    }
    while i < chain.len()
        invariant
            i <= chain@.len(),
            n + monos@.len() <= usize::MAX,
            product_lp::are_products(n as nat, monos@),
            step_views(chain@) == steps_of(monos@, monos@.len()),
            forall|j: int| 0 <= j < chain@.len() ==> is_plain(#[trigger] chain@[j]),
            forall|j: int|
                0 <= j < steps_of(monos@, monos@.len()).len() ==> is_good_step(
                    n as nat,
                    monos@,
                    #[trigger] steps_of(monos@, monos@.len())[j],
                ),
            steps@.len() == i,
            forall|j: int|
                0 <= j < i ==> is_column_step(
                    n as int,
                    monos@,
                    step_view(chain@[j]),
                    #[trigger] steps@[j],
                ),
            forall|j: int|
                0 <= j < i ==> product_lp::is_step(n as int, monos@, #[trigger] steps@[j]),
        decreases chain@.len() - i,
    {
        let ghost v = step_view(chain@[i as int]);
        proof {
            assert(step_views(chain@)[i as int] == v);
            assert(is_good_step(n as nat, monos@, steps_of(monos@, monos@.len())[i as int]));
            assert(is_plain(chain@[i as int]));
        }
        let w: usize = match lists::find_list(monos, &chain[i].product) {
            Some(q) => n + q,
            None => 0,
        };
        let a: usize = match &chain[i].left {
            ChainFactor::X(x) => *x,
            ChainFactor::Prod(p) => match lists::find_list(monos, p) {
                Some(q) => n + q,
                None => 0,
            },
        };
        let s = Step { w, a, b: chain[i].right_x };
        proof {
            let k = choose|k: int| 0 <= k < v.product.len() && is_removal(v, k);
            let list = product_lp::column_list(n as int, monos@, w as int);
            assert(list == v.product);
            assert(term::indices_below(monos@[w - n]@, n as int));
            assert(list[k] < n);
            if v.left.len() == 1 {
                assert(v.left[0] == v.product.remove(k)[0]);
                let z: int = if k == 0 {
                    1
                } else {
                    0
                };
                assert(v.product.remove(k)[0] == v.product[z]);
                assert(list[z] < n);
                assert(product_lp::column_list(n as int, monos@, a as int) =~= v.left);
            }
            assert(product_lp::is_split(n as int, monos@, s, k));
        }
        steps.push(s);
        i += 1;
    }
    steps
}

/// The relaxation of an instance under fixes over the products of a level.
pub open spec fn is_sa_bound<V: VarDomain>(
    instance: &HuboInstance<V>,
    g: Seq<Option<bool>>,
    cfg: SheraliAdamsConfig,
    r: LinearBound,
) -> bool {
    exists|a: ActiveTerms, monos: Seq<Vec<usize>>, steps: Seq<Step>|
        #[trigger] is_sa_over(instance, g, cfg, r, &a, monos, steps)
}

/// The program is not set up: below the root there are too many free variables,
/// or there are too many columns to number.
pub open spec fn is_too_large(n_free: nat, n_vars: nat, n_products: nat, cfg: SheraliAdamsConfig) -> bool {
    ||| n_free != n_vars && n_free > cfg.max_vars
    ||| n_free + n_products > usize::MAX
}

/// The relaxation over these products and steps.
pub open spec fn is_sa_over<V: VarDomain>(
    instance: &HuboInstance<V>,
    g: Seq<Option<bool>>,
    cfg: SheraliAdamsConfig,
    r: LinearBound,
    a: &ActiveTerms,
    monos: Seq<Vec<usize>>,
    steps: Seq<Step>,
) -> bool {
    let n = a.free_globals@.len();
    &&& active::is_active_part(instance, g, a)
    &&& active::is_tidy(a.base_offset, a.terms@, n)
    &&& lists::in_list_order(true, monos)
    &&& forall|p: Seq<usize>| #[trigger]
        lists::has_list(monos, p) == is_chain_product(cfg.level, a.terms@, p)
    &&& rlt::is_linear_bound(
        V::tag(),
        a,
        is_too_large(n, instance.n() as nat, monos.len(), cfg),
        steps,
        r,
    )
    &&& r matches LinearBound::Program { offset, fallback, lp } ==> {
        let views = steps_of(monos, monos.len());
        &&& lp.products@ == monos
        &&& steps.len() == views.len()
        &&& forall|i: int|
            0 <= i < steps.len() ==> is_column_step(n as int, monos, views[i], #[trigger] steps[i])
    }
}

/// The relaxation of an instance under fixes.
pub fn sa_relaxation<V: VarDomain>(
    instance: &HuboInstance<V>,
    fixes: &Fixes,
    cfg: &SheraliAdamsConfig,
) -> (r: LinearBound)
    requires
        instance.wf(),
        instance.fits(),
        fixes.wf(),
    ensures
        is_sa_bound(instance, fixes@, *cfg, r),
{
    let vt: VarType = V::var_type();
    let a = active::active_terms(instance, fixes);
    let n: usize = a.free_globals.len();
    proof {
        assert forall|i: int| 0 <= i < a.terms@.len() implies sets::ascending(
            (#[trigger] a.terms@[i]).indices@,
        ) by {
            assert(active::is_tidy_list(a.terms@[i].indices@, n as nat));
        }
    }
    let (monos, chain) = build_chain(cfg.level, &a.terms);
    if a.terms.len() == 0 {
        let r = LinearBound::Known(a.base_offset);
        assert(is_sa_over(instance, fixes@, *cfg, r, &a, monos@, Seq::empty()));
        return r;
    }
    let fallback: i64 = rlt::termwise_bound(vt, &a);
    let is_root: bool = n == instance.n_vars();
    if (!is_root && n > cfg.max_vars) || monos.len() > usize::MAX - n {
        let r = LinearBound::Known(fallback);
        assert(is_sa_over(instance, fixes@, *cfg, r, &a, monos@, Seq::empty()));
        return r;
    }
    proof {
        lemma_products_below(n as nat, cfg.level, a.terms@, monos@);
        active::lemma_abs_sum_nonneg(a.terms@);
    }
    let steps = column_steps(n, &monos, &chain);
    let fixed = rlt::all_free(n);
    let ghost mv = monos@;
    let offset: i64 = a.base_offset;
    let lp = product_lp::assemble(vt, &a.terms, &fixed, monos, &steps);
    let r = LinearBound::Program { offset, fallback, lp };
    proof {
        assert(step_views(chain@).len() == chain@.len());
        assert forall|i: int| 0 <= i < steps@.len() implies is_column_step(
            n as int,
            mv,
            steps_of(mv, mv.len())[i],
            #[trigger] steps@[i],
        ) by {
            assert(step_views(chain@)[i] == step_view(chain@[i]));
        }
        assert(is_sa_over(instance, fixes@, *cfg, r, &a, mv, steps@));
    }
    r
}

/// The relaxation bounds the objective of every extension by the fixes.
pub proof fn sa_is_relaxation<V: VarDomain>(
    instance: &HuboInstance<V>,
    g: Seq<Option<bool>>,
    cfg: SheraliAdamsConfig,
    r: LinearBound,
    y: Seq<bool>,
)
    requires
        instance.wf(),
        instance.fits(),
        instance.n() <= usize::MAX,
        is_sa_bound(instance, g, cfg, r),
        y.len() == crate::fixes::free_vars(
            restriction::fixes_of(g, instance.n() as int),
        ).len(),
    ensures
        rlt::relaxes(
            instance,
            r,
            y,
            instance.objective(
                restriction::lifted(restriction::fixes_of(g, instance.n() as int), y),
            ),
        ),
{
    let (a, monos, steps) = choose|a: ActiveTerms, monos: Seq<Vec<usize>>, steps: Seq<Step>|
        #[trigger] is_sa_over(instance, g, cfg, r, &a, monos, steps);
    rlt::linear_bound_relaxes(
        instance,
        g,
        &a,
        is_too_large(a.free_globals@.len(), instance.n() as nat, monos.len(), cfg),
        steps,
        r,
        y,
    );
}

/// A violated inequality of a step. Values and violations are in units of which
/// `unit` make one.
#[derive(Debug)]
pub struct SaViolation {
    pub prefix: Vec<usize>,
    pub left: ChainFactor,
    pub right_x: usize,
    pub cut: SaCutKind,
    pub violation: i128,
}

/// A violated inequality over lists of variables.
pub struct CutView {
    pub step: StepView,
    pub cut: SaCutKind,
    pub excess: int,
}

/// The lists of a violated inequality.
pub open spec fn cut_view(v: SaViolation) -> CutView {
    CutView {
        step: StepView { product: v.prefix@, left: factor_list(v.left), right: v.right_x },
        cut: v.cut,
        excess: v.violation as int,
    }
}

/// By how much the values of a product and its factors violate an inequality;
/// none when the inequality is not one of the domain.
pub open spec fn excess(vt: VarType, cut: SaCutKind, w: int, a: int, b: int, unit: int) -> Option<
    int,
> {
    match (vt, cut) {
        (VarType::Bin, SaCutKind::WLeqA) => Some(w - a),
        (VarType::Bin, SaCutKind::WLeqB) => Some(w - b),
        (VarType::Bin, SaCutKind::WGeqMinusAMinusB) => None,
        (VarType::Spin, SaCutKind::WLeqA) => Some(w - a + b - unit),
        (VarType::Spin, SaCutKind::WLeqB) => Some(w + a - b - unit),
        (VarType::Spin, SaCutKind::WGeqMinusAMinusB) => Some(-a - b - unit - w),
        (_, SaCutKind::WGeqAplusB) => Some(a + b - unit - w),
    }
}

/// The value of a list of variables: of a single variable, or of a product that
/// has one.
pub open spec fn list_value(
    x_vals: Seq<i64>,
    products: Seq<Vec<usize>>,
    prod_vals: Seq<i64>,
    plain: bool,
    s: Seq<usize>,
    v: int,
) -> bool {
    if plain {
        x_vals[s[0] as int] == v
    } else {
        exists|k: int| 0 <= k < products.len() && (#[trigger] products[k])@ == s && prod_vals[k] == v
    }
}

/// `c` is an inequality of step `i` that the values violate by more than `tol`.
pub open spec fn is_violated(
    x_vals: Seq<i64>,
    products: Seq<Vec<usize>>,
    prod_vals: Seq<i64>,
    s: ChainStep,
    vt: VarType,
    unit: i64,
    tol: i64,
    c: CutView,
) -> bool {
    &&& c.step == step_view(s)
    &&& c.excess > tol
    &&& exists|w: int, a: int| #[trigger]
        list_value(x_vals, products, prod_vals, false, s.product@, w) && #[trigger] list_value(
            x_vals,
            products,
            prod_vals,
            s.left is X,
            factor_list(s.left),
            a,
        ) && excess(vt, c.cut, w, a, x_vals[s.right_x as int] as int, unit as int) == Some(
            c.excess,
        )
}

/// The lists of violated inequalities.
pub open spec fn cut_views(s: Seq<SaViolation>) -> Seq<CutView> {
    Seq::new(s.len(), |i: int| cut_view(s[i]))
}

/// A list with one more inequality, behind those violated at least as much.
pub open spec fn with_cut(list: Seq<CutView>, c: CutView) -> Seq<CutView>
    decreases list.len(),
{
    if list.len() == 0 || list.last().excess >= c.excess {
        list.push(c)
    } else {
        with_cut(list.drop_last(), c).push(list.last())
    }
}

/// A list with an inequality of a step, if it is violated by more than `tol`.
pub open spec fn with_violated(
    list: Seq<CutView>,
    step: StepView,
    cut: SaCutKind,
    amount: Option<int>,
    tol: int,
) -> Seq<CutView> {
    match amount {
        Some(excess) if excess > tol => with_cut(list, CutView { step, cut, excess }),
        _ => list,
    }
}

/// A list with the inequalities of a step that are violated by more than `tol`.
pub open spec fn with_step(
    list: Seq<CutView>,
    vt: VarType,
    step: StepView,
    w: int,
    a: int,
    b: int,
    unit: int,
    tol: int,
) -> Seq<CutView> {
    let l1 = with_violated(
        list,
        step,
        SaCutKind::WLeqA,
        excess(vt, SaCutKind::WLeqA, w, a, b, unit),
        tol,
    );
    let l2 = with_violated(
        l1,
        step,
        SaCutKind::WLeqB,
        excess(vt, SaCutKind::WLeqB, w, a, b, unit),
        tol,
    );
    let l3 = with_violated(
        l2,
        step,
        SaCutKind::WGeqAplusB,
        excess(vt, SaCutKind::WGeqAplusB, w, a, b, unit),
        tol,
    );
    with_violated(
        l3,
        step,
        SaCutKind::WGeqMinusAMinusB,
        excess(vt, SaCutKind::WGeqMinusAMinusB, w, a, b, unit),
        tol,
    )
}

/// A list of variables has a value.
pub open spec fn has_value(
    x_vals: Seq<i64>,
    products: Seq<Vec<usize>>,
    prod_vals: Seq<i64>,
    plain: bool,
    s: Seq<usize>,
) -> bool {
    exists|v: int| #[trigger] list_value(x_vals, products, prod_vals, plain, s, v)
}

/// The value that a list of variables has.
pub open spec fn value_of(
    x_vals: Seq<i64>,
    products: Seq<Vec<usize>>,
    prod_vals: Seq<i64>,
    plain: bool,
    s: Seq<usize>,
) -> int {
    choose|v: int| #[trigger] list_value(x_vals, products, prod_vals, plain, s, v)
}

/// The inequalities of the first `k` steps that are violated by more than `tol`,
/// each once, larger violations first and equal ones in the order of the steps.
/// Steps with a product that has no value have none.
pub open spec fn violated_cuts(
    x_vals: Seq<i64>,
    products: Seq<Vec<usize>>,
    prod_vals: Seq<i64>,
    chain: Seq<ChainStep>,
    vt: VarType,
    unit: int,
    tol: int,
    k: nat,
) -> Seq<CutView>
    decreases k,
{
    if k == 0 {
        Seq::empty()
    } else {
        let s = chain[k - 1];
        let list = violated_cuts(
            x_vals,
            products,
            prod_vals,
            chain,
            vt,
            unit,
            tol,
            (k - 1) as nat,
        );
        if has_value(x_vals, products, prod_vals, false, s.product@) && has_value(
            x_vals,
            products,
            prod_vals,
            s.left is X,
            factor_list(s.left),
        ) {
            with_step(
                list,
                vt,
                step_view(s),
                value_of(x_vals, products, prod_vals, false, s.product@),
                value_of(x_vals, products, prod_vals, s.left is X, factor_list(s.left)),
                x_vals[s.right_x as int] as int,
                unit,
                tol,
            )
        } else {
            list
        }
    }
}

/// The place of a new inequality: behind the last that is violated as much.
proof fn lemma_with_cut(list: Seq<CutView>, c: CutView, p: int)
    requires
        0 <= p <= list.len(),
        p > 0 ==> list[p - 1].excess >= c.excess,
        forall|q: int| p <= q < list.len() ==> (#[trigger] list[q]).excess < c.excess,
    ensures
        with_cut(list, c) == list.insert(p, c),
    decreases list.len(),
{
    if p == list.len() {
        assert(list.insert(p, c) =~= list.push(c));
    } else {
        let d = list.drop_last();
        assert(list[list.len() - 1].excess < c.excess);
        assert forall|q: int| p <= q < d.len() implies (#[trigger] d[q]).excess < c.excess by {
            assert(d[q] == list[q]);
        }
        lemma_with_cut(d, c, p);
        assert(list.insert(p, c) =~= d.insert(p, c).push(list.last()));
    }
}

/// Some violated inequality has these lists.
pub open spec fn has_cut(s: Seq<SaViolation>, c: CutView) -> bool {
    exists|i: int| 0 <= i < s.len() && cut_view(#[trigger] s[i]) == c
}

/// Larger violations come first.
pub open spec fn is_descending(s: Seq<SaViolation>) -> bool {
    forall|i: int, j: int|
        0 <= i < j < s.len() ==> (#[trigger] s[i]).violation >= (#[trigger] s[j]).violation
}

/// Insert a violated inequality behind those at least as large.
fn insert_cut(out: &mut Vec<SaViolation>, v: SaViolation)
    requires
        is_descending(old(out)@),
    ensures
        is_descending(final(out)@),
        cut_views(final(out)@) == with_cut(cut_views(old(out)@), cut_view(v)),
        forall|c: CutView| #[trigger]
            has_cut(final(out)@, c) == (has_cut(old(out)@, c) || c == cut_view(v)),
        forall|i: int|
            0 <= i < final(out)@.len() ==> old(out)@.contains(#[trigger] final(out)@[i])
                || final(out)@[i] == v,
{
    let ghost o0 = out@;
    let mut p: usize = out.len();
    while p > 0 && out[p - 1].violation < v.violation
        invariant
            p <= out@.len(),
            out@ == o0,
            is_descending(o0),
            forall|i: int| p <= i < out@.len() ==> (#[trigger] out@[i]).violation < v.violation,
        decreases p,
    {
        p -= 1;
    }
    let ghost vv = v;
    out.insert(p, v);
    proof {
        let o1 = out@;
        assert(o1 =~= o0.insert(p as int, vv));
        let list = cut_views(o0);
        assert forall|q: int| p <= q < list.len() implies (#[trigger] list[q]).excess
            < cut_view(vv).excess by {
            assert(o0[q].violation < vv.violation);
        }
        lemma_with_cut(list, cut_view(vv), p as int);
        assert(cut_views(o1) =~= list.insert(p as int, cut_view(vv)));
        assert forall|i: int, j: int| 0 <= i < j < o1.len() implies (#[trigger] o1[i]).violation
            >= (#[trigger] o1[j]).violation by {
            if i < p && p > 0 {
                assert(o0[i].violation >= o0[p - 1].violation) by {
                    if i < p - 1 {
                        assert(o0[i].violation >= o0[p - 1].violation);
                    }
                }
            }
        }
        assert forall|i: int| 0 <= i < o1.len() implies o0.contains(#[trigger] o1[i]) || o1[i]
            == vv by {
            if i < p {
                assert(o0[i] == o1[i]);
            } else if i > p {
                assert(o0[i - 1] == o1[i]);
            }
        }
        assert forall|c: CutView| #[trigger] has_cut(o1, c) == (has_cut(o0, c) || c
            == cut_view(vv)) by {
            if has_cut(o0, c) {
                let i = choose|i: int| 0 <= i < o0.len() && cut_view(#[trigger] o0[i]) == c;
                if i < p {
                    assert(o1[i] == o0[i]);
                } else {
                    assert(o1[i + 1] == o0[i]);
                }
            }
            if c == cut_view(vv) {
                assert(o1[p as int] == vv);
            }
            if has_cut(o1, c) {
                let i = choose|i: int| 0 <= i < o1.len() && cut_view(#[trigger] o1[i]) == c;
                if i < p {
                    assert(o0[i] == o1[i]);
                } else if i > p {
                    assert(o0[i - 1] == o1[i]);
                }
            }
        }
    }
}

/// A factor with the same variables.
fn copy_factor(f: &ChainFactor) -> (r: ChainFactor)
    ensures
        factor_list(r) == factor_list(*f),
        r is X == *f is X,
{
    match f {
        ChainFactor::X(i) => ChainFactor::X(*i),
        ChainFactor::Prod(p) => ChainFactor::Prod(lists::copy_list(p.as_slice())),
    }
}

/// Add the inequality of a step if the values violate it by more than `tol`.
fn note_cut(out: &mut Vec<SaViolation>, s: &ChainStep, cut: SaCutKind, excess: i128, tol: i64)
    requires
        is_descending(old(out)@),
    ensures
        cut_views(final(out)@) == with_violated(
            cut_views(old(out)@),
            step_view(*s),
            cut,
            Some(excess as int),
            tol as int,
        ),
        is_plain(*s) && are_plain_cuts(old(out)@) ==> are_plain_cuts(final(out)@),
        is_descending(final(out)@),
        forall|c: CutView| #[trigger]
            has_cut(final(out)@, c) == (has_cut(old(out)@, c) || (excess > tol && c == (CutView {
                step: step_view(*s),
                cut,
                excess: excess as int,
            }))),
{
    if excess > tol as i128 {
        let v = SaViolation {
            prefix: lists::copy_list(s.product.as_slice()),
            left: copy_factor(&s.left),
            right_x: s.right_x,
            cut,
            violation: excess,
        };
        proof {
            assert(cut_view(v).step == step_view(*s));
        }
        insert_cut(out, v);
    }
}

/// Add the inequalities of a step that the values violate.
fn sa_violations_for_step(
    out: &mut Vec<SaViolation>,
    var_type: VarType,
    w: i64,
    a: i64,
    b: i64,
    s: &ChainStep,
    unit: i64,
    tol: i64,
)
    requires
        is_descending(old(out)@),
    ensures
        cut_views(final(out)@) == with_step(
            cut_views(old(out)@),
            var_type,
            step_view(*s),
            w as int,
            a as int,
            b as int,
            unit as int,
            tol as int,
        ),
        is_plain(*s) && are_plain_cuts(old(out)@) ==> are_plain_cuts(final(out)@),
        is_descending(final(out)@),
        forall|c: CutView| #[trigger]
            has_cut(final(out)@, c) == (has_cut(old(out)@, c) || (c.step == step_view(*s)
                && c.excess > tol && excess(
                var_type,
                c.cut,
                w as int,
                a as int,
                b as int,
                unit as int,
            ) == Some(c.excess))),
{
    let w: i128 = w as i128;
    let a: i128 = a as i128;
    let b: i128 = b as i128;
    let one: i128 = unit as i128;
    match var_type {
        VarType::Bin => {
            note_cut(out, s, SaCutKind::WLeqA, w - a, tol);
            note_cut(out, s, SaCutKind::WLeqB, w - b, tol);
            note_cut(out, s, SaCutKind::WGeqAplusB, a + b - one - w, tol);
        },
        VarType::Spin => {
            note_cut(out, s, SaCutKind::WLeqA, w - a + b - one, tol);
            note_cut(out, s, SaCutKind::WLeqB, w + a - b - one, tol);
            note_cut(out, s, SaCutKind::WGeqAplusB, a + b - one - w, tol);
            note_cut(out, s, SaCutKind::WGeqMinusAMinusB, -a - b - one - w, tol);
        },
    }
}

/// All inequalities of the steps that the values violate by more than `tol`,
/// larger violations first. Steps with a product that has no value are left out.
pub fn separate_sa_cuts(
    x_vals: &Vec<i64>,
    products: &Vec<Vec<usize>>,
    prod_vals: &Vec<i64>,
    chain: &Vec<ChainStep>,
    var_type: VarType,
    unit: i64,
    tol: i64,
) -> (r: Vec<SaViolation>)
    requires
        products@.len() == prod_vals@.len(),
        lists::in_list_order(true, products@),
        forall|i: int|
            0 <= i < chain@.len() ==> (#[trigger] chain@[i]).right_x < x_vals@.len() && (
            chain@[i].left matches ChainFactor::X(j) ==> j < x_vals@.len()),
    ensures
        cut_views(r@) == violated_cuts(
            x_vals@,
            products@,
            prod_vals@,
            chain@,
            var_type,
            unit as int,
            tol as int,
            chain@.len(),
        ),
        is_descending(r@),
        (forall|i: int| 0 <= i < chain@.len() ==> is_plain(#[trigger] chain@[i]))
            ==> are_plain_cuts(r@),
        forall|c: CutView| #[trigger]
            has_cut(r@, c) == (exists|i: int|
                0 <= i < chain@.len() && is_violated(
                    x_vals@,
                    products@,
                    prod_vals@,
                    #[trigger] chain@[i],
                    var_type,
                    unit,
                    tol,
                    c,
                )),
{
    let mut out: Vec<SaViolation> = Vec::new();
    let mut i: usize = 0;
    assert(cut_views(out@) =~= Seq::empty());
    while i < chain.len()
        invariant
            i <= chain@.len(),
            products@.len() == prod_vals@.len(),
            lists::in_list_order(true, products@),
            forall|j: int|
                0 <= j < chain@.len() ==> (#[trigger] chain@[j]).right_x < x_vals@.len() && (
                chain@[j].left matches ChainFactor::X(k) ==> k < x_vals@.len()),
            cut_views(out@) == violated_cuts(
                x_vals@,
                products@,
                prod_vals@,
                chain@,
                var_type,
                unit as int,
                tol as int,
                i as nat,
            ),
            is_descending(out@),
            (forall|j: int| 0 <= j < chain@.len() ==> is_plain(#[trigger] chain@[j]))
                ==> are_plain_cuts(out@),
            forall|c: CutView| #[trigger]
                has_cut(out@, c) == (exists|j: int|
                    0 <= j < i && is_violated(
                        x_vals@,
                        products@,
                        prod_vals@,
                        #[trigger] chain@[j],
                        var_type,
                        unit,
                        tol,
                        c,
                    )),
        decreases chain@.len() - i,
    {
        let ghost before = out@;
        let s = &chain[i];
        let ghost sv = chain@[i as int];
        let w: Option<i64> = match lists::find_list(products, &s.product) {
            Some(k) => Some(prod_vals[k]),
            None => None,
        };
        let a: Option<i64> = match &s.left {
            ChainFactor::X(j) => Some(x_vals[*j]),
            ChainFactor::Prod(p) => match lists::find_list(products, p) {
                Some(k) => Some(prod_vals[k]),
                None => None,
            },
        };
        let b: i64 = x_vals[s.right_x];
        proof {
            assert forall|v: int|
                #[trigger] list_value(x_vals@, products@, prod_vals@, false, sv.product@, v) == (w == Some(
                    v as i64,
                ) && i64::MIN <= v <= i64::MAX) by {
                lemma_value_unique(products@, prod_vals@, sv.product@, w, v);
            }
            let plain = sv.left is X;
            assert forall|v: int|
                #[trigger] list_value(
                    x_vals@,
                    products@,
                    prod_vals@,
                    plain,
                    factor_list(sv.left),
                    v,
                ) == (a == Some(v as i64) && i64::MIN <= v <= i64::MAX) by {
                if sv.left !is X {
                    lemma_value_unique(products@, prod_vals@, factor_list(sv.left), a, v);
                }
            }
            if let Some(wv) = w {
                assert(list_value(x_vals@, products@, prod_vals@, false, sv.product@, wv as int));
            }
            if let Some(av) = a {
                assert(list_value(
                    x_vals@,
                    products@,
                    prod_vals@,
                    plain,
                    factor_list(sv.left),
                    av as int,
                ));
            }
        }
        if let (Some(wv), Some(av)) = (w, a) {
            sa_violations_for_step(&mut out, var_type, wv, av, b, s, unit, tol);
        }
        proof {
            assert forall|c: CutView| #[trigger] has_cut(out@, c) == (exists|j: int|
                0 <= j < i + 1 && is_violated(
                    x_vals@,
                    products@,
                    prod_vals@,
                    #[trigger] chain@[j],
                    var_type,
                    unit,
                    tol,
                    c,
                )) by {
                let here = is_violated(
                    x_vals@,
                    products@,
                    prod_vals@,
                    chain@[i as int],
                    var_type,
                    unit,
                    tol,
                    c,
                );
                assert(has_cut(out@, c) == (has_cut(before, c) || here));
            }
        }
        i += 1;
    }
    out
}

proof fn lemma_value_unique(
    products: Seq<Vec<usize>>,
    prod_vals: Seq<i64>,
    s: Seq<usize>,
    found: Option<i64>,
    v: int,
)
    requires
        products.len() == prod_vals.len(),
        lists::in_list_order(true, products),
        found matches Some(u) ==> exists|k: int|
            0 <= k < products.len() && (#[trigger] products[k])@ == s && prod_vals[k] == u,
        found is None ==> !lists::has_list(products, s),
    ensures
        list_value(Seq::empty(), products, prod_vals, false, s, v) == (found == Some(v as i64)
            && i64::MIN <= v <= i64::MAX),
{
    if list_value(Seq::empty(), products, prod_vals, false, s, v) {
        let k = choose|k: int|
            0 <= k < products.len() && (#[trigger] products[k])@ == s && prod_vals[k] == v;
        assert(lists::has_list(products, s));
        let u = found->0;
        let l = choose|l: int|
            0 <= l < products.len() && (#[trigger] products[l])@ == s && prod_vals[l] == u;
        if k < l {
            assert(lists::comes_before(true, products[k]@, products[l]@));
            lists::lemma_order_total(true, products[k]@, products[l]@);
        } else if l < k {
            assert(lists::comes_before(true, products[l]@, products[k]@));
            lists::lemma_order_total(true, products[l]@, products[k]@);
        }
    }
}

} // verus!
