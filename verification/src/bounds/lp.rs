//! The linear relaxation of a node, whose columns are the same at all nodes.

use crate::active::ActiveTerms;
use crate::active;
use crate::bounds::product_lp::{ProductLp, Step};
use crate::bounds::product_lp;
use crate::domain::{VarDomain, VarType};
use crate::fixes::Fixes;
use crate::fixes;
use crate::instance::HuboInstance;
use crate::lasserre;
use crate::lists;
use crate::node::{Node, PartiallyAssignedTerm};
use crate::node;
use crate::restriction;
use crate::term::Term;
use crate::term;
use vstd::prelude::*;

verus! {

/// A simplex basis: the status of every column and row.
#[derive(Debug, Clone)]
pub struct LpBasis {
    pub cstat: Vec<i32>,
    pub rstat: Vec<i32>,
}

impl LpBasis {
    /// Whether the basis belongs to a program with these numbers of columns and
    /// rows.
    pub fn fits_program(&self, n_cols: usize, n_rows: usize) -> (r: bool)
        ensures
            r == (self.cstat@.len() == n_cols && self.rstat@.len() == n_rows),
    {
        self.cstat.len() == n_cols && self.rstat.len() == n_rows
    }
}

/// Parameters of the linear relaxation.
#[derive(Debug, Clone)]
pub struct LpConfig {
    /// With more columns the termwise bound is taken.
    pub max_cols: usize,
}

impl Default for LpConfig {
    fn default() -> (r: Self)
        ensures
            r.max_cols == 500,
    {
        LpConfig { max_cols: 500 }
    }
}

/// The bound by the linear relaxation.
#[derive(Debug, Clone)]
pub struct LpBound(pub LpConfig);

impl Default for LpBound {
    fn default() -> (r: Self)
        ensures
            r.0.max_cols == 500,
    {
        LpBound(LpConfig::default())
    }
}

/// `p` is a beginning, of at least two variables, of one of the first `k` terms.
pub open spec fn is_prefix_of(terms: Seq<Term>, k: int, p: Seq<usize>) -> bool {
    exists|i: int|
        0 <= i < k && 2 <= p.len() <= terms[i].indices@.len() && p == (
        #[trigger] terms[i]).indices@.take(p.len() as int)
}

/// The beginnings of the terms, shorter ones first.
pub open spec fn are_prefixes(terms: Seq<Term>, prefixes: Seq<Vec<usize>>) -> bool {
    &&& lists::in_list_order(true, prefixes)
    &&& forall|p: Seq<usize>| #[trigger]
        lists::has_list(prefixes, p) == is_prefix_of(terms, terms.len() as int, p)
}

/// The product that the steps of a chain end with: its beginning times its last
/// variable.
pub open spec fn is_chain_step(n: int, prefixes: Seq<Vec<usize>>, i: int, s: Step) -> bool {
    let list = prefixes[i]@;
    &&& s.w == n + i
    &&& s.b == list.last()
    &&& s.a < n + prefixes.len()
    &&& product_lp::column_list(n, prefixes, s.a as int) == list.drop_last()
}

/// All beginnings of the terms.
pub fn prefixes_of(terms: &Vec<Term>) -> (r: Vec<Vec<usize>>)
    ensures
        are_prefixes(terms@, r@),
{
    let mut prefixes: Vec<Vec<usize>> = Vec::new();
    let mut i: usize = 0;
    while i < terms.len()
        invariant
            i <= terms@.len(),
            lists::in_list_order(true, prefixes@),
            forall|p: Seq<usize>| #[trigger]
                lists::has_list(prefixes@, p) == is_prefix_of(terms@, i as int, p),
        decreases terms@.len() - i,
    {
        let ghost before = prefixes@;
        let len: usize = terms[i].indices.len();
        let mut prefix: Vec<usize> = Vec::new();
        let mut k: usize = 0;
        while k < len
            invariant
                i < terms@.len(),
                k <= len,
                len == terms@[i as int].indices@.len(),
                prefix@ == terms@[i as int].indices@.take(k as int),
                lists::in_list_order(true, prefixes@),
                forall|p: Seq<usize>| #[trigger]
                    lists::has_list(prefixes@, p) == (lists::has_list(before, p) || (2 <= p.len()
                        <= k && p == terms@[i as int].indices@.take(p.len() as int))),
            decreases len - k,
        {
            let ghost inner = prefixes@;
            prefix.push(terms[i].indices[k]);
            k += 1;
            assert(prefix@ =~= terms@[i as int].indices@.take(k as int));
            if k >= 2 {
                lists::add_list(&mut prefixes, lists::copy_list(prefix.as_slice()), true);
            }
            proof {
                assert forall|p: Seq<usize>| #[trigger] lists::has_list(prefixes@, p) == (
                lists::has_list(before, p) || (2 <= p.len() <= k && p
                    == terms@[i as int].indices@.take(p.len() as int))) by {
                    assert(lists::has_list(inner, p) == (lists::has_list(before, p) || (2
                        <= p.len() <= k - 1 && p == terms@[i as int].indices@.take(
                        p.len() as int,
                    ))));
                }
            }
        }
        proof {
            assert forall|p: Seq<usize>| #[trigger] lists::has_list(prefixes@, p) == is_prefix_of(
                terms@,
                i + 1,
                p,
            ) by {
                assert(lists::has_list(before, p) == is_prefix_of(terms@, i as int, p));
                if is_prefix_of(terms@, i + 1, p) {
                    let j = choose|j: int|
                        0 <= j < i + 1 && 2 <= p.len() <= terms@[j].indices@.len() && p == (
                        #[trigger] terms@[j]).indices@.take(p.len() as int);
                    if j < i {
                        assert(is_prefix_of(terms@, i as int, p));
                    }
                }
                if 2 <= p.len() <= len && p == terms@[i as int].indices@.take(p.len() as int) {
                    assert(is_prefix_of(terms@, i + 1, p));
                }
                if is_prefix_of(terms@, i as int, p) {
                    let j = choose|j: int|
                        0 <= j < i && 2 <= p.len() <= terms@[j].indices@.len() && p == (
                        #[trigger] terms@[j]).indices@.take(p.len() as int);
                    assert(is_prefix_of(terms@, i + 1, p));
                }
            }
        }
        i += 1;
    }
    prefixes
}

proof fn lemma_prefix_of_prefix(terms: Seq<Term>, prefixes: Seq<Vec<usize>>, i: int)
    requires
        are_prefixes(terms, prefixes),
        0 <= i < prefixes.len(),
    ensures
        prefixes[i]@.len() >= 2,
        prefixes[i]@.len() > 2 ==> lists::has_list(prefixes, prefixes[i]@.drop_last()),
{
    let p = prefixes[i]@;
    assert(lists::has_list(prefixes, p));
    let j = choose|j: int|
        0 <= j < terms.len() && 2 <= p.len() <= terms[j].indices@.len() && p == (
        #[trigger] terms[j]).indices@.take(p.len() as int);
    let q = p.drop_last();
    if p.len() > 2 {
        assert(q =~= terms[j].indices@.take(q.len() as int));
        assert(is_prefix_of(terms, terms.len() as int, q));
    }
}

/// The steps that build every beginning from the one before.
pub fn chain_steps(n: usize, terms: &Vec<Term>, prefixes: &Vec<Vec<usize>>) -> (r: Vec<Step>)
    requires
        n + prefixes@.len() <= usize::MAX,
        are_prefixes(terms@, prefixes@),
        forall|i: int|
            0 <= i < terms@.len() ==> active::is_tidy_list(
                (#[trigger] terms@[i]).indices@,
                n as nat,
            ),
    ensures
        r@.len() == prefixes@.len(),
        forall|i: int|
            0 <= i < r@.len() ==> is_chain_step(n as int, prefixes@, i, #[trigger] r@[i]),
        forall|i: int|
            0 <= i < r@.len() ==> product_lp::is_step(n as int, prefixes@, #[trigger] r@[i]),
        product_lp::are_products(n as nat, prefixes@),
{
    proof {
        lemma_prefixes_below(n as nat, terms@, prefixes@);
    }
    let mut steps: Vec<Step> = Vec::new();
    let mut i: usize = 0;
    while i < prefixes.len()
        invariant
            i <= prefixes@.len(),
            n + prefixes@.len() <= usize::MAX,
            are_prefixes(terms@, prefixes@),
            product_lp::are_products(n as nat, prefixes@),
            steps@.len() == i,
            forall|j: int|
                0 <= j < i ==> is_chain_step(n as int, prefixes@, j, #[trigger] steps@[j]),
            forall|j: int|
                0 <= j < i ==> product_lp::is_step(n as int, prefixes@, #[trigger] steps@[j]),
        decreases prefixes@.len() - i,
    {
        let ghost list = prefixes@[i as int]@;
        proof {
            lemma_prefix_of_prefix(terms@, prefixes@, i as int);
            assert(term::indices_below(prefixes@[i as int]@, n as int));
        }
        let k: usize = prefixes[i].len();
        let b: usize = prefixes[i][k - 1];
        let a: usize = if k == 2 {
            prefixes[i][0]
        } else {
            let mut rest = lists::copy_list(prefixes[i].as_slice());
            let _ = rest.pop();
            assert(rest@ =~= list.drop_last());
            match lists::find_list(prefixes, &rest) {
                Some(p) => n + p,
                None => 0,
            }
        };
        let s = Step { w: n + i, a, b };
        proof {
            if k == 2 {
                assert(product_lp::column_list(n as int, prefixes@, a as int)
                    =~= list.drop_last());
            }
            assert(is_chain_step(n as int, prefixes@, i as int, s));
            assert(list.remove(k - 1) =~= list.drop_last());
            assert(product_lp::is_split(n as int, prefixes@, s, k - 1));
        }
        steps.push(s);
        i += 1;
    }
    steps
}

pub proof fn lemma_prefixes_below(n: nat, terms: Seq<Term>, prefixes: Seq<Vec<usize>>)
    requires
        are_prefixes(terms, prefixes),
        forall|i: int|
            0 <= i < terms.len() ==> active::is_tidy_list((#[trigger] terms[i]).indices@, n),
    ensures
        product_lp::are_products(n, prefixes),
        product_lp::covers_terms(prefixes, terms),
{
    assert forall|i: int| 0 <= i < prefixes.len() implies (#[trigger] prefixes[i])@.len() >= 2
        && term::indices_below(prefixes[i]@, n as int) by {
        let p = prefixes[i]@;
        assert(lists::has_list(prefixes, p));
        let j = choose|j: int|
            0 <= j < terms.len() && 2 <= p.len() <= terms[j].indices@.len() && p == (
            #[trigger] terms[j]).indices@.take(p.len() as int);
        assert(active::is_tidy_list(terms[j].indices@, n));
        assert forall|k: int| 0 <= k < p.len() implies (#[trigger] p[k]) < n by {
            assert(p[k] == terms[j].indices@[k]);
        }
    }
    assert forall|i: int|
        0 <= i < terms.len() && (#[trigger] terms[i]).indices@.len() >= 2 implies lists::has_list(
        prefixes,
        terms[i].indices@,
    ) by {
        let p = terms[i].indices@;
        assert(p =~= terms[i].indices@.take(p.len() as int));
        assert(is_prefix_of(terms, terms.len() as int, p));
    }
}

/// The products of tidy terms and the steps of their chains; none when there
/// would be too many columns to number.
pub fn build_product_structure(n: usize, terms: &Vec<Term>) -> (r: Option<
    (Vec<Vec<usize>>, Vec<Step>),
>)
    requires
        forall|i: int|
            0 <= i < terms@.len() ==> active::is_tidy_list(
                (#[trigger] terms@[i]).indices@,
                n as nat,
            ),
    ensures
        r matches Some(p) ==> are_prefixes(terms@, p.0@) && p.1@.len() == p.0@.len() && (forall|
            i: int,
        |
            0 <= i < p.1@.len() ==> is_chain_step(n as int, p.0@, i, #[trigger] p.1@[i])),
        r is None ==> exists|p: Seq<Vec<usize>>| #[trigger]
            are_prefixes(terms@, p) && n + p.len() > usize::MAX,
{
    let prefixes = prefixes_of(terms);
    if prefixes.len() > usize::MAX - n {
        return None;
    }
    let steps = chain_steps(n, terms, &prefixes);
    Some((prefixes, steps))
}

/// The least values of the first `k` terms that are left.
pub open spec fn left_floors(
    vt: VarType,
    s: Seq<Option<PartiallyAssignedTerm>>,
    k: nat,
) -> int
    decreases k,
{
    if k == 0 {
        0
    } else {
        left_floors(vt, s, (k - 1) as nat) + (match s[k - 1] {
            Some(p) => lasserre::term_floor(vt, p.coeff as int),
            None => 0,
        })
    }
}

/// The termwise bound of a node.
pub open spec fn trivial_bound<V: VarDomain>(instance: &HuboInstance<V>, node: &Node) -> int {
    instance.offset + node.offset + left_floors(
        V::tag(),
        node.term_status@,
        node.term_status@.len(),
    )
}

proof fn lemma_left_floors(
    vt: VarType,
    s: Seq<Option<PartiallyAssignedTerm>>,
    x: Seq<bool>,
    k: nat,
)
    requires
        k <= s.len(),
    ensures
        left_floors(vt, s, k) <= node::residual(vt, s.take(k as int), x),
        -node::status_abs(s.take(k as int)) <= left_floors(vt, s, k) <= 0,
        node::status_abs(s.take(k as int)) <= node::status_abs(s),
    decreases k,
{
    if k == 0 {
        assert(s.take(0) =~= Seq::empty());
    } else {
        lemma_left_floors(vt, s, x, (k - 1) as nat);
        assert(s.take(k as int).drop_last() =~= s.take(k - 1));
        if let Some(p) = s[k - 1] {
            lasserre::lemma_term_floor(vt, p.free_variables@, p.coeff as int, x);
        }
    }
    lemma_status_abs_prefix(s, k as int);
}

proof fn lemma_status_abs_prefix(s: Seq<Option<PartiallyAssignedTerm>>, k: int)
    requires
        0 <= k <= s.len(),
    ensures
        0 <= node::status_abs(s.take(k)) <= node::status_abs(s),
    decreases s.len(),
{
    if k == s.len() {
        assert(s.take(k) =~= s);
        if k > 0 {
            lemma_status_abs_prefix(s.drop_last(), k - 1);
        }
    } else {
        lemma_status_abs_prefix(s.drop_last(), k);
        assert(s.drop_last().take(k) =~= s.take(k));
    }
}

/// The termwise bound is at most the objective of every completion.
pub proof fn trivial_bound_is_valid<V: VarDomain>(
    instance: &HuboInstance<V>,
    node: &Node,
    x: Seq<bool>,
)
    requires
        instance.wf(),
        node.describes(instance),
        node::extends(x, node.fixed@),
    ensures
        trivial_bound(instance, node) <= instance.objective(x),
{
    let s = node.term_status@;
    lemma_left_floors(V::tag(), s, x, s.len());
    assert(s.take(s.len() as int) =~= s);
    node::node_represents_objective(instance, node, x);
}

/// The termwise bound of a node.
pub fn trivial_lb<V: VarDomain>(instance: &HuboInstance<V>, node: &Node) -> (r: i64)
    requires
        instance.wf(),
        instance.fits(),
        node.describes(instance),
    ensures
        r == trivial_bound(instance, node),
{
    let vt: VarType = V::var_type();
    let ghost s = node.term_status@;
    let ghost x = Seq::<bool>::empty();
    proof {
        crate::bounds::cheap::lemma_bound_size(instance, node);
    }
    let mut lb: i64 = instance.offset + node.offset;
    let mut i: usize = 0;
    while i < node.term_status.len()
        invariant
            i <= s.len(),
            s == node.term_status@,
            vt == V::tag(),
            instance.fits(),
            term::abs(node.offset as int) + node::status_abs(s) <= term::abs_sum(instance.terms@),
            lb == instance.offset + node.offset + left_floors(vt, s, i as nat),
        decreases s.len() - i,
    {
        proof {
            lemma_left_floors(vt, s, x, i as nat);
            lemma_left_floors(vt, s, x, (i + 1) as nat);
            assert(s.take(i + 1).drop_last() =~= s.take(i as int));
            lemma_status_abs_prefix(s, i as int);
        }
        if let Some(status) = &node.term_status[i] {
            lb = lb + lasserre::termwise_min(status.coeff, vt);
        }
        i += 1;
    }
    lb
}

/// The linear relaxation of a node: a bound when it would be too large, else the
/// program and the constant to add to its optimum.
pub enum NodeLp {
    Known(i64),
    Program { offset: i64, lp: ProductLp },
}

/// No variable is fixed.
pub open spec fn nothing_fixed(n: nat) -> Seq<Option<bool>> {
    Seq::new(n, |i: int| None)
}

/// The relaxation of a node over the products of all terms of the instance.
pub open spec fn is_node_lp<V: VarDomain>(
    instance: &HuboInstance<V>,
    node: &Node,
    max_cols: usize,
    r: NodeLp,
) -> bool {
    exists|a: ActiveTerms, prefixes: Seq<Vec<usize>>, steps: Seq<Step>|
        #[trigger] is_node_lp_over(instance, node, max_cols, r, &a, prefixes, steps)
}

/// The relaxation over these products and steps.
pub open spec fn is_node_lp_over<V: VarDomain>(
    instance: &HuboInstance<V>,
    node: &Node,
    max_cols: usize,
    r: NodeLp,
    a: &ActiveTerms,
    prefixes: Seq<Vec<usize>>,
    steps: Seq<Step>,
) -> bool {
    let n = instance.n() as nat;
    &&& active::is_active_part(instance, nothing_fixed(n), a)
    &&& are_prefixes(a.terms@, prefixes)
    &&& if n + prefixes.len() > max_cols {
        r matches NodeLp::Known(b) && b == trivial_bound(instance, node)
    } else {
        &&& steps.len() == prefixes.len()
        &&& forall|i: int|
            0 <= i < steps.len() ==> is_chain_step(n as int, prefixes, i, #[trigger] steps[i])
        &&& r matches NodeLp::Program { offset, lp }
        &&& offset == a.base_offset
        &&& lp.n_vars == n
        &&& lp.products@ == prefixes
        &&& product_lp::is_product_lp(V::tag(), a.terms@, node.fixed@, steps, &lp)
        &&& forall|i: int|
            0 <= i < a.terms@.len() ==> active::is_tidy_list((#[trigger] a.terms@[i]).indices@, n)
    }
}

/// The linear relaxation of a node.
pub fn node_lp<V: VarDomain>(instance: &HuboInstance<V>, node: &Node, cfg: &LpConfig) -> (r: NodeLp)
    requires
        instance.wf(),
        instance.fits(),
        node.describes(instance),
    ensures
        is_node_lp(instance, node, cfg.max_cols, r),
{
    let n: usize = instance.n_vars();
    let none = Fixes::new(n);
    proof {
        assert(none@ =~= nothing_fixed(n as nat));
    }
    let a = active::active_terms(instance, &none);
    proof {
        lemma_nothing_fixed(n as nat, n as nat);
        assert(restriction::fixes_of(none@, n as int) =~= nothing_fixed(n as nat));
        assert(nothing_fixed(n as nat).take(n as int) =~= nothing_fixed(n as nat));
    }
    let prefixes = prefixes_of(&a.terms);
    if n > cfg.max_cols || prefixes.len() > cfg.max_cols - n {
        let r = NodeLp::Known(trivial_lb(instance, node));
        assert(is_node_lp_over(instance, node, cfg.max_cols, r, &a, prefixes@, Seq::empty()));
        return r;
    }
    let steps = chain_steps(n, &a.terms, &prefixes);
    let mut fixed: Vec<Option<bool>> = Vec::new();
    let mut i: usize = 0;
    while i < n
        invariant
            i <= n,
            node.fixed.wf(),
            node.fixed@.len() == n,
            fixed@ == node.fixed@.take(i as int),
        decreases n - i,
    {
        fixed.push(node.fixed.get(i));
        i += 1;
        assert(fixed@ =~= node.fixed@.take(i as int));
    }
    proof {
        assert(fixed@ =~= node.fixed@);
        lemma_prefixes_below(n as nat, a.terms@, prefixes@);
        active::lemma_abs_sum_nonneg(a.terms@);
    }
    let ghost pv = prefixes@;
    let offset: i64 = a.base_offset;
    let lp = product_lp::assemble(V::var_type(), &a.terms, &fixed, prefixes, &steps);
    let r = NodeLp::Program { offset, lp };
    assert(is_node_lp_over(instance, node, cfg.max_cols, r, &a, pv, steps@));
    r
}

/// With nothing fixed, every variable is free and keeps its number.
proof fn lemma_nothing_fixed(n: nat, k: nat)
    requires
        k <= n,
    ensures
        fixes::free_vars(nothing_fixed(n).take(k as int)).len() == k,
    decreases k,
{
    let f = nothing_fixed(n);
    if k > 0 {
        lemma_nothing_fixed(n, (k - 1) as nat);
        assert(f.take(k as int).drop_last() =~= f.take(k - 1));
    }
}

/// Every completion of a node's fixes is a feasible point of the node's linear
/// program whose cost plus the constant is the objective.
pub proof fn node_lp_is_relaxation<V: VarDomain>(
    instance: &HuboInstance<V>,
    node: &Node,
    max_cols: usize,
    offset: i64,
    lp: ProductLp,
    x: Seq<bool>,
)
    requires
        instance.wf(),
        instance.fits(),
        instance.n() <= usize::MAX,
        node.describes(instance),
        is_node_lp(instance, node, max_cols, NodeLp::Program { offset, lp }),
        node::extends(x, node.fixed@),
    ensures
        ({
            let p = product_lp::point_of(V::tag(), lp.n_vars as nat, lp.products@, x);
            &&& forall|c: int|
                0 <= c < p.len() ==> lp.lower@[c] <= #[trigger] p[c] <= lp.upper@[c]
            &&& forall|r: int|
                0 <= r < lp.rows@.len() ==> product_lp::meets(#[trigger] lp.rows@[r], p)
            &&& offset + product_lp::cost_at(lp.cost@, p, p.len()) == instance.objective(x)
        }),
{
    let r = NodeLp::Program { offset, lp };
    let (a, prefixes, steps) = choose|a: ActiveTerms, prefixes: Seq<Vec<usize>>, steps: Seq<Step>|
        #[trigger] is_node_lp_over(instance, node, max_cols, r, &a, prefixes, steps);
    let n = instance.n() as nat;
    let g = nothing_fixed(n);
    product_lp::assignment_is_feasible(V::tag(), a.terms@, node.fixed@, steps, &lp, x);
    active::active_part_keeps_objective(instance, g, &a, x);
    let f = restriction::fixes_of(g, n as int);
    assert(f =~= g);
    assert(restriction::lifted(f, x) =~= x) by {
        assert forall|i: int| 0 <= i < n implies #[trigger] restriction::lifted(f, x)[i] == x[i] by {
            lemma_nothing_fixed(n, i as nat);
        }
    }
}

} // verus!
