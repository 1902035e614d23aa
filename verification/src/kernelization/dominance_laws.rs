//! What dominance fixes, stated on the coefficients that are left.

use crate::domain::{VarDomain, VarType};
use crate::fixes;
use crate::instance::HuboInstance;
use crate::kernelization::dominance;
use crate::kernelization::persistency;
use crate::node::{Node, PartiallyAssignedTerm};
use crate::node;
use crate::sums;
use crate::term::Term;
use vstd::prelude::*;

verus! {

/// The sum of `f` over those of the first `k` terms that are left with `v` among
/// their free variables.
pub open spec fn left_sum(
    s: Seq<Option<PartiallyAssignedTerm>>,
    v: usize,
    f: spec_fn(PartiallyAssignedTerm) -> int,
    k: nat,
) -> int
    decreases k,
{
    if k == 0 {
        0
    } else {
        left_sum(s, v, f, (k - 1) as nat) + (match s[k - 1] {
            Some(p) => if p.free_variables@.contains(v) {
                f(p)
            } else {
                0
            },
            None => 0,
        })
    }
}

/// Some term that is left lists `v`.
pub open spec fn is_left(s: Seq<Option<PartiallyAssignedTerm>>, v: usize) -> bool {
    exists|t: int|
        0 <= t < s.len() && (#[trigger] s[t] matches Some(p) && p.coeff != 0
            && p.free_variables@.contains(v))
}

/// The coefficient of `v` alone.
pub open spec fn alone(s: Seq<Option<PartiallyAssignedTerm>>, v: usize) -> int {
    left_sum(
        s,
        v,
        |p: PartiallyAssignedTerm|
            if p.free_variables@.len() == 1 {
                p.coeff as int
            } else {
                0
            },
        s.len(),
    )
}

/// The sizes of the coefficients of `v` together with other variables.
pub open spec fn shared(s: Seq<Option<PartiallyAssignedTerm>>, v: usize) -> int {
    left_sum(
        s,
        v,
        |p: PartiallyAssignedTerm|
            if p.free_variables@.len() == 1 {
                0
            } else if p.coeff < 0 {
                -p.coeff
            } else {
                p.coeff as int
            },
        s.len(),
    )
}

/// The negative coefficients of `v` together with other variables.
pub open spec fn shared_down(s: Seq<Option<PartiallyAssignedTerm>>, v: usize) -> int {
    left_sum(
        s,
        v,
        |p: PartiallyAssignedTerm|
            if p.free_variables@.len() == 1 || p.coeff > 0 {
                0
            } else {
                p.coeff as int
            },
        s.len(),
    )
}

/// The positive coefficients of `v` together with other variables.
pub open spec fn shared_up(s: Seq<Option<PartiallyAssignedTerm>>, v: usize) -> int {
    left_sum(
        s,
        v,
        |p: PartiallyAssignedTerm|
            if p.free_variables@.len() == 1 || p.coeff < 0 {
                0
            } else {
                p.coeff as int
            },
        s.len(),
    )
}

proof fn lemma_left_sum(
    vt: VarType,
    terms: Seq<Term>,
    g: Seq<Option<bool>>,
    s: Seq<Option<PartiallyAssignedTerm>>,
    v: usize,
    f: spec_fn(PartiallyAssignedTerm) -> int,
    w: spec_fn(int) -> int,
    k: nat,
)
    requires
        k <= s.len(),
        s.len() == terms.len(),
        v < g.len(),
        g[v as int] is None,
        forall|i: int| 0 <= i < s.len() ==> node::status_ok(vt, #[trigger] terms[i], g, s[i]),
        forall|i: int|
            0 <= i < s.len() ==> #[trigger] w(i) == (match s[i] {
                Some(p) => f(p),
                None => 0,
            }),
    ensures
        left_sum(s, v, f, k) == sums::incident_sum(terms, v, w, k),
    decreases k,
{
    if k > 0 {
        lemma_left_sum(vt, terms, g, s, v, f, w, (k - 1) as nat);
        let t = k - 1;
        assert(node::status_ok(vt, terms[t], g, s[t]));
        node::lemma_free_list_subset(terms[t].indices@, g);
        assert(w(t) == (match s[t] {
            Some(p) => f(p),
            None => 0,
        }));
        assert(fixes::fixed_at(g, v as int) is None);
    }
}

/// A decision for a listed variable is made.
pub proof fn lemma_decided_has(
    vars: Seq<usize>,
    d: spec_fn(usize) -> Option<i64>,
    v: usize,
    c: i64,
)
    ensures
        dominance::decided(vars, d).contains((v, c)) == (vars.contains(v) && d(v) == Some(c)),
    decreases vars.len(),
{
    let r = dominance::decided(vars, d);
    if vars.len() > 0 {
        let p = vars.drop_last();
        lemma_decided_has(p, d, v, c);
        let q = dominance::decided(p, d);
        if q.contains((v, c)) {
            let i = choose|i: int| 0 <= i < q.len() && q[i] == (v, c);
            assert(r[i] == (v, c));
            let j = choose|j: int| 0 <= j < p.len() && p[j] == v;
            assert(vars[j] == v);
        }
        if vars.contains(v) && d(v) == Some(c) && !p.contains(v) {
            let j = choose|j: int| 0 <= j < vars.len() && vars[j] == v;
            if j < p.len() {
                assert(p[j] == v);
            }
            assert(r[r.len() - 1] == (v, c));
        }
        if r.contains((v, c)) {
            persistency::lemma_decided(vars, d);
            let i = choose|i: int| 0 <= i < r.len() && r[i] == (v, c);
            assert(vars.contains(r[i].0));
        }
    } else {
        assert(!r.contains((v, c)));
    }
}

/// Dominance fixes a free variable exactly where its own coefficient outweighs all
/// the others that are left with it, and to the value that the coefficient asks
/// for: over spins against its sign where its size is at least that of the others
/// together; over bits low where no choice of the other variables makes the
/// variable pay, high where every choice does.
pub proof fn dominance_fixes_what_outweighs<V: VarDomain>(
    instance: &HuboInstance<V>,
    node: &Node,
    list: Seq<(usize, i64)>,
    v: usize,
)
    requires
        instance.wf(),
        instance.n() <= usize::MAX,
        node.describes(instance),
        list == dominance::decided(
            fixes::free_vars(node.fixed@),
            dominance::dominance_decision(V::tag(), instance.terms@, node.term_status@),
        ),
        v < instance.n(),
        node.fixed@[v as int] is None,
    ensures
        ({
            let s = node.term_status@;
            let own = alone(s, v);
            &&& !is_left(s, v) ==> forall|c: i64| !list.contains((v, c))
            &&& is_left(s, v) && V::tag() == VarType::Spin ==> forall|c: i64| #[trigger]
                list.contains((v, c)) <==> (own > 0 && own >= shared(s, v) && c == -1) || (own < 0
                    && -own >= shared(s, v) && c == 1)
            &&& is_left(s, v) && V::tag() == VarType::Bin ==> forall|c: i64| #[trigger]
                list.contains((v, c)) <==> (if own + shared_down(s, v) >= 0 {
                    c == 0
                } else {
                    own + shared_up(s, v) <= 0 && c == 1
                })
        }),
{
    let s = node.term_status@;
    let terms = instance.terms@;
    let g = node.fixed@;
    let vt = V::tag();
    let d = dominance::dominance_decision(vt, terms, s);
    fixes::lemma_free_vars(g);
    assert(fixes::free_vars(g).contains(v));
    lemma_left_sum(
        vt,
        terms,
        g,
        s,
        v,
        |p: PartiallyAssignedTerm|
            if p.free_variables@.len() == 1 {
                p.coeff as int
            } else {
                0
            },
        dominance::linear_weight(s),
        s.len(),
    );
    lemma_left_sum(
        vt,
        terms,
        g,
        s,
        v,
        |p: PartiallyAssignedTerm|
            if p.free_variables@.len() == 1 {
                0
            } else if p.coeff < 0 {
                -p.coeff
            } else {
                p.coeff as int
            },
        dominance::higher_weight(s),
        s.len(),
    );
    lemma_left_sum(
        vt,
        terms,
        g,
        s,
        v,
        |p: PartiallyAssignedTerm|
            if p.free_variables@.len() == 1 || p.coeff > 0 {
                0
            } else {
                p.coeff as int
            },
        dominance::signed_weight(s, false),
        s.len(),
    );
    lemma_left_sum(
        vt,
        terms,
        g,
        s,
        v,
        |p: PartiallyAssignedTerm|
            if p.free_variables@.len() == 1 || p.coeff < 0 {
                0
            } else {
                p.coeff as int
            },
        dominance::signed_weight(s, true),
        s.len(),
    );
    assert(dominance::occurs(terms, s, v) == is_left(s, v)) by {
        if dominance::occurs(terms, s, v) {
            let t = choose|t: int| #[trigger] dominance::occurs_in(terms, s, v, t);
            assert(node::status_ok(vt, terms[t], g, s[t]));
            node::lemma_free_list_subset(terms[t].indices@, g);
            assert(s[t] is Some);
        }
        if is_left(s, v) {
            let t = choose|t: int|
                0 <= t < s.len() && (#[trigger] s[t] matches Some(p) && p.coeff != 0
                    && p.free_variables@.contains(v));
            assert(node::status_ok(vt, terms[t], g, s[t]));
            node::lemma_free_list_subset(terms[t].indices@, g);
            assert(dominance::occurs_in(terms, s, v, t));
        }
    }
    assert forall|c: i64| #[trigger] list.contains((v, c)) == (d(v) == Some(c)) by {
        lemma_decided_has(fixes::free_vars(g), d, v, c);
    }
}

/// Only free variables are fixed.
pub proof fn dominance_fixes_free_variables<V: VarDomain>(
    instance: &HuboInstance<V>,
    node: &Node,
    list: Seq<(usize, i64)>,
    v: usize,
    c: i64,
)
    requires
        instance.n() <= usize::MAX,
        node.describes(instance),
        list == dominance::decided(
            fixes::free_vars(node.fixed@),
            dominance::dominance_decision(V::tag(), instance.terms@, node.term_status@),
        ),
        list.contains((v, c)),
    ensures
        v < instance.n(),
        node.fixed@[v as int] is None,
{
    fixes::lemma_free_vars(node.fixed@);
    lemma_decided_has(
        fixes::free_vars(node.fixed@),
        dominance::dominance_decision(V::tag(), instance.terms@, node.term_status@),
        v,
        c,
    );
}

/// The statuses of a node with all spins negated: coefficients of an odd number of
/// free variables change their sign.
pub open spec fn are_mirrored(
    s: Seq<Option<PartiallyAssignedTerm>>,
    m: Seq<Option<PartiallyAssignedTerm>>,
) -> bool {
    &&& s.len() == m.len()
    &&& forall|t: int|
        #![trigger s[t]]
        0 <= t < s.len() ==> match (s[t], m[t]) {
            (Some(p), Some(q)) => q.free_variables@ == p.free_variables@ && q.coeff == (
            if p.free_variables@.len() % 2 == 1 {
                -p.coeff
            } else {
                p.coeff as int
            }),
            (None, None) => true,
            _ => false,
        }
}

proof fn lemma_mirrored_sums(
    s: Seq<Option<PartiallyAssignedTerm>>,
    m: Seq<Option<PartiallyAssignedTerm>>,
    v: usize,
    f: spec_fn(PartiallyAssignedTerm) -> int,
    sign: int,
    k: nat,
)
    requires
        are_mirrored(s, m),
        k <= s.len(),
        sign == 1 || sign == -1,
        forall|t: int|
            0 <= t < s.len() && (#[trigger] s[t]) is Some ==> f(m[t]->0) == sign * f(s[t]->0),
    ensures
        left_sum(m, v, f, k) == sign * left_sum(s, v, f, k),
    decreases k,
{
    if k > 0 {
        lemma_mirrored_sums(s, m, v, f, sign, (k - 1) as nat);
        let t = k - 1;
        assert(s[t] is Some ==> f(m[t]->0) == sign * f(s[t]->0));
        let a = left_sum(s, v, f, (k - 1) as nat);
        let b = left_sum(s, v, f, k) - a;
        assert(sign * (a + b) == sign * a + sign * b) by (nonlinear_arith);
        assert(sign * 0 == 0);
    }
}

/// Negating all spins of an objective negates what dominance fixes.
pub proof fn dominance_mirrors<V: VarDomain>(
    instance: &HuboInstance<V>,
    node: &Node,
    list: Seq<(usize, i64)>,
    mirrored: &HuboInstance<V>,
    other: &Node,
    negated: Seq<(usize, i64)>,
    v: usize,
)
    requires
        V::tag() == VarType::Spin,
        instance.wf(),
        mirrored.wf(),
        instance.n() <= usize::MAX,
        mirrored.n() == instance.n(),
        node.describes(instance),
        other.describes(mirrored),
        are_mirrored(node.term_status@, other.term_status@),
        list == dominance::decided(
            fixes::free_vars(node.fixed@),
            dominance::dominance_decision(V::tag(), instance.terms@, node.term_status@),
        ),
        negated == dominance::decided(
            fixes::free_vars(other.fixed@),
            dominance::dominance_decision(V::tag(), mirrored.terms@, other.term_status@),
        ),
        v < instance.n(),
        node.fixed@[v as int] is None,
        other.fixed@[v as int] is None,
    ensures
        list.contains((v, 1)) == negated.contains((v, -1i64)),
        list.contains((v, -1i64)) == negated.contains((v, 1)),
{
    let s = node.term_status@;
    let m = other.term_status@;
    dominance_fixes_what_outweighs(instance, node, list, v);
    dominance_fixes_what_outweighs(mirrored, other, negated, v);
    lemma_mirrored_sums(
        s,
        m,
        v,
        |p: PartiallyAssignedTerm|
            if p.free_variables@.len() == 1 {
                p.coeff as int
            } else {
                0
            },
        -1,
        s.len(),
    );
    lemma_mirrored_sums(
        s,
        m,
        v,
        |p: PartiallyAssignedTerm|
            if p.free_variables@.len() == 1 {
                0
            } else if p.coeff < 0 {
                -p.coeff
            } else {
                p.coeff as int
            },
        1,
        s.len(),
    );
    assert(is_left(s, v) == is_left(m, v)) by {
        if is_left(s, v) {
            let t = choose|t: int|
                0 <= t < s.len() && (#[trigger] s[t] matches Some(p) && p.coeff != 0
                    && p.free_variables@.contains(v));
            assert(m[t] is Some);
        }
        if is_left(m, v) {
            let t = choose|t: int|
                0 <= t < m.len() && (#[trigger] m[t] matches Some(p) && p.coeff != 0
                    && p.free_variables@.contains(v));
            assert(s[t] is Some);
        }
    }
}

} // verus!
