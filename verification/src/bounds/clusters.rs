//! The pieces into which the terms of a node are split.

use crate::bounds::cheap;
use crate::bounds::lagrangian::Piece;
use crate::bounds::lagrangian;
use crate::domain::{VarDomain, VarType};
use crate::instance::HuboInstance;
use crate::lasserre;
use crate::lists;
use crate::node::{Node, PartiallyAssignedTerm};
use crate::node;
use crate::sets;
use crate::term::Term;
use crate::term;
use vstd::prelude::*;

verus! {

/// The most variables of a cluster.
pub const MAX_CLUSTER_VARS: usize = 20;

/// What is left of a term counts: a variable is free and the coefficient is not
/// zero.
pub open spec fn counts(s: Option<PartiallyAssignedTerm>) -> bool {
    s matches Some(p) && p.free_variables@.len() > 0 && p.coeff != 0
}

/// The terms that count among the first `k`.
pub open spec fn counting(s: Seq<Option<PartiallyAssignedTerm>>, k: nat) -> Seq<usize>
    decreases k,
{
    if k == 0 {
        Seq::empty()
    } else if counts(s[k - 1]) {
        counting(s, (k - 1) as nat).push((k - 1) as usize)
    } else {
        counting(s, (k - 1) as nat)
    }
}

/// The coefficients without a free variable among the first `k`.
pub open spec fn settled_sum(s: Seq<Option<PartiallyAssignedTerm>>, k: nat) -> int
    decreases k,
{
    if k == 0 {
        0
    } else {
        settled_sum(s, (k - 1) as nat) + (match s[k - 1] {
            Some(p) => if p.free_variables@.len() == 0 {
                p.coeff as int
            } else {
                0
            },
            None => 0,
        })
    }
}

/// The offset with all terms that are constant.
pub open spec fn constant_of<V: VarDomain>(instance: &HuboInstance<V>, node: &Node) -> int {
    instance.offset + node.offset + settled_sum(node.term_status@, node.term_status@.len())
}

proof fn lemma_settled(s: Seq<Option<PartiallyAssignedTerm>>, k: nat)
    requires
        k <= s.len(),
    ensures
        term::abs(settled_sum(s, k)) <= node::status_abs(s.take(k as int)) <= node::status_abs(s),
        0 <= node::status_abs(s.take(k as int)),
    decreases k,
{
    if k == 0 {
        assert(s.take(0) =~= Seq::empty());
    } else {
        lemma_settled(s, (k - 1) as nat);
        assert(s.take(k as int).drop_last() =~= s.take(k - 1));
    }
    lemma_abs_prefix(s, k as int);
}

proof fn lemma_abs_prefix(s: Seq<Option<PartiallyAssignedTerm>>, k: int)
    requires
        0 <= k <= s.len(),
    ensures
        0 <= node::status_abs(s.take(k)) <= node::status_abs(s),
    decreases s.len(),
{
    if k == s.len() {
        assert(s.take(k) =~= s);
        if k > 0 {
            lemma_abs_prefix(s.drop_last(), k - 1);
        }
    } else {
        lemma_abs_prefix(s.drop_last(), k);
        assert(s.drop_last().take(k) =~= s.take(k));
    }
}

/// The offset with all terms that are constant.
pub fn constant_part<V: VarDomain>(instance: &HuboInstance<V>, node: &Node) -> (r: i64)
    requires
        instance.fits(),
        node.describes(instance),
    ensures
        r == constant_of(instance, node),
{
    let ghost s = node.term_status@;
    proof {
        cheap::lemma_bound_size(instance, node);
    }
    let mut sum: i64 = instance.offset + node.offset;
    let mut i: usize = 0;
    while i < node.term_status.len()
        invariant
            i <= s.len(),
            s == node.term_status@,
            instance.fits(),
            term::abs(node.offset as int) + node::status_abs(s) <= term::abs_sum(instance.terms@),
            sum == instance.offset + node.offset + settled_sum(s, i as nat),
        decreases s.len() - i,
    {
        proof {
            lemma_settled(s, i as nat);
            lemma_settled(s, (i + 1) as nat);
        }
        if let Some(status) = &node.term_status[i] {
            if status.free_variables.len() == 0 {
                sum = sum + status.coeff;
            }
        }
        i += 1;
    }
    sum
}

/// The term that is left, as a term.
pub open spec fn is_left(p: PartiallyAssignedTerm, t: Term) -> bool {
    t.indices@ == p.free_variables@ && t.coeff == p.coeff
}

/// The piece of one term that is left.
pub open spec fn is_piece_of(p: PartiallyAssignedTerm, piece: Piece) -> bool {
    &&& lagrangian::is_term_piece(piece)
    &&& is_left(p, piece.terms@[0])
}

/// A piece for each term that counts, in order.
pub open spec fn are_term_pieces(
    s: Seq<Option<PartiallyAssignedTerm>>,
    ids: Seq<usize>,
    pieces: Seq<Piece>,
) -> bool {
    &&& ids == counting(s, s.len())
    &&& pieces.len() == ids.len()
    &&& forall|i: int|
        0 <= i < pieces.len() ==> is_piece_of(s[ids[i] as int]->0, #[trigger] pieces[i])
}

proof fn lemma_free_ok<V: VarDomain>(instance: &HuboInstance<V>, node: &Node, i: int)
    requires
        instance.wf(),
        node.describes(instance),
        0 <= i < node.term_status@.len(),
        node.term_status@[i] is Some,
    ensures
        term::indices_below(node.term_status@[i]->0.free_variables@, instance.n() as int),
        node.term_status@[i]->0.free_variables@.no_duplicates(),
{
    let t = instance.terms@[i];
    let p = node.term_status@[i]->0;
    assert(node::status_ok(V::tag(), t, node.fixed@, node.term_status@[i]));
    node::lemma_free_list_subset(t.indices@, node.fixed@);
    assert(term::indices_below(t.indices@, instance.n() as int));
    assert(t.indices@.no_duplicates());
    assert forall|j: int| 0 <= j < p.free_variables@.len() implies (#[trigger] p.free_variables@[j])
        < instance.n() by {
        assert(p.free_variables@.contains(p.free_variables@[j]));
        assert(t.indices@.contains(p.free_variables@[j]));
    }
    lemma_free_distinct(t.indices@, node.fixed@);
}

proof fn lemma_free_distinct(idx: Seq<usize>, f: Seq<Option<bool>>)
    requires
        idx.no_duplicates(),
    ensures
        node::free_list(idx, f).no_duplicates(),
    decreases idx.len(),
{
    if idx.len() > 0 {
        let d = idx.drop_last();
        lemma_free_distinct(d, f);
        node::lemma_free_list_subset(d, f);
        let l = node::free_list(d, f);
        assert forall|j: int| 0 <= j < l.len() implies l[j] != idx.last() by {
            assert(l.contains(l[j]));
            assert(d.contains(l[j]));
            let q = choose|q: int| 0 <= q < d.len() && d[q] == l[j];
            assert(idx[q] == l[j]);
        }
    }
}

/// A piece for each term that counts, and the numbers of the terms.
pub fn term_pieces<V: VarDomain>(instance: &HuboInstance<V>, node: &Node) -> (r: (
    Vec<Piece>,
    Vec<usize>,
))
    requires
        instance.wf(),
        node.describes(instance),
    ensures
        are_term_pieces(node.term_status@, r.1@, r.0@),
        forall|i: int|
            0 <= i < r.0@.len() ==> lagrangian::is_piece(
                instance.n() as nat,
                #[trigger] r.0@[i],
            ),
{
    let ghost s = node.term_status@;
    let mut pieces: Vec<Piece> = Vec::new();
    let mut ids: Vec<usize> = Vec::new();
    let mut k: usize = 0;
    while k < node.term_status.len()
        invariant
            k <= s.len(),
            s == node.term_status@,
            instance.wf(),
            node.describes(instance),
            ids@ == counting(s, k as nat),
            pieces@.len() == ids@.len(),
            forall|i: int|
                0 <= i < pieces@.len() ==> is_piece_of(s[ids@[i] as int]->0, #[trigger] pieces@[i]),
            forall|i: int|
                0 <= i < pieces@.len() ==> lagrangian::is_piece(
                    instance.n() as nat,
                    #[trigger] pieces@[i],
                ),
        decreases s.len() - k,
    {
        if let Some(status) = &node.term_status[k] {
            if status.free_variables.len() > 0 && status.coeff != 0 {
                let vars = lists::copy_list(status.free_variables.as_slice());
                let indices = lists::copy_list(status.free_variables.as_slice());
                let mut terms: Vec<Term> = Vec::new();
                terms.push(Term { indices, coeff: status.coeff });
                let piece = Piece { vars, terms };
                proof {
                    lemma_free_ok(instance, node, k as int);
                    assert forall|i: int| 0 <= i < piece.terms@.len() implies (
                    #[trigger] piece.terms@[i]).indices@.no_duplicates() && lagrangian::is_within(
                        piece.terms@[i].indices@,
                        piece.vars@,
                    ) by {
                        let idx = piece.terms@[i].indices@;
                        assert forall|j: int| 0 <= j < idx.len() implies piece.vars@.contains(
                            #[trigger] idx[j],
                        ) by {
                            assert(piece.vars@[j] == idx[j]);
                        }
                    }
                }
                pieces.push(piece);
                ids.push(k);
            }
        }
        k += 1;
    }
    (pieces, ids)
}

proof fn lemma_counting(s: Seq<Option<PartiallyAssignedTerm>>, k: nat)
    requires
        k <= s.len() <= usize::MAX,
    ensures
        forall|j: int|
            0 <= j < counting(s, k).len() ==> (#[trigger] counting(s, k)[j]) < k && counts(
                s[counting(s, k)[j] as int],
            ),
        forall|j: int, l: int|
            0 <= j < l < counting(s, k).len() ==> counting(s, k)[j] < counting(s, k)[l],
        forall|i: int|
            0 <= i < k && #[trigger] counts(s[i]) ==> counting(s, k).contains(i as usize),
    decreases k,
{
    if k > 0 {
        let k1 = (k - 1) as nat;
        lemma_counting(s, k1);
        let before = counting(s, k1);
        let all = counting(s, k);
        assert forall|i: int| 0 <= i < k && #[trigger] counts(s[i]) implies all.contains(
            i as usize,
        ) by {
            if i < k1 {
                let j = choose|j: int| 0 <= j < before.len() && before[j] == i as usize;
                assert(all[j] == i as usize);
            } else {
                assert(all[all.len() - 1] == i as usize);
            }
        }
    }
}

/// The values of the listed terms that are left.
pub open spec fn listed_value(
    vt: VarType,
    s: Seq<Option<PartiallyAssignedTerm>>,
    ids: Seq<usize>,
    x: Seq<bool>,
) -> int
    decreases ids.len(),
{
    if ids.len() == 0 {
        0
    } else {
        listed_value(vt, s, ids.drop_last(), x) + node::status_value(
            vt,
            s[ids.last() as int],
            x,
        )
    }
}

proof fn lemma_listed_all(
    vt: VarType,
    s: Seq<Option<PartiallyAssignedTerm>>,
    x: Seq<bool>,
    k: nat,
)
    requires
        k <= s.len() <= usize::MAX,
    ensures
        settled_sum(s, k) + listed_value(vt, s, counting(s, k), x) == node::residual(
            vt,
            s.take(k as int),
            x,
        ),
    decreases k,
{
    if k == 0 {
        assert(s.take(0) =~= Seq::empty());
    } else {
        lemma_listed_all(vt, s, x, (k - 1) as nat);
        assert(s.take(k as int).drop_last() =~= s.take(k - 1));
        let before = counting(s, (k - 1) as nat);
        if counts(s[k - 1]) {
            assert(before.push((k - 1) as usize).drop_last() =~= before);
        } else if let Some(p) = s[k - 1] {
            if p.free_variables@.len() == 0 {
                assert(p.coeff * 1 == p.coeff);
            } else {
                assert(0 * term::monomial(vt, p.free_variables@, x) == 0);
            }
        }
    }
}

proof fn lemma_pieces_listed(
    vt: VarType,
    s: Seq<Option<PartiallyAssignedTerm>>,
    ids: Seq<usize>,
    pieces: Seq<Piece>,
    x: Seq<bool>,
    k: nat,
)
    requires
        k <= pieces.len(),
        pieces.len() == ids.len(),
        forall|i: int|
            0 <= i < pieces.len() ==> is_piece_of(s[ids[i] as int]->0, #[trigger] pieces[i])
                && s[ids[i] as int] is Some,
    ensures
        lagrangian::pieces_value(vt, pieces, x, k) == listed_value(vt, s, ids.take(k as int), x),
    decreases k,
{
    if k == 0 {
        assert(ids.take(0) =~= Seq::empty());
    } else {
        lemma_pieces_listed(vt, s, ids, pieces, x, (k - 1) as nat);
        assert(ids.take(k as int).drop_last() =~= ids.take(k - 1));
        let p = pieces[k - 1];
        assert(is_piece_of(s[ids[k - 1] as int]->0, pieces[k - 1]));
        reveal_with_fuel(term::poly, 2);
        assert(p.terms@.drop_last() =~= Seq::empty());
    }
}

/// The constant and the pieces of the terms are the objective of every
/// completion of the node's fixes.
pub proof fn pieces_keep_objective<V: VarDomain>(
    instance: &HuboInstance<V>,
    node: &Node,
    ids: Seq<usize>,
    pieces: Seq<Piece>,
    x: Seq<bool>,
)
    requires
        instance.wf(),
        instance.terms@.len() <= usize::MAX,
        node.describes(instance),
        are_term_pieces(node.term_status@, ids, pieces),
        node::extends(x, node.fixed@),
    ensures
        constant_of(instance, node) + lagrangian::pieces_value(V::tag(), pieces, x, pieces.len())
            == instance.objective(x),
{
    let s = node.term_status@;
    lemma_counting(s, s.len());
    assert forall|i: int| 0 <= i < pieces.len() implies is_piece_of(
        s[ids[i] as int]->0,
        #[trigger] pieces[i],
    ) && s[ids[i] as int] is Some by {
        assert(counting(s, s.len())[i] < s.len());
    }
    lemma_pieces_listed(V::tag(), s, ids, pieces, x, pieces.len());
    assert(ids.take(pieces.len() as int) =~= ids);
    lemma_listed_all(V::tag(), s, x, s.len());
    assert(s.take(s.len() as int) =~= s);
    node::node_represents_objective(instance, node, x);
}

/// The number of free variables of a term that is left.
pub open spec fn arity(s: Seq<Option<PartiallyAssignedTerm>>, i: usize) -> nat {
    s[i as int]->0.free_variables@.len()
}

/// Term `a` comes before term `b`: it has more free variables, or as many and a
/// smaller number.
pub open spec fn goes_first(s: Seq<Option<PartiallyAssignedTerm>>, a: usize, b: usize) -> bool {
    arity(s, a) > arity(s, b) || (arity(s, a) == arity(s, b) && a < b)
}

/// The terms that count among the first `k`, largest first.
pub open spec fn is_size_order(
    s: Seq<Option<PartiallyAssignedTerm>>,
    order: Seq<usize>,
    k: int,
) -> bool {
    &&& forall|i: int|
        0 <= i < order.len() ==> (#[trigger] order[i]) < k && counts(s[order[i] as int])
    &&& forall|i: int| 0 <= i < k && #[trigger] counts(s[i]) ==> order.contains(i as usize)
    &&& forall|i: int, j: int|
        0 <= i < j < order.len() ==> goes_first(s, #[trigger] order[i], #[trigger] order[j])
}

proof fn lemma_listed_insert(
    vt: VarType,
    s: Seq<Option<PartiallyAssignedTerm>>,
    ids: Seq<usize>,
    p: int,
    id: usize,
    x: Seq<bool>,
)
    requires
        0 <= p <= ids.len(),
    ensures
        listed_value(vt, s, ids.insert(p, id), x) == listed_value(vt, s, ids, x)
            + node::status_value(vt, s[id as int], x),
    decreases ids.len(),
{
    let all = ids.insert(p, id);
    if p == ids.len() {
        assert(all.drop_last() =~= ids);
    } else {
        lemma_listed_insert(vt, s, ids.drop_last(), p, id, x);
        assert(all.drop_last() =~= ids.drop_last().insert(p, id));
        assert(all.last() == ids.last());
    }
}

/// The terms that count, largest first.
fn size_order<V: VarDomain>(instance: &HuboInstance<V>, node: &Node) -> (r: Vec<usize>)
    requires
        instance.wf(),
        node.describes(instance),
    ensures
        is_size_order(node.term_status@, r@, node.term_status@.len() as int),
        forall|vt: VarType, x: Seq<bool>| #[trigger]
            listed_value(vt, node.term_status@, r@, x) == listed_value(
                vt,
                node.term_status@,
                counting(node.term_status@, node.term_status@.len()),
                x,
            ),
{
    let ghost s = node.term_status@;
    let mut order: Vec<usize> = Vec::new();
    let mut k: usize = 0;
    while k < node.term_status.len()
        invariant
            k <= s.len(),
            s == node.term_status@,
            is_size_order(s, order@, k as int),
            forall|vt: VarType, x: Seq<bool>| #[trigger]
                listed_value(vt, s, order@, x) == listed_value(vt, s, counting(s, k as nat), x),
        decreases s.len() - k,
    {
        let ghost before = order@;
        if let Some(status) = &node.term_status[k] {
            if status.free_variables.len() > 0 && status.coeff != 0 {
                let size: usize = status.free_variables.len();
                let mut p: usize = order.len();
                while p > 0 && size_at(node, order[p - 1]) < size
                    invariant
                        p <= order@.len(),
                        order@ == before,
                        k < s.len(),
                        s == node.term_status@,
                        size == arity(s, k),
                        is_size_order(s, before, k as int),
                        forall|i: int|
                            p <= i < before.len() ==> arity(s, #[trigger] before[i]) < size,
                    decreases p,
                {
                    p -= 1;
                }
                order.insert(p, k);
                proof {
                    let after = order@;
                    assert(after =~= before.insert(p as int, k));
                    assert forall|i: int, j: int| 0 <= i < j < after.len() implies goes_first(
                        s,
                        #[trigger] after[i],
                        #[trigger] after[j],
                    ) by {
                        if i < p && p > 0 {
                            assert(after[i] == before[i]);
                            assert(i < p - 1 ==> goes_first(s, before[i], before[p - 1]));
                            assert(before[i] < k);
                        }
                        if j > p {
                            assert(after[j] == before[j - 1]);
                        }
                        if i > p {
                            assert(after[i] == before[i - 1]);
                        }
                    }
                    assert forall|i: int| 0 <= i < k + 1 && #[trigger] counts(s[i]) implies after.contains(
                        i as usize,
                    ) by {
                        if i < k {
                            let q = choose|q: int|
                                0 <= q < before.len() && before[q] == i as usize;
                            if q < p {
                                assert(after[q] == i as usize);
                            } else {
                                assert(after[q + 1] == i as usize);
                            }
                        } else {
                            assert(after[p as int] == k);
                        }
                    }
                    assert forall|i: int| 0 <= i < after.len() implies (#[trigger] after[i]) < k + 1
                        && counts(s[after[i] as int]) by {
                        if i < p {
                            assert(after[i] == before[i]);
                        } else if i > p {
                            assert(after[i] == before[i - 1]);
                        }
                    }
                    assert forall|vt: VarType, x: Seq<bool>| #[trigger]
                        listed_value(vt, s, after, x) == listed_value(
                            vt,
                            s,
                            counting(s, (k + 1) as nat),
                            x,
                        ) by {
                        lemma_listed_insert(vt, s, before, p as int, k, x);
                        assert(listed_value(vt, s, before, x) == listed_value(
                            vt,
                            s,
                            counting(s, k as nat),
                            x,
                        ));
                        let c = counting(s, k as nat);
                        assert(c.push(k).drop_last() =~= c);
                    }
                }
            }
        }
        proof {
            if !counts(s[k as int]) {
                assert forall|vt: VarType, x: Seq<bool>| #[trigger]
                    listed_value(vt, s, order@, x) == listed_value(
                        vt,
                        s,
                        counting(s, (k + 1) as nat),
                        x,
                    ) by {
                    assert(listed_value(vt, s, before, x) == listed_value(
                        vt,
                        s,
                        counting(s, k as nat),
                        x,
                    ));
                }
                assert forall|i: int| 0 <= i < k + 1 && #[trigger] counts(s[i]) implies order@.contains(
                    i as usize,
                ) by {}
            }
        }
        k += 1;
    }
    order
}

/// The number of free variables of a term that is left.
fn size_at(node: &Node, i: usize) -> (r: usize)
    requires
        i < node.term_status@.len(),
        node.term_status@[i as int] is Some,
    ensures
        r == arity(node.term_status@, i),
{
    match &node.term_status[i] {
        Some(p) => p.free_variables.len(),
        None => 0,
    }
}

/// Terms, by their numbers, that share a piece, and their variables.
#[derive(Debug)]
pub struct Cluster {
    pub term_indices: Vec<usize>,
    pub vars: Vec<usize>,
}

/// A cluster with its variables as a set.
pub struct ClusterView {
    pub ids: Seq<usize>,
    pub vars: Set<usize>,
}

/// The cluster with its variables as a set.
pub open spec fn cluster_view(c: Cluster) -> ClusterView {
    ClusterView { ids: c.term_indices@, vars: c.vars@.to_set() }
}

/// The clusters with their variables as sets.
pub open spec fn cluster_views(c: Seq<Cluster>) -> Seq<ClusterView> {
    Seq::new(c.len(), |i: int| cluster_view(c[i]))
}

/// From `i` on, the first cluster that has room for the variables; the number of
/// clusters when none has.
pub open spec fn first_fit(
    clusters: Seq<ClusterView>,
    tv: Set<usize>,
    max_vars: int,
    i: int,
) -> int
    decreases clusters.len() - i,
{
    if i < 0 || i >= clusters.len() {
        clusters.len() as int
    } else if clusters[i].vars.union(tv).len() <= max_vars {
        i
    } else {
        first_fit(clusters, tv, max_vars, i + 1)
    }
}

/// The clusters with a term added: to the first with room, else to a new one.
pub open spec fn with_term(
    clusters: Seq<ClusterView>,
    id: usize,
    tv: Set<usize>,
    max_vars: int,
) -> Seq<ClusterView> {
    let i = first_fit(clusters, tv, max_vars, 0);
    if i < clusters.len() {
        clusters.update(
            i,
            ClusterView { ids: clusters[i].ids.push(id), vars: clusters[i].vars.union(tv) },
        )
    } else {
        clusters.push(ClusterView { ids: seq![id], vars: tv })
    }
}

/// The clusters of the first `k` terms of an order, without those of too many
/// variables.
pub open spec fn packed(
    s: Seq<Option<PartiallyAssignedTerm>>,
    order: Seq<usize>,
    max_vars: int,
    k: nat,
) -> Seq<ClusterView>
    decreases k,
{
    if k == 0 {
        Seq::empty()
    } else {
        let before = packed(s, order, max_vars, (k - 1) as nat);
        let id = order[k - 1];
        if arity(s, id) > max_vars {
            before
        } else {
            with_term(before, id, s[id as int]->0.free_variables@.to_set(), max_vars)
        }
    }
}

/// The terms of too many variables among the first `k` of an order.
pub open spec fn left_out(
    s: Seq<Option<PartiallyAssignedTerm>>,
    order: Seq<usize>,
    max_vars: int,
    k: nat,
) -> Seq<usize>
    decreases k,
{
    if k == 0 {
        Seq::empty()
    } else {
        let before = left_out(s, order, max_vars, (k - 1) as nat);
        if arity(s, order[k - 1]) > max_vars {
            before.push(order[k - 1])
        } else {
            before
        }
    }
}

/// The variables of the cluster ascend, are below `n`, and hold those of its
/// terms, which count.
pub open spec fn is_cluster(s: Seq<Option<PartiallyAssignedTerm>>, n: nat, c: Cluster) -> bool {
    &&& sets::ascending(c.vars@)
    &&& c.vars@.len() > 0
    &&& term::indices_below(c.vars@, n as int)
    &&& forall|i: int|
        0 <= i < c.term_indices@.len() ==> (#[trigger] c.term_indices@[i]) < s.len() && counts(
            s[c.term_indices@[i] as int],
        ) && lagrangian::is_within(s[c.term_indices@[i] as int]->0.free_variables@, c.vars@)
}

/// How many variables a cluster would have with those of a term.
fn joint_size(vars: &Vec<usize>, tv: &Vec<usize>) -> (r: usize)
    requires
        sets::ascending(vars@),
        tv@.no_duplicates(),
        vars@.len() + tv@.len() <= usize::MAX,
    ensures
        r == vars@.to_set().union(tv@.to_set()).len(),
{
    let ghost mut joint: Seq<usize> = vars@;
    let mut new_vars: usize = 0;
    let mut j: usize = 0;
    proof {
        lemma_ascending_distinct(vars@);
    }
    while j < tv.len()
        invariant
            j <= tv@.len(),
            new_vars <= j,
            vars@.len() + tv@.len() <= usize::MAX,
            sets::ascending(vars@),
            tv@.no_duplicates(),
            joint.no_duplicates(),
            joint.len() == vars@.len() + new_vars,
            forall|v: usize| #[trigger]
                joint.contains(v) == (vars@.contains(v) || tv@.take(j as int).contains(v)),
        decreases tv@.len() - j,
    {
        let (p, found) = sets::position_of(vars.as_slice(), tv[j]);
        proof {
            let v0 = tv@[j as int];
            sets::lemma_contains_take(tv@, j as int);
            if !found {
                assert(!tv@.take(j as int).contains(v0)) by {
                    if tv@.take(j as int).contains(v0) {
                        let q = choose|q: int| 0 <= q < j && tv@.take(j as int)[q] == v0;
                        assert(tv@[q] == tv@[j as int]);
                    }
                }
                assert(!joint.contains(v0));
                let after = joint.push(v0);
                assert forall|v: usize| #[trigger] after.contains(v) == (joint.contains(v) || v
                    == v0) by {
                    if joint.contains(v) {
                        let q = choose|q: int| 0 <= q < joint.len() && joint[q] == v;
                        assert(after[q] == v);
                    }
                    if v == v0 {
                        assert(after[joint.len() as int] == v);
                    }
                }
                joint = after;
            }
        }
        if !found {
            new_vars += 1;
        }
        j += 1;
    }
    proof {
        assert(tv@.take(j as int) =~= tv@);
        joint.unique_seq_to_set();
        assert(joint.to_set() =~= vars@.to_set().union(tv@.to_set()));
    }
    vars.len() + new_vars
}

proof fn lemma_ascending_distinct(s: Seq<usize>)
    requires
        sets::ascending(s),
    ensures
        s.no_duplicates(),
{
    assert forall|i: int, j: int| 0 <= i < s.len() && 0 <= j < s.len() && i != j implies s[i]
        != s[j] by {
        if i < j {
            assert(s[i] < s[j]);
        } else {
            assert(s[j] < s[i]);
        }
    }
}

/// Add the variables of a term at their places.
fn join_vars(vars: &mut Vec<usize>, tv: &Vec<usize>)
    requires
        sets::ascending(old(vars)@),
    ensures
        sets::ascending(final(vars)@),
        forall|v: usize| #[trigger]
            final(vars)@.contains(v) == (old(vars)@.contains(v) || tv@.contains(v)),
{
    let ghost v0 = vars@;
    let mut j: usize = 0;
    while j < tv.len()
        invariant
            j <= tv@.len(),
            v0 == old(vars)@,
            sets::ascending(vars@),
            forall|v: usize| #[trigger]
                vars@.contains(v) == (v0.contains(v) || tv@.take(j as int).contains(v)),
        decreases tv@.len() - j,
    {
        proof {
            sets::lemma_contains_take(tv@, j as int);
        }
        sets::insert_sorted(vars, tv[j]);
        j += 1;
    }
    assert(tv@.take(j as int) =~= tv@);
}

/// The clusters and the terms left out, for some order by size.
pub open spec fn are_clusters(
    s: Seq<Option<PartiallyAssignedTerm>>,
    order: Seq<usize>,
    max_vars: int,
    clusters: Seq<Cluster>,
    skipped: Seq<usize>,
) -> bool {
    &&& is_size_order(s, order, s.len() as int)
    &&& cluster_views(clusters) == packed(s, order, max_vars, order.len())
    &&& skipped == left_out(s, order, max_vars, order.len())
}

/// Put a term into the first cluster with room, else into a new one.
fn add_term(
    clusters: &mut Vec<Cluster>,
    id: usize,
    tv: &Vec<usize>,
    max_vars: usize,
    Ghost(s): Ghost<Seq<Option<PartiallyAssignedTerm>>>,
    Ghost(n): Ghost<nat>,
)
    requires
        max_vars <= MAX_CLUSTER_VARS,
        tv@.len() <= max_vars,
        id < s.len(),
        counts(s[id as int]),
        tv@ == s[id as int]->0.free_variables@,
        tv@.no_duplicates(),
        term::indices_below(tv@, n as int),
        forall|i: int|
            0 <= i < old(clusters)@.len() ==> is_cluster(s, n, #[trigger] old(clusters)@[i])
                && old(clusters)@[i].vars@.len() <= max_vars,
    ensures
        cluster_views(final(clusters)@) == with_term(
            cluster_views(old(clusters)@),
            id,
            tv@.to_set(),
            max_vars as int,
        ),
        forall|i: int|
            0 <= i < final(clusters)@.len() ==> is_cluster(s, n, #[trigger] final(clusters)@[i])
                && final(clusters)@[i].vars@.len() <= max_vars,
{
    let ghost c0 = clusters@;
    let ghost views = cluster_views(c0);
    let ghost ts = tv@.to_set();
    let mut i: usize = 0;
    let mut found: bool = false;
    while i < clusters.len() && !found
        invariant
            i <= clusters@.len(),
            clusters@ == c0,
            views == cluster_views(c0),
            ts == tv@.to_set(),
            max_vars <= MAX_CLUSTER_VARS,
            tv@.len() <= max_vars,
            tv@.no_duplicates(),
            forall|j: int|
                0 <= j < c0.len() ==> is_cluster(s, n, #[trigger] c0[j]) && c0[j].vars@.len()
                    <= max_vars,
            first_fit(views, ts, max_vars as int, 0) == first_fit(
                views,
                ts,
                max_vars as int,
                i as int,
            ),
            found ==> i < clusters@.len() && views[i as int].vars.union(ts).len() <= max_vars,
        decreases clusters@.len() - i + (if found {
            0int
        } else {
            1
        }),
    {
        assert(is_cluster(s, n, c0[i as int]));
        let size: usize = joint_size(&clusters[i].vars, tv);
        assert(views[i as int] == cluster_view(c0[i as int]));
        if size <= max_vars {
            found = true;
        } else {
            i += 1;
        }
    }
    if found {
        let mut c = clusters.remove(i);
        let ghost old_c = c0[i as int];
        assert(is_cluster(s, n, c0[i as int]));
        c.term_indices.push(id);
        join_vars(&mut c.vars, tv);
        let ghost new_c = c;
        clusters.insert(i, c);
        proof {
            assert(clusters@ =~= c0.update(i as int, new_c));
            assert(new_c.vars@.to_set() =~= old_c.vars@.to_set().union(ts));
            lemma_ascending_distinct(new_c.vars@);
            new_c.vars@.unique_seq_to_set();
            assert(views[i as int] == cluster_view(old_c));
            assert(cluster_views(clusters@) =~= with_term(views, id, ts, max_vars as int));
            assert(is_cluster(s, n, new_c)) by {
                assert forall|j: int| 0 <= j < new_c.vars@.len() implies (#[trigger] new_c.vars@[j])
                    < n by {
                    let v = new_c.vars@[j];
                    assert(new_c.vars@.contains(v));
                    if old_c.vars@.contains(v) {
                        let q = choose|q: int| 0 <= q < old_c.vars@.len() && old_c.vars@[q] == v;
                    } else {
                        let q = choose|q: int| 0 <= q < tv@.len() && tv@[q] == v;
                    }
                }
                assert(new_c.vars@.contains(old_c.vars@[0])) by {
                    assert(old_c.vars@.contains(old_c.vars@[0]));
                }
                assert forall|j: int| 0 <= j < new_c.term_indices@.len() implies (
                #[trigger] new_c.term_indices@[j]) < s.len() && counts(
                    s[new_c.term_indices@[j] as int],
                ) && lagrangian::is_within(
                    s[new_c.term_indices@[j] as int]->0.free_variables@,
                    new_c.vars@,
                ) by {
                    let fv = s[new_c.term_indices@[j] as int]->0.free_variables@;
                    if j < old_c.term_indices@.len() {
                        assert(new_c.term_indices@[j] == old_c.term_indices@[j]);
                        assert forall|q: int| 0 <= q < fv.len() implies new_c.vars@.contains(
                            #[trigger] fv[q],
                        ) by {
                            assert(old_c.vars@.contains(fv[q]));
                        }
                    } else {
                        assert forall|q: int| 0 <= q < fv.len() implies new_c.vars@.contains(
                            #[trigger] fv[q],
                        ) by {
                            assert(tv@.contains(tv@[q]));
                        }
                    }
                }
            }
            assert forall|j: int| 0 <= j < clusters@.len() implies is_cluster(
                s,
                n,
                #[trigger] clusters@[j],
            ) && clusters@[j].vars@.len() <= max_vars by {
                if j != i {
                    assert(clusters@[j] == c0[j]);
                }
            }
        }
    } else {
        let mut term_indices: Vec<usize> = Vec::new();
        term_indices.push(id);
        let mut vars: Vec<usize> = Vec::new();
        join_vars(&mut vars, tv);
        let c = Cluster { term_indices, vars };
        clusters.push(c);
        proof {
            assert(c.vars@.to_set() =~= ts);
            lemma_ascending_distinct(c.vars@);
            c.vars@.unique_seq_to_set();
            tv@.unique_seq_to_set();
            assert(c.vars@.len() == ts.len() && ts.len() == tv@.len());
            assert(c.term_indices@ =~= seq![id]);
            assert(cluster_views(clusters@) =~= with_term(views, id, ts, max_vars as int));
            assert(is_cluster(s, n, c)) by {
                assert forall|j: int| 0 <= j < c.vars@.len() implies (#[trigger] c.vars@[j]) < n by {
                    let v = c.vars@[j];
                    assert(c.vars@.contains(v));
                    let q = choose|q: int| 0 <= q < tv@.len() && tv@[q] == v;
                }
                assert forall|q: int| 0 <= q < tv@.len() implies c.vars@.contains(
                    #[trigger] tv@[q],
                ) by {
                    assert(tv@.contains(tv@[q]));
                }
            }
            assert forall|j: int| 0 <= j < clusters@.len() implies is_cluster(
                s,
                n,
                #[trigger] clusters@[j],
            ) && clusters@[j].vars@.len() <= max_vars by {
                if j < c0.len() {
                    assert(clusters@[j] == c0[j]);
                }
            }
        }
    }
}

/// Pack the terms that count, largest first, each into the first cluster with
/// room for its variables; those with too many variables are left out.
pub fn build_clusters<V: VarDomain>(
    instance: &HuboInstance<V>,
    node: &Node,
    max_vars: usize,
) -> (r: (Vec<Cluster>, Vec<usize>))
    requires
        instance.wf(),
        node.describes(instance),
        max_vars <= MAX_CLUSTER_VARS,
    ensures
        exists|order: Seq<usize>| #[trigger]
            are_clusters(node.term_status@, order, max_vars as int, r.0@, r.1@),
        forall|i: int|
            0 <= i < r.0@.len() ==> is_cluster(
                node.term_status@,
                instance.n() as nat,
                #[trigger] r.0@[i],
            ) && r.0@[i].vars@.len() <= max_vars,
        forall|vt: VarType, x: Seq<bool>| #[trigger]
            clusters_value(vt, node.term_status@, cluster_views(r.0@), x) + listed_value(
                vt,
                node.term_status@,
                r.1@,
                x,
            ) == listed_value(
                vt,
                node.term_status@,
                counting(node.term_status@, node.term_status@.len()),
                x,
            ),
{
    let ghost s = node.term_status@;
    let ghost n = instance.n() as nat;
    let order = size_order(instance, node);
    let mut clusters: Vec<Cluster> = Vec::new();
    let mut skipped: Vec<usize> = Vec::new();
    let mut k: usize = 0;
    assert(cluster_views(clusters@) =~= Seq::empty());
    while k < order.len()
        invariant
            k <= order@.len(),
            s == node.term_status@,
            n == instance.n(),
            instance.wf(),
            node.describes(instance),
            max_vars <= MAX_CLUSTER_VARS,
            is_size_order(s, order@, s.len() as int),
            cluster_views(clusters@) == packed(s, order@, max_vars as int, k as nat),
            skipped@ == left_out(s, order@, max_vars as int, k as nat),
            forall|i: int|
                0 <= i < clusters@.len() ==> is_cluster(s, n, #[trigger] clusters@[i])
                    && clusters@[i].vars@.len() <= max_vars,
        decreases order@.len() - k,
    {
        let id: usize = order[k];
        assert(order@[k as int] < s.len() && counts(s[order@[k as int] as int]));
        if let Some(status) = &node.term_status[id] {
            proof {
                lemma_free_ok(instance, node, id as int);
            }
            if status.free_variables.len() > max_vars {
                skipped.push(id);
            } else {
                add_term(
                    &mut clusters,
                    id,
                    &status.free_variables,
                    max_vars,
                    Ghost(s),
                    Ghost(n),
                );
            }
        }
        k += 1;
    }
    proof {
        assert(are_clusters(s, order@, max_vars as int, clusters@, skipped@));
        assert forall|vt: VarType, x: Seq<bool>| #[trigger]
            clusters_value(vt, s, cluster_views(clusters@), x) + listed_value(vt, s, skipped@, x)
                == listed_value(vt, s, counting(s, s.len()), x) by {
            lemma_packed(vt, s, order@, max_vars as int, x, order@.len());
            assert(order@.take(order@.len() as int) =~= order@);
            assert(listed_value(vt, s, order@, x) == listed_value(
                vt,
                s,
                counting(s, s.len()),
                x,
            ));
        }
    }
    let ghost order_view = order@;
    let r = (clusters, skipped);
    assert(are_clusters(node.term_status@, order_view, max_vars as int, r.0@, r.1@));
    r
}

/// The values of the terms of all clusters.
pub open spec fn clusters_value(
    vt: VarType,
    s: Seq<Option<PartiallyAssignedTerm>>,
    clusters: Seq<ClusterView>,
    x: Seq<bool>,
) -> int
    decreases clusters.len(),
{
    if clusters.len() == 0 {
        0
    } else {
        clusters_value(vt, s, clusters.drop_last(), x) + listed_value(
            vt,
            s,
            clusters.last().ids,
            x,
        )
    }
}

proof fn lemma_clusters_update(
    vt: VarType,
    s: Seq<Option<PartiallyAssignedTerm>>,
    clusters: Seq<ClusterView>,
    i: int,
    c: ClusterView,
    x: Seq<bool>,
)
    requires
        0 <= i < clusters.len(),
    ensures
        clusters_value(vt, s, clusters.update(i, c), x) == clusters_value(vt, s, clusters, x)
            - listed_value(vt, s, clusters[i].ids, x) + listed_value(vt, s, c.ids, x),
    decreases clusters.len(),
{
    let all = clusters.update(i, c);
    if i == clusters.len() - 1 {
        assert(all.drop_last() =~= clusters.drop_last());
    } else {
        lemma_clusters_update(vt, s, clusters.drop_last(), i, c, x);
        assert(all.drop_last() =~= clusters.drop_last().update(i, c));
    }
}

proof fn lemma_first_fit(clusters: Seq<ClusterView>, tv: Set<usize>, max_vars: int, i: int)
    requires
        0 <= i <= clusters.len(),
    ensures
        i <= first_fit(clusters, tv, max_vars, i) <= clusters.len(),
    decreases clusters.len() - i,
{
    if i < clusters.len() {
        lemma_first_fit(clusters, tv, max_vars, i + 1);
    }
}

proof fn lemma_packed(
    vt: VarType,
    s: Seq<Option<PartiallyAssignedTerm>>,
    order: Seq<usize>,
    max_vars: int,
    x: Seq<bool>,
    k: nat,
)
    requires
        k <= order.len(),
    ensures
        clusters_value(vt, s, packed(s, order, max_vars, k), x) + listed_value(
            vt,
            s,
            left_out(s, order, max_vars, k),
            x,
        ) == listed_value(vt, s, order.take(k as int), x),
    decreases k,
{
    if k == 0 {
        assert(order.take(0) =~= Seq::empty());
    } else {
        lemma_packed(vt, s, order, max_vars, x, (k - 1) as nat);
        assert(order.take(k as int).drop_last() =~= order.take(k - 1));
        let id = order[k - 1];
        let before = packed(s, order, max_vars, (k - 1) as nat);
        let out = left_out(s, order, max_vars, (k - 1) as nat);
        if arity(s, id) > max_vars {
            assert(out.push(id).drop_last() =~= out);
        } else {
            let tv = s[id as int]->0.free_variables@.to_set();
            let i = first_fit(before, tv, max_vars, 0);
            lemma_first_fit(before, tv, max_vars, 0);
            if i < before.len() {
                let c = ClusterView { ids: before[i].ids.push(id), vars: before[i].vars.union(tv) };
                lemma_clusters_update(vt, s, before, i, c, x);
                assert(before[i].ids.push(id).drop_last() =~= before[i].ids);
            } else {
                let c = ClusterView { ids: seq![id], vars: tv };
                assert(before.push(c).drop_last() =~= before);
                assert(seq![id].drop_last() =~= Seq::<usize>::empty());
                reveal_with_fuel(listed_value, 2);
            }
        }
    }
}

/// The terms of the piece are those of the cluster, over its variables.
pub open spec fn is_cluster_piece(
    s: Seq<Option<PartiallyAssignedTerm>>,
    c: Cluster,
    p: Piece,
) -> bool {
    &&& p.vars@ == c.vars@
    &&& p.terms@.len() == c.term_indices@.len()
    &&& forall|i: int|
        0 <= i < p.terms@.len() ==> is_left(
            s[c.term_indices@[i] as int]->0,
            #[trigger] p.terms@[i],
        )
}

/// The pieces of the clusters.
pub fn cluster_pieces<V: VarDomain>(
    instance: &HuboInstance<V>,
    node: &Node,
    clusters: &Vec<Cluster>,
) -> (r: Vec<Piece>)
    requires
        instance.wf(),
        node.describes(instance),
        forall|i: int|
            0 <= i < clusters@.len() ==> is_cluster(
                node.term_status@,
                instance.n() as nat,
                #[trigger] clusters@[i],
            ),
    ensures
        r@.len() == clusters@.len(),
        forall|i: int|
            0 <= i < r@.len() ==> is_cluster_piece(
                node.term_status@,
                clusters@[i],
                #[trigger] r@[i],
            ) && lagrangian::is_piece(instance.n() as nat, r@[i]) && sets::ascending(r@[i].vars@),
{
    let ghost s = node.term_status@;
    let ghost n = instance.n() as nat;
    let mut pieces: Vec<Piece> = Vec::new();
    let mut i: usize = 0;
    while i < clusters.len()
        invariant
            i <= clusters@.len(),
            s == node.term_status@,
            n == instance.n(),
            instance.wf(),
            node.describes(instance),
            forall|j: int| 0 <= j < clusters@.len() ==> is_cluster(s, n, #[trigger] clusters@[j]),
            pieces@.len() == i,
            forall|j: int|
                0 <= j < i ==> is_cluster_piece(s, clusters@[j], #[trigger] pieces@[j])
                    && lagrangian::is_piece(n, pieces@[j]) && sets::ascending(pieces@[j].vars@),
        decreases clusters@.len() - i,
    {
        let ghost c = clusters@[i as int];
        assert(is_cluster(s, n, clusters@[i as int]));
        let vars = lists::copy_list(clusters[i].vars.as_slice());
        let mut terms: Vec<Term> = Vec::new();
        let mut j: usize = 0;
        while j < clusters[i].term_indices.len()
            invariant
                i < clusters@.len(),
                c == clusters@[i as int],
                j <= c.term_indices@.len(),
                s == node.term_status@,
                n == instance.n(),
                instance.wf(),
                node.describes(instance),
                is_cluster(s, n, c),
                terms@.len() == j,
                forall|q: int|
                    0 <= q < j ==> is_left(s[c.term_indices@[q] as int]->0, #[trigger] terms@[q]),
                forall|q: int|
                    0 <= q < j ==> (#[trigger] terms@[q]).indices@.no_duplicates()
                        && lagrangian::is_within(terms@[q].indices@, c.vars@),
            decreases c.term_indices@.len() - j,
        {
            let id: usize = clusters[i].term_indices[j];
            assert(c.term_indices@[j as int] < s.len());
            if let Some(status) = &node.term_status[id] {
                proof {
                    lemma_free_ok(instance, node, id as int);
                }
                let indices = lists::copy_list(status.free_variables.as_slice());
                terms.push(Term { indices, coeff: status.coeff });
            }
            j += 1;
        }
        let piece = Piece { vars, terms };
        proof {
            lemma_ascending_distinct(c.vars@);
            assert(lagrangian::is_piece(n, piece));
        }
        pieces.push(piece);
        i += 1;
    }
    pieces
}

/// The least values of the first `k` listed terms.
pub open spec fn listed_floor(
    vt: VarType,
    s: Seq<Option<PartiallyAssignedTerm>>,
    ids: Seq<usize>,
    k: nat,
) -> int
    decreases k,
{
    if k == 0 {
        0
    } else {
        listed_floor(vt, s, ids, (k - 1) as nat) + lasserre::term_floor(
            vt,
            s[ids[k - 1] as int]->0.coeff as int,
        )
    }
}

proof fn lemma_listed_floor(
    vt: VarType,
    s: Seq<Option<PartiallyAssignedTerm>>,
    ids: Seq<usize>,
    x: Seq<bool>,
    k: nat,
)
    requires
        k <= ids.len(),
        forall|i: int| 0 <= i < ids.len() ==> s[(#[trigger] ids[i]) as int] is Some,
    ensures
        listed_floor(vt, s, ids, k) <= listed_value(vt, s, ids.take(k as int), x),
        listed_floor(vt, s, ids, k) <= 0,
    decreases k,
{
    if k == 0 {
        assert(ids.take(0) =~= Seq::empty());
    } else {
        lemma_listed_floor(vt, s, ids, x, (k - 1) as nat);
        assert(ids.take(k as int).drop_last() =~= ids.take(k - 1));
        assert(s[ids[k - 1] as int] is Some);
        let p = s[ids[k - 1] as int]->0;
        lasserre::lemma_term_floor(vt, p.free_variables@, p.coeff as int, x);
    }
}

/// The least values of the terms left out, in all.
pub fn skipped_floor(var_type: VarType, node: &Node, skipped: &Vec<usize>) -> (r: i128)
    requires
        forall|i: int|
            0 <= i < skipped@.len() ==> (#[trigger] skipped@[i]) < node.term_status@.len()
                && node.term_status@[skipped@[i] as int] is Some,
    ensures
        r == listed_floor(var_type, node.term_status@, skipped@, skipped@.len()),
{
    let ghost s = node.term_status@;
    let mut sum: i128 = 0;
    let mut i: usize = 0;
    while i < skipped.len()
        invariant
            i <= skipped@.len(),
            s == node.term_status@,
            forall|j: int|
                0 <= j < skipped@.len() ==> (#[trigger] skipped@[j]) < s.len()
                    && s[skipped@[j] as int] is Some,
            sum == listed_floor(var_type, s, skipped@, i as nat),
            i * i64::MIN <= sum <= 0,
        decreases skipped@.len() - i,
    {
        let id: usize = skipped[i];
        assert(skipped@[i as int] < s.len());
        if let Some(status) = &node.term_status[id] {
            let c: i128 = status.coeff as i128;
            proof {
                assert(i * i64::MIN >= usize::MAX * i64::MIN) by (nonlinear_arith)
                    requires
                        i <= usize::MAX,
                        i64::MIN < 0,
                ;
                assert((i + 1) * i64::MIN == i * i64::MIN + i64::MIN) by (nonlinear_arith);
            }
            let low: i128 = match var_type {
                VarType::Bin => if c < 0 {
                    c
                } else {
                    0
                },
                VarType::Spin => if c < 0 {
                    c
                } else {
                    -c
                },
            };
            sum = sum + low;
        }
        i += 1;
    }
    sum
}

proof fn lemma_cluster_piece_value(
    vt: VarType,
    s: Seq<Option<PartiallyAssignedTerm>>,
    c: Cluster,
    p: Piece,
    x: Seq<bool>,
    k: nat,
)
    requires
        is_cluster_piece(s, c, p),
        k <= p.terms@.len(),
        forall|i: int|
            0 <= i < c.term_indices@.len() ==> s[(#[trigger] c.term_indices@[i]) as int] is Some,
    ensures
        term::poly(vt, p.terms@.take(k as int), x) == listed_value(
            vt,
            s,
            c.term_indices@.take(k as int),
            x,
        ),
    decreases k,
{
    if k == 0 {
        assert(p.terms@.take(0) =~= Seq::empty());
        assert(c.term_indices@.take(0) =~= Seq::empty());
    } else {
        lemma_cluster_piece_value(vt, s, c, p, x, (k - 1) as nat);
        assert(p.terms@.take(k as int).drop_last() =~= p.terms@.take(k - 1));
        assert(c.term_indices@.take(k as int).drop_last() =~= c.term_indices@.take(k - 1));
        assert(is_left(s[c.term_indices@[k - 1] as int]->0, p.terms@[k - 1]));
        assert(s[c.term_indices@[k - 1] as int] is Some);
    }
}

proof fn lemma_cluster_pieces(
    vt: VarType,
    s: Seq<Option<PartiallyAssignedTerm>>,
    n: nat,
    clusters: Seq<Cluster>,
    pieces: Seq<Piece>,
    x: Seq<bool>,
    k: nat,
)
    requires
        pieces.len() == clusters.len(),
        k <= pieces.len(),
        forall|i: int| 0 <= i < clusters.len() ==> is_cluster(s, n, #[trigger] clusters[i]),
        forall|i: int|
            0 <= i < pieces.len() ==> is_cluster_piece(s, clusters[i], #[trigger] pieces[i]),
    ensures
        lagrangian::pieces_value(vt, pieces, x, k) == clusters_value(
            vt,
            s,
            cluster_views(clusters).take(k as int),
            x,
        ),
    decreases k,
{
    let views = cluster_views(clusters);
    if k == 0 {
        assert(views.take(0) =~= Seq::empty());
    } else {
        lemma_cluster_pieces(vt, s, n, clusters, pieces, x, (k - 1) as nat);
        assert(views.take(k as int).drop_last() =~= views.take(k - 1));
        let c = clusters[k - 1];
        let p = pieces[k - 1];
        assert(is_cluster(s, n, clusters[k - 1]));
        assert(is_cluster_piece(s, clusters[k - 1], pieces[k - 1]));
        assert forall|i: int| 0 <= i < c.term_indices@.len() implies s[(
        #[trigger] c.term_indices@[i]) as int] is Some by {
            assert(counts(s[c.term_indices@[i] as int]));
        }
        lemma_cluster_piece_value(vt, s, c, p, x, p.terms@.len());
        assert(p.terms@.take(p.terms@.len() as int) =~= p.terms@);
        assert(c.term_indices@.take(p.terms@.len() as int) =~= c.term_indices@);
    }
}

/// The constant, the least values of the terms left out and the pieces of the
/// clusters are at most the objective of every completion of the node's fixes.
pub proof fn clusters_bound_objective<V: VarDomain>(
    instance: &HuboInstance<V>,
    node: &Node,
    order: Seq<usize>,
    max_vars: int,
    clusters: Seq<Cluster>,
    skipped: Seq<usize>,
    pieces: Seq<Piece>,
    x: Seq<bool>,
)
    requires
        instance.wf(),
        instance.terms@.len() <= usize::MAX,
        node.describes(instance),
        are_clusters(node.term_status@, order, max_vars, clusters, skipped),
        forall|i: int|
            0 <= i < clusters.len() ==> is_cluster(
                node.term_status@,
                instance.n() as nat,
                #[trigger] clusters[i],
            ),
        pieces.len() == clusters.len(),
        forall|i: int|
            0 <= i < pieces.len() ==> is_cluster_piece(
                node.term_status@,
                clusters[i],
                #[trigger] pieces[i],
            ),
        clusters_value(V::tag(), node.term_status@, cluster_views(clusters), x) + listed_value(
            V::tag(),
            node.term_status@,
            skipped,
            x,
        ) == listed_value(
            V::tag(),
            node.term_status@,
            counting(node.term_status@, node.term_status@.len()),
            x,
        ),
        node::extends(x, node.fixed@),
    ensures
        constant_of(instance, node) + listed_floor(
            V::tag(),
            node.term_status@,
            skipped,
            skipped.len(),
        ) + lagrangian::pieces_value(V::tag(), pieces, x, pieces.len()) <= instance.objective(x),
{
    let s = node.term_status@;
    lemma_left_out(s, order, max_vars, order.len());
    lemma_listed_floor(V::tag(), s, skipped, x, skipped.len());
    assert(skipped.take(skipped.len() as int) =~= skipped);
    lemma_cluster_pieces(
        V::tag(),
        s,
        instance.n() as nat,
        clusters,
        pieces,
        x,
        pieces.len(),
    );
    assert(cluster_views(clusters).take(pieces.len() as int) =~= cluster_views(clusters));
    lemma_listed_all(V::tag(), s, x, s.len());
    assert(s.take(s.len() as int) =~= s);
    node::node_represents_objective(instance, node, x);
}

/// The terms left out are among those of the order.
pub proof fn lemma_left_out(
    s: Seq<Option<PartiallyAssignedTerm>>,
    order: Seq<usize>,
    max_vars: int,
    k: nat,
)
    requires
        k <= order.len(),
        is_size_order(s, order, s.len() as int),
    ensures
        forall|i: int|
            0 <= i < left_out(s, order, max_vars, k).len() ==> s[(#[trigger] left_out(
                s,
                order,
                max_vars,
                k,
            )[i]) as int] is Some && left_out(s, order, max_vars, k)[i] < s.len(),
    decreases k,
{
    if k > 0 {
        lemma_left_out(s, order, max_vars, (k - 1) as nat);
        assert(order[k - 1] < s.len() && counts(s[order[k - 1] as int]));
    }
}

/// The least values of listed terms are no lower than their number allows.
pub proof fn lemma_floor_range(
    vt: VarType,
    s: Seq<Option<PartiallyAssignedTerm>>,
    ids: Seq<usize>,
    k: nat,
)
    ensures
        k * i64::MIN <= listed_floor(vt, s, ids, k) <= 0,
    decreases k,
{
    if k > 0 {
        lemma_floor_range(vt, s, ids, (k - 1) as nat);
        assert(k * i64::MIN == (k - 1) * i64::MIN + i64::MIN) by (nonlinear_arith);
    }
}

} // verus!
