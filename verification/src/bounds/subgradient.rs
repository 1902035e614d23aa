//! The bound of a node at given multipliers, over single terms or clusters of
//! terms.

use crate::bounds::clusters::Cluster;
use crate::bounds::clusters;
use crate::bounds::lagrangian::{DualPoint, Piece};
use crate::bounds::lagrangian;
use crate::bounds::local_min;
use crate::coeff;
use crate::domain::{VarDomain, VarType};
use crate::instance::HuboInstance;
use crate::node::Node;
use crate::node;
use crate::sets;
use crate::term::Term;
use crate::term;
use vstd::prelude::*;

verus! {

/// A constant and pieces that bound the objective of a node.
#[derive(Debug)]
pub struct Split {
    pub constant: i64,
    pub pieces: Vec<Piece>,
    /// Whether the pieces are minimised by enumeration.
    pub by_enumeration: bool,
}

/// The constant and the pieces are at most the objective of every completion of
/// the node's fixes, and every piece can be minimised.
pub open spec fn splits<V: VarDomain>(instance: &HuboInstance<V>, node: &Node, d: Split) -> bool {
    let n = instance.n() as nat;
    &&& forall|i: int| 0 <= i < d.pieces@.len() ==> lagrangian::is_piece(n, #[trigger] d.pieces@[i])
    &&& forall|i: int|
        0 <= i < d.pieces@.len() ==> (if d.by_enumeration {
            sets::ascending((#[trigger] d.pieces@[i]).vars@)
        } else {
            lagrangian::is_term_piece(d.pieces@[i])
        })
    &&& forall|x: Seq<bool>| #[trigger]
        node::extends(x, node.fixed@) ==> d.constant + lagrangian::pieces_value(
            V::tag(),
            d.pieces@,
            x,
            d.pieces@.len(),
        ) <= instance.objective(x)
}

/// A piece for every term of the node, with the numbers of the terms.
pub fn split_by_term<V: VarDomain>(instance: &HuboInstance<V>, node: &Node) -> (r: (
    Split,
    Vec<usize>,
))
    requires
        instance.wf(),
        instance.fits(),
        node.describes(instance),
    ensures
        r.0.constant == clusters::constant_of(instance, node),
        !r.0.by_enumeration,
        clusters::are_term_pieces(node.term_status@, r.1@, r.0.pieces@),
        splits(instance, node, r.0),
{
    let n_terms: usize = instance.terms.len();
    let constant: i64 = clusters::constant_part(instance, node);
    let (pieces, ids) = clusters::term_pieces(instance, node);
    proof {
        assert forall|x: Seq<bool>| #[trigger] node::extends(x, node.fixed@) implies constant
            + lagrangian::pieces_value(V::tag(), pieces@, x, pieces@.len())
            <= instance.objective(x) by {
            clusters::pieces_keep_objective(instance, node, ids@, pieces@, x);
        }
        assert forall|i: int| 0 <= i < pieces@.len() implies lagrangian::is_term_piece(
            #[trigger] pieces@[i],
        ) by {
            assert(clusters::is_piece_of(
                node.term_status@[ids@[i] as int]->0,
                pieces@[i],
            ));
        }
    }
    (Split { constant, pieces, by_enumeration: false }, ids)
}

/// A piece for every term of the node.
pub fn split_terms<V: VarDomain>(instance: &HuboInstance<V>, node: &Node) -> (r: Split)
    requires
        instance.wf(),
        instance.fits(),
        node.describes(instance),
    ensures
        r.constant == clusters::constant_of(instance, node),
        !r.by_enumeration,
        exists|ids: Seq<usize>| #[trigger]
            clusters::are_term_pieces(node.term_status@, ids, r.pieces@),
        splits(instance, node, r),
{
    let (d, ids) = split_by_term(instance, node);
    assert(clusters::are_term_pieces(node.term_status@, ids@, d.pieces@));
    d
}

/// The clusters of the node and the terms left out.
pub open spec fn is_cluster_split<V: VarDomain>(
    instance: &HuboInstance<V>,
    node: &Node,
    max_vars: int,
    order: Seq<usize>,
    groups: Seq<Cluster>,
    skipped: Seq<usize>,
    constant: int,
) -> bool {
    &&& clusters::are_clusters(node.term_status@, order, max_vars, groups, skipped)
    &&& constant == clusters::constant_of(instance, node) + clusters::listed_floor(
        V::tag(),
        node.term_status@,
        skipped,
        skipped.len(),
    )
}

/// The limit of variables of a cluster.
pub open spec fn cluster_limit(max_vars: usize) -> int {
    if max_vars < clusters::MAX_CLUSTER_VARS {
        max_vars as int
    } else {
        clusters::MAX_CLUSTER_VARS as int
    }
}

/// The pieces of the clusters, unless the constant does not fit.
pub open spec fn is_split_of(
    node: &Node,
    groups: Seq<Cluster>,
    constant: int,
    r: Option<Split>,
) -> bool {
    match r {
        Some(d) => d.constant == constant && d.by_enumeration && d.pieces@.len() == groups.len()
            && forall|i: int|
            0 <= i < groups.len() ==> clusters::is_cluster_piece(
                node.term_status@,
                groups[i],
                #[trigger] d.pieces@[i],
            ),
        None => !(i64::MIN <= constant <= i64::MAX),
    }
}

/// A piece for every cluster of at most `max_vars` variables, up to the limit of
/// variables; none when the constant does not fit.
pub fn split_clusters<V: VarDomain>(
    instance: &HuboInstance<V>,
    node: &Node,
    max_vars: usize,
) -> (r: Option<Split>)
    requires
        instance.wf(),
        instance.fits(),
        node.describes(instance),
    ensures
        exists|order: Seq<usize>, groups: Seq<Cluster>, skipped: Seq<usize>, constant: int|
            #[trigger] is_cluster_split(
                instance,
                node,
                cluster_limit(max_vars),
                order,
                groups,
                skipped,
                constant,
            ) && is_split_of(node, groups, constant, r),
        r matches Some(d) ==> splits(instance, node, d),
{
    let limit: usize = if max_vars < clusters::MAX_CLUSTER_VARS {
        max_vars
    } else {
        clusters::MAX_CLUSTER_VARS
    };
    let n_terms: usize = instance.terms.len();
    let fixed: i64 = clusters::constant_part(instance, node);
    let (groups, skipped) = clusters::build_clusters(instance, node, limit);
    let ghost s = node.term_status@;
    let ghost order = choose|order: Seq<usize>| #[trigger]
        clusters::are_clusters(s, order, limit as int, groups@, skipped@);
    proof {
        clusters::lemma_left_out(s, order, limit as int, order.len());
        clusters::lemma_floor_range(V::tag(), s, skipped@, skipped@.len());
    }
    let n_skipped: usize = skipped.len();
    let floor: i128 = clusters::skipped_floor(V::var_type(), node, &skipped);
    let pieces = clusters::cluster_pieces(instance, node, &groups);
    proof {
        let m: int = i64::MIN as int;
        assert(n_skipped * m >= usize::MAX * m) by (nonlinear_arith)
            requires
                n_skipped <= usize::MAX,
                m < 0,
        ;
    }
    let total: i128 = fixed as i128 + floor;
    assert(is_cluster_split(
        instance,
        node,
        cluster_limit(max_vars),
        order,
        groups@,
        skipped@,
        total as int,
    ));
    let r: Option<Split> = match coeff::from_i128_checked(total) {
        None => None,
        Some(constant) => {
            let d = Split { constant, pieces, by_enumeration: true };
            proof {
                assert forall|x: Seq<bool>| #[trigger]
                    node::extends(x, node.fixed@) implies d.constant + lagrangian::pieces_value(
                    V::tag(),
                    d.pieces@,
                    x,
                    d.pieces@.len(),
                ) <= instance.objective(x) by {
                    assert(clusters::clusters_value(
                        V::tag(),
                        s,
                        clusters::cluster_views(groups@),
                        x,
                    ) + clusters::listed_value(V::tag(), s, skipped@, x)
                        == clusters::listed_value(
                        V::tag(),
                        s,
                        clusters::counting(s, s.len()),
                        x,
                    ));
                    clusters::clusters_bound_objective(
                        instance,
                        node,
                        order,
                        limit as int,
                        groups@,
                        skipped@,
                        d.pieces@,
                        x,
                    );
                }
                assert(splits(instance, node, d));
            }
            Some(d)
        },
    };
    assert(is_split_of(node, groups@, total as int, r));
    r
}

/// The size of a piece, or one more than the largest coefficient when it is
/// larger.
fn capped_size(p: &Piece, mu: &Vec<i64>, unit: i64) -> (r: i128)
    requires
        unit >= 1,
    ensures
        lagrangian::piece_size(unit as int, *p, mu@) <= i64::MAX ==> r == lagrangian::piece_size(
            unit as int,
            *p,
            mu@,
        ),
        lagrangian::piece_size(unit as int, *p, mu@) > i64::MAX ==> r == i64::MAX + 1,
{
    let over: i128 = i64::MAX as i128 + 1;
    let u: i128 = unit as i128;
    let ghost total = lagrangian::piece_size(unit as int, *p, mu@);
    let mut sum: i128 = 0;
    let mut i: usize = 0;
    proof {
        assert(p.terms@.take(0) =~= Seq::empty());
        assert(unit * 0 == 0);
        local_min::lemma_size_sum(mu@, 0, mu@.len());
    }
    while i < p.terms.len()
        invariant
            i <= p.terms@.len(),
            u == unit,
            unit >= 1,
            over == i64::MAX + 1,
            total == lagrangian::piece_size(unit as int, *p, mu@),
            local_min::size_sum(mu@, mu@.len()) >= 0,
            sum == unit * term::abs_sum(p.terms@.take(i as int)),
            0 <= sum <= i64::MAX,
        decreases p.terms@.len() - i,
    {
        let c: i128 = p.terms[i].coeff as i128;
        let size: i128 = if c < 0 {
            -c
        } else {
            c
        };
        proof {
            assert(p.terms@.take(i + 1).drop_last() =~= p.terms@.take(i as int));
            term::lemma_abs_sum_take(p.terms@, i + 1);
            let s0 = term::abs_sum(p.terms@.take(i as int));
            let s1 = term::abs_sum(p.terms@.take(i + 1));
            let sa = term::abs_sum(p.terms@);
            assert(u * s1 == u * s0 + u * size && u * s1 <= u * sa && 0 <= u * size
                <= 0x4000_0000_0000_0000_0000_0000_0000_0000) by (nonlinear_arith)
                requires
                    s1 == s0 + size,
                    s1 <= sa,
                    1 <= u <= 0x7fff_ffff_ffff_ffff,
                    0 <= size <= 0x8000_0000_0000_0000,
            ;
        }
        sum = sum + u * size;
        i += 1;
        if sum > i64::MAX as i128 {
            return over;
        }
    }
    assert(p.terms@.take(i as int) =~= p.terms@);
    let ghost terms_part = sum as int;
    let mut j: usize = 0;
    while j < mu.len()
        invariant
            j <= mu@.len(),
            over == i64::MAX + 1,
            total == lagrangian::piece_size(unit as int, *p, mu@),
            terms_part == unit * term::abs_sum(p.terms@),
            sum == terms_part + local_min::size_sum(mu@, j as nat),
            0 <= sum <= i64::MAX,
        decreases mu@.len() - j,
    {
        let v: i128 = mu[j] as i128;
        proof {
            local_min::lemma_size_sum(mu@, (j + 1) as nat, mu@.len());
        }
        sum = sum + (if v < 0 {
            -v
        } else {
            v
        });
        j += 1;
        if sum > i64::MAX as i128 {
            return over;
        }
    }
    sum
}

/// Whether there is a multiplier for every variable of every piece.
fn has_multipliers(pieces: &Vec<Piece>, mus: &Vec<Vec<i64>>) -> (r: bool)
    ensures
        r == (mus@.len() == pieces@.len() && forall|i: int|
            0 <= i < pieces@.len() ==> (#[trigger] mus@[i])@.len() == pieces@[i].vars@.len()),
{
    if mus.len() != pieces.len() {
        return false;
    }
    let mut i: usize = 0;
    while i < pieces.len()
        invariant
            i <= pieces@.len(),
            mus@.len() == pieces@.len(),
            forall|j: int|
                0 <= j < i ==> (#[trigger] mus@[j])@.len() == pieces@[j].vars@.len(),
        decreases pieces@.len() - i,
    {
        if mus[i].len() != pieces[i].vars.len() {
            assert(mus@[i as int]@.len() != pieces@[i as int].vars@.len());
            return false;
        }
        i += 1;
    }
    true
}

/// Whether the bound fits.
fn fits_bound(d: &Split, mus: &Vec<Vec<i64>>, unit: i64, n: Ghost<nat>) -> (r: bool)
    requires
        unit >= 1,
        lagrangian::are_priced(n@, d.pieces@, mus@),
    ensures
        r == lagrangian::dual_fits(unit as int, d.constant as int, d.pieces@, mus@),
{
    let ghost u = unit as int;
    let c: i128 = d.constant as i128;
    let size: i128 = if c < 0 {
        -c
    } else {
        c
    };
    proof {
        assert(0 <= u * size <= 0x4000_0000_0000_0000_0000_0000_0000_0000 && (c < 0 ==> u * c
            == -(u * size)) && (c >= 0 ==> u * c == u * size)) by (nonlinear_arith)
            requires
                1 <= u <= 0x7fff_ffff_ffff_ffff,
                0 <= size <= 0x8000_0000_0000_0000,
                size == if c < 0 { -c as int } else { c as int },
        ;
        lagrangian::lemma_total_prefix(u, d.pieces@, mus@, n@, 0, d.pieces@.len());
    }
    let start: i128 = unit as i128 * size;
    if start > i64::MAX as i128 {
        return false;
    }
    let mut sum: i128 = start;
    let mut i: usize = 0;
    while i < d.pieces.len()
        invariant
            i <= d.pieces@.len(),
            u == unit,
            unit >= 1,
            lagrangian::are_priced(n@, d.pieces@, mus@),
            start == term::abs(u * d.constant),
            0 <= start,
            sum == start + 2 * lagrangian::total_size(u, d.pieces@, mus@, i as nat),
            sum <= i64::MAX,
            0 <= lagrangian::total_size(u, d.pieces@, mus@, i as nat),
        decreases d.pieces@.len() - i,
    {
        let v: i128 = capped_size(&d.pieces[i], &mus[i], unit);
        proof {
            lagrangian::lemma_total_prefix(u, d.pieces@, mus@, n@, i as nat, (i + 1) as nat);
            lagrangian::lemma_total_prefix(
                u,
                d.pieces@,
                mus@,
                n@,
                (i + 1) as nat,
                d.pieces@.len(),
            );
        }
        sum = sum + 2 * v;
        i += 1;
        if sum > i64::MAX as i128 {
            return false;
        }
    }
    true
}

/// The bound at some multipliers, with the minimisers that it comes from; none
/// when a multiplier is missing or the bound does not fit.
pub fn bound_at<V: VarDomain>(
    instance: &HuboInstance<V>,
    node: &Node,
    d: &Split,
    mus: &Vec<Vec<i64>>,
    unit: i64,
) -> (r: Option<(i64, DualPoint)>)
    requires
        instance.wf(),
        node.describes(instance),
        splits(instance, node, *d),
        unit >= 1,
    ensures
        ({
            let n = instance.n() as nat;
            match r {
                Some(p) => {
                    &&& lagrangian::are_priced(n, d.pieces@, mus@)
                    &&& lagrangian::dual_fits(unit as int, d.constant as int, d.pieces@, mus@)
                    &&& p.1.value == lagrangian::dual_total(
                        V::tag(),
                        n,
                        unit as int,
                        d.constant as int,
                        d.pieces@,
                        mus@,
                    )
                    &&& lagrangian::are_minimizers(
                        V::tag(),
                        n,
                        unit as int,
                        d.by_enumeration,
                        d.pieces@,
                        mus@,
                        p.1,
                    )
                    &&& p.0 == (if lagrangian::unit_bound(p.1.value as int, unit as int)
                        < i64::MIN {
                        i64::MIN as int
                    } else {
                        lagrangian::unit_bound(p.1.value as int, unit as int)
                    })
                    &&& crate::bounds::bounds_below(instance, node.fixed@, p.0 as int)
                },
                None => !lagrangian::are_priced(n, d.pieces@, mus@) || !lagrangian::dual_fits(
                    unit as int,
                    d.constant as int,
                    d.pieces@,
                    mus@,
                ),
            }
        }),
{
    let n: usize = instance.n_vars();
    if !has_multipliers(&d.pieces, mus) {
        return None;
    }
    if !fits_bound(d, mus, unit, Ghost(n as nat)) {
        return None;
    }
    let p = lagrangian::dual_at::<V>(n, unit, d.constant, &d.pieces, mus, d.by_enumeration);
    proof {
        lagrangian::lemma_dual_size(
            V::tag(),
            n as nat,
            unit as int,
            d.constant as int,
            d.pieces@,
            mus@,
        );
    }
    let b: i64 = lagrangian::bound_of(p.value, unit);
    proof {
        assert forall|x: Seq<bool>| #[trigger] node::extends(x, node.fixed@) implies b
            <= instance.objective(x) by {
            lagrangian::dual_is_valid(
                V::tag(),
                n as nat,
                unit as int,
                d.constant as int,
                d.pieces@,
                mus@,
                x,
            );
            let v = d.constant + lagrangian::pieces_value(
                V::tag(),
                d.pieces@,
                x,
                d.pieces@.len(),
            );
            let o = instance.objective(x);
            assert(b <= v) by (nonlinear_arith)
                requires
                    unit * b <= p.value,
                    p.value <= unit * v,
                    unit >= 1,
            ;
        }
    }
    Some((b, p))
}

} // verus!
