//! Lower bounds of search-tree nodes.

pub mod ascent;
pub mod cheap;
pub mod clusters;
pub mod core_laws;
pub mod cover;
pub mod dual_laws;
pub mod factor;
pub mod gray;
pub mod hittingset;
pub mod lagrangian;
pub mod local_min;
pub mod lp;
pub mod message_ascent;
pub mod message_laws;
pub mod moment_laws;
pub mod product_lp;
pub mod program_laws;
pub mod psd;
pub mod psd_cliques;
pub mod residual_roof;
pub mod rlt;
pub mod sherali_adams;
pub mod solved;
pub mod srmp;
pub mod srmp_laws;
pub mod subgradient;
pub mod trwbp;

use crate::bounds::cheap::Cheap;
use crate::coeff;
use crate::domain::{VarDomain, VarType};
use crate::granularity;
use crate::instance::HuboInstance;
use crate::instance;
use crate::node::Node;
use crate::node;
use vstd::prelude::*;

verus! {

/// `lb` is at most the objective of every completion of `f`.
pub open spec fn bounds_below<V: VarDomain>(
    instance: &HuboInstance<V>,
    f: Seq<Option<bool>>,
    lb: int,
) -> bool {
    forall|x: Seq<bool>| #[trigger] node::extends(x, f) ==> lb <= instance.objective(x)
}

/// What is left of the instance at a node is as it was.
pub open spec fn same_problem(a: &Node, b: &Node) -> bool {
    &&& a.fixed == b.fixed
    &&& a.lb == b.lb
    &&& a.offset == b.offset
    &&& a.term_status == b.term_status
}

/// A way to bound the objective of all completions of a node's fixes.
pub trait LowerBound<V: VarDomain>: Sized {
    /// `b` is the bound of the node that is computed; `ub` is the best objective
    /// known.
    spec fn is_bound(
        &self,
        instance: &HuboInstance<V>,
        node: &Node,
        ub: Option<i64>,
        b: int,
    ) -> bool;

    /// `core` is the parity contradiction that comes with the bound `b`.
    spec fn is_core(
        &self,
        instance: &HuboInstance<V>,
        node: &Node,
        b: int,
        core: Option<Seq<usize>>,
    ) -> bool;

    /// A lower bound of the node; `incumbent_ub` is the best objective known.
    fn compute(
        &self,
        instance: &HuboInstance<V>,
        node: &mut Node,
        incumbent_ub: Option<i64>,
    ) -> (r: i64)
        requires
            instance.wf(),
            instance.fits(),
            instance.n() < usize::MAX,
            old(node).describes(instance),
        ensures
            self.is_bound(instance, old(node), incumbent_ub, r as int),
            bounds_below(instance, old(node).fixed@, r as int),
            final(node).describes(instance),
            same_problem(old(node), final(node)),
    ;

    /// A lower bound, and a parity contradiction where finding the bound gave
    /// one.
    fn compute_with_core(
        &self,
        instance: &HuboInstance<V>,
        node: &mut Node,
        incumbent_ub: Option<i64>,
    ) -> (r: (i64, Option<Vec<usize>>))
        requires
            instance.wf(),
            instance.fits(),
            instance.n() < usize::MAX,
            old(node).describes(instance),
        ensures
            self.is_bound(instance, old(node), incumbent_ub, r.0 as int),
            self.is_core(instance, old(node), r.0 as int, cheap::core_view(r.1)),
            bounds_below(instance, old(node).fixed@, r.0 as int),
            r.1 matches Some(core) ==> cheap::is_term_core(
                instance.terms@,
                old(node).term_status@,
                instance.n() as nat,
                core@,
            ),
            final(node).describes(instance),
            same_problem(old(node), final(node)),
    ;

    /// Prepare the node for the bound.
    fn warmstart(&self, instance: &HuboInstance<V>, node: &mut Node)
        requires
            old(node).describes(instance),
        ensures
            final(node).describes(instance),
            same_problem(old(node), final(node)),
        default_ensures
            *final(node) == *old(node),
    {
    }

    /// The contradiction stored in the node, if the bound keeps one.
    fn branch_hint(&self, instance: &HuboInstance<V>, node: &Node) -> (r: Option<Vec<usize>>)
        ensures
            r matches Some(h) ==> (node.core_hint matches Some(c) && h@ == c@),
        default_ensures
            r is None,
    {
        None
    }
}

impl<V: VarDomain> LowerBound<V> for Cheap {
    open spec fn is_bound(
        &self,
        instance: &HuboInstance<V>,
        node: &Node,
        ub: Option<i64>,
        b: int,
    ) -> bool {
        cheap::is_cheap_bound(instance, node, b)
    }

    /// The first contradiction; there is one exactly when the bound beats the
    /// termwise one.
    open spec fn is_core(
        &self,
        instance: &HuboInstance<V>,
        node: &Node,
        b: int,
        core: Option<Seq<usize>>,
    ) -> bool {
        &&& cheap::is_cheap_result(instance, node, b, core)
        &&& core is Some <==> b > cheap::base_bound(instance, node)
    }

    fn compute(
        &self,
        instance: &HuboInstance<V>,
        node: &mut Node,
        incumbent_ub: Option<i64>,
    ) -> (r: i64)
    {
        let n_terms: usize = instance.terms.len();
        let r: i64 = cheap::compute(instance, node);
        proof {
            lemma_cheap_bounds(instance, old(node), r as int);
        }
        r
    }

    fn compute_with_core(
        &self,
        instance: &HuboInstance<V>,
        node: &mut Node,
        incumbent_ub: Option<i64>,
    ) -> (r: (i64, Option<Vec<usize>>))
        ensures
            cheap::keeps_core(old(node), cheap::core_view(r.1), final(node)),
    {
        let n_terms: usize = instance.terms.len();
        let r = cheap::compute_with_core(instance, node);
        proof {
            lemma_cheap_bounds(instance, old(node), r.0 as int);
        }
        r
    }

    fn branch_hint(&self, instance: &HuboInstance<V>, node: &Node) -> (r: Option<Vec<usize>>)
        ensures
            r is Some <==> node.core_hint is Some,
            r matches Some(h) ==> (node.core_hint matches Some(c) && h@ == c@),
    {
        match &node.core_hint {
            Some(h) => Some(h.clone()),
            None => None,
        }
    }
}

/// The cheap bound holds of every completion.
pub proof fn lemma_cheap_bounds<V: VarDomain>(instance: &HuboInstance<V>, node: &Node, lb: int)
    requires
        instance.wf(),
        instance.n() <= usize::MAX,
        instance.terms@.len() <= usize::MAX,
        node.describes(instance),
        cheap::is_cheap_bound(instance, node, lb),
    ensures
        bounds_below(instance, node.fixed@, lb),
{
    assert forall|x: Seq<bool>| #[trigger] node::extends(x, node.fixed@) implies lb
        <= instance.objective(x) by {
        cheap::cheap_bound_is_valid(instance, node, lb, x);
    }
}

/// The larger of a given bound and the cheap one: what every bound that is
/// computed elsewhere is combined to.
pub fn max_with_cheap<V: VarDomain>(
    instance: &HuboInstance<V>,
    node: &mut Node,
    other: i64,
) -> (r: i64)
    requires
        instance.wf(),
        instance.fits(),
        instance.n() < usize::MAX,
        old(node).describes(instance),
    ensures
        exists|c: int| #[trigger]
            cheap::is_cheap_bound(instance, old(node), c) && r == (if other > c {
                other as int
            } else {
                c
            }),
        bounds_below(instance, old(node).fixed@, other as int) ==> bounds_below(
            instance,
            old(node).fixed@,
            r as int,
        ),
        final(node).describes(instance),
        same_problem(old(node), final(node)),
{
    let n_terms: usize = instance.terms.len();
    let c: i64 = cheap::compute(instance, node);
    proof {
        lemma_cheap_bounds(instance, old(node), c as int);
        assert(cheap::is_cheap_bound(instance, old(node), c as int));
    }
    coeff::max_of(other, c)
}

/// Prepare a node for the configured bound.
pub fn warmstart_lower_bound<V: VarDomain, Lb: LowerBound<V>>(
    node: &mut Node,
    lb: &Lb,
    instance: &HuboInstance<V>,
)
    requires
        old(node).describes(instance),
    ensures
        final(node).describes(instance),
        same_problem(old(node), final(node)),
{
    lb.warmstart(instance, node);
}

/// The configured bound of a node, rounded up to the objective grid.
pub fn compute_node_lb<V: VarDomain, Lb: LowerBound<V>>(
    node: &mut Node,
    lb: &Lb,
    incumbent_ub: Option<i64>,
    instance: &HuboInstance<V>,
) -> (r: i64)
    requires
        instance.wf(),
        instance.fits(),
        instance.n() < usize::MAX,
        old(node).describes(instance),
        instance.grid_wf(),
    ensures
        exists|b: i64| #[trigger]
            rounds_to(instance, b, r as int) && lb.is_bound(
                instance,
                old(node),
                incumbent_ub,
                b as int,
            ),
        bounds_below(instance, old(node).fixed@, r as int),
        final(node).describes(instance),
        same_problem(old(node), final(node)),
{
    let b: i64 = lb.compute(instance, node, incumbent_ub);
    let r: i64 = instance.round_lower_bound_to_objective_grid(b);
    proof {
        assert(rounds_to(instance, b, r as int));
        rounding_keeps_bounds(instance, old(node).fixed@, b, r as int);
    }
    r
}

/// The configured bound of a node, rounded up to the objective grid, and the
/// contradiction found on the way.
pub fn compute_node_lb_with_core<V: VarDomain, Lb: LowerBound<V>>(
    node: &mut Node,
    lb: &Lb,
    incumbent_ub: Option<i64>,
    instance: &HuboInstance<V>,
) -> (r: (i64, Option<Vec<usize>>))
    requires
        instance.wf(),
        instance.fits(),
        instance.n() < usize::MAX,
        old(node).describes(instance),
        instance.grid_wf(),
    ensures
        exists|b: i64| #[trigger]
            rounds_to(instance, b, r.0 as int) && lb.is_bound(
                instance,
                old(node),
                incumbent_ub,
                b as int,
            ) && lb.is_core(instance, old(node), b as int, cheap::core_view(r.1)),
        bounds_below(instance, old(node).fixed@, r.0 as int),
        r.1 matches Some(core) ==> cheap::is_term_core(
            instance.terms@,
            old(node).term_status@,
            instance.n() as nat,
            core@,
        ),
        final(node).describes(instance),
        same_problem(old(node), final(node)),
{
    let (b, core) = lb.compute_with_core(instance, node, incumbent_ub);
    let rounded: i64 = instance.round_lower_bound_to_objective_grid(b);
    let r = (rounded, core);
    proof {
        assert(rounds_to(instance, b, r.0 as int));
        rounding_keeps_bounds(instance, old(node).fixed@, b, r.0 as int);
    }
    r
}

/// Rounding `b` up to the grid gives `r`.
pub open spec fn rounds_to<V: VarDomain>(instance: &HuboInstance<V>, b: i64, r: int) -> bool {
    r == instance::rounded_bound(instance.objective_granularity, instance.objective_grid_base, b)
}

/// A rounded bound is still a lower bound.
pub proof fn rounding_keeps_bounds<V: VarDomain>(
    instance: &HuboInstance<V>,
    f: Seq<Option<bool>>,
    b: i64,
    r: int,
)
    requires
        instance.wf(),
        instance.grid_wf(),
        f.len() == instance.n(),
        rounds_to(instance, b, r),
        bounds_below(instance, f, b as int),
    ensures
        r >= b,
        bounds_below(instance, f, r),
{
    match instance.objective_granularity {
        Some(g) => {
            let base = instance.objective_grid_base as int;
            coeff::rounding_is_sound(b as int, base, g as int, 0);
            assert forall|x: Seq<bool>| #[trigger] node::extends(x, f) implies r
                <= instance.objective(x) by {
                granularity::values_lie_on_grid(
                    V::tag(),
                    instance.offset as int,
                    instance.terms@,
                    g as int,
                    x,
                );
                coeff::rounding_is_sound(b as int, base, g as int, instance.objective(x));
            }
        },
        None => {},
    }
}

} // verus!
