//! Splitting an instance into independent components.

use crate::delta;
use crate::domain::{VarDomain, VarType};
use crate::instance::HuboInstance;
use crate::instance;
use crate::kernelization::components;
use crate::reach;
use crate::restriction;
use crate::sets;
use crate::term::Term;
use crate::term;
use crate::views;
use std::marker::PhantomData;
use vstd::prelude::*;

verus! {

/// One independent part of an instance.
#[derive(Debug)]
pub struct ComponentSplit<V> {
    pub sub_instance: HuboInstance<V>,
    /// The original variable of each variable of the part.
    pub new_to_old: Vec<usize>,
}

/// The variables below `k` of component `c`, ascending.
pub open spec fn members(comp: Seq<usize>, c: usize, k: nat) -> Seq<usize>
    decreases k,
{
    if k == 0 {
        Seq::empty()
    } else if comp[k - 1] == c {
        members(comp, c, (k - 1) as nat).push((k - 1) as usize)
    } else {
        members(comp, c, (k - 1) as nat)
    }
}

/// The place of each variable within its component.
pub open spec fn places(comp: Seq<usize>) -> Seq<usize> {
    Seq::new(comp.len(), |v: int| members(comp, comp[v], v as nat).len() as usize)
}

/// The listed variables renamed.
pub open spec fn renamed(idx: Seq<usize>, map: Seq<usize>) -> Seq<usize> {
    Seq::new(idx.len(), |i: int| map[idx[i] as int])
}

/// The component of a term. Constant terms belong to the first one.
pub open spec fn home_of(comp: Seq<usize>, idx: Seq<usize>) -> usize {
    if idx.len() == 0 {
        0
    } else {
        comp[idx[0] as int]
    }
}

/// The first `k` terms that belong to component `c`, renamed.
pub open spec fn component_terms(
    terms: Seq<Term>,
    comp: Seq<usize>,
    c: usize,
    k: nat,
) -> Seq<(Seq<usize>, i64)>
    decreases k,
{
    if k == 0 {
        Seq::empty()
    } else {
        let t = terms[k - 1];
        if home_of(comp, t.indices@) == c {
            component_terms(terms, comp, c, (k - 1) as nat).push(
                (renamed(t.indices@, places(comp)), t.coeff),
            )
        } else {
            component_terms(terms, comp, c, (k - 1) as nat)
        }
    }
}

/// The part of component `c`.
pub open spec fn is_part<V: VarDomain>(
    instance: &HuboInstance<V>,
    comp: Seq<usize>,
    c: usize,
    part: ComponentSplit<V>,
) -> bool {
    &&& part.new_to_old@ == members(comp, c, comp.len())
    &&& part.sub_instance.wf()
    &&& part.sub_instance.fits()
    &&& part.sub_instance.grid_wf()
    &&& part.sub_instance.n() == part.new_to_old@.len()
    &&& part.sub_instance.offset == (if c == 0 {
        instance.offset
    } else {
        0
    })
    &&& views::term_views(part.sub_instance.terms@) == views::sorted_views(
        component_terms(instance.terms@, comp, c, instance.terms@.len()),
    )
}

/// The same instance.
pub open spec fn same_instance<V>(a: &HuboInstance<V>, b: &HuboInstance<V>) -> bool {
    &&& a.offset == b.offset
    &&& views::term_views(a.terms@) == views::term_views(b.terms@)
    &&& a.n() == b.n()
    &&& a.wf() == b.wf()
    &&& a.objective_granularity == b.objective_granularity
    &&& a.objective_grid_base == b.objective_grid_base
}

/// The components of an instance.
pub open spec fn is_component_map<V>(instance: &HuboInstance<V>, comp: Seq<usize>) -> bool {
    &&& comp.len() == instance.n()
    &&& reach::first_appearance(comp)
    &&& forall|u: usize, v: usize|
        u < instance.n() && v < instance.n() ==> (comp[u as int] == comp[v as int])
            == #[trigger] reach::connected(components::co_listed(instance.terms@, instance.terms@.len()), u, v)
}

/// The parts of an instance: a copy when it is connected, otherwise one part
/// per component.
pub open spec fn is_split<V: VarDomain>(
    instance: &HuboInstance<V>,
    comp: Seq<usize>,
    parts: Seq<ComponentSplit<V>>,
) -> bool {
    if reach::next_label(comp, comp.len()) <= 1 {
        &&& parts.len() == 1
        &&& same_instance(instance, &parts[0].sub_instance)
        &&& parts[0].new_to_old@ == Seq::new(instance.n() as nat, |i: int| i as usize)
    } else {
        &&& parts.len() == reach::next_label(comp, comp.len())
        &&& forall|c: int|
            0 <= c < parts.len() ==> is_part(instance, comp, c as usize, #[trigger] parts[c])
    }
}

impl<V> Clone for HuboInstance<V> {
    fn clone(&self) -> (r: Self)
        ensures
            same_instance(self, &r),
            views::term_views(r.terms@) == views::term_views(self.terms@),
    {
        let mut terms: Vec<Term> = Vec::new();
        let mut k: usize = 0;
        while k < self.terms.len()
            invariant
                k <= self.terms@.len(),
                terms@.len() == k,
                forall|i: int|
                    0 <= i < k ==> (#[trigger] terms@[i]).indices@ == self.terms@[i].indices@
                        && terms@[i].coeff == self.terms@[i].coeff,
            decreases self.terms@.len() - k,
        {
            terms.push(self.terms[k].clone());
            k += 1;
        }
        let mut var_terms: Vec<Vec<usize>> = Vec::new();
        let mut v: usize = 0;
        while v < self.var_terms.len()
            invariant
                v <= self.var_terms@.len(),
                var_terms@.len() == v,
                forall|i: int|
                    0 <= i < v ==> (#[trigger] var_terms@[i])@ == self.var_terms@[i]@,
            decreases self.var_terms@.len() - v,
        {
            var_terms.push(self.var_terms[v].clone());
            v += 1;
        }
        let r = HuboInstance {
            offset: self.offset,
            terms,
            var_terms,
            objective_granularity: self.objective_granularity,
            objective_grid_base: self.objective_grid_base,
            domain: PhantomData,
        };
        proof {
            assert(views::term_views(r.terms@) =~= views::term_views(self.terms@));
            if self.wf() {
                lemma_wf_views(self, &r);
            }
            if r.wf() {
                lemma_wf_views(&r, self);
            }
        }
        r
    }
}

/// Well-formedness depends on the plain values alone.
proof fn lemma_wf_views<V>(a: &HuboInstance<V>, b: &HuboInstance<V>)
    requires
        views::term_views(a.terms@) == views::term_views(b.terms@),
        a.var_terms@.len() == b.var_terms@.len(),
        forall|i: int| 0 <= i < a.var_terms@.len() ==> a.var_terms@[i]@ == b.var_terms@[i]@,
        a.wf(),
    ensures
        b.wf(),
{
    let ta = a.terms@;
    let tb = b.terms@;
    assert(views::term_views(ta).len() == views::term_views(tb).len());
    assert forall|i: int| 0 <= i < tb.len() implies #[trigger] tb[i].indices@ == ta[i].indices@ by {
        assert(views::term_views(ta)[i] == views::term_views(tb)[i]);
    }
    assert(term::terms_below(tb, b.n())) by {
        assert forall|i: int| 0 <= i < tb.len() implies term::indices_below(
            (#[trigger] tb[i]).indices@,
            b.n(),
        ) by {
            assert(tb[i].indices@ == ta[i].indices@);
            assert(term::indices_below(ta[i].indices@, a.n()));
        }
    }
    assert(term::terms_distinct(tb)) by {
        assert forall|i: int| 0 <= i < tb.len() implies (
        #[trigger] tb[i]).indices@.no_duplicates() by {
            assert(tb[i].indices@ == ta[i].indices@);
            assert(ta[i].indices@.no_duplicates());
        }
    }
    assert forall|v: int| 0 <= v < b.var_terms@.len() implies #[trigger] b.var_terms@[v]@
        == instance::incidence(tb, v as usize, tb.len()) by {
        assert(a.var_terms@[v]@ == b.var_terms@[v]@);
        lemma_incidence_same(ta, tb, v as usize, tb.len());
    }
}

proof fn lemma_incidence_same(a: Seq<Term>, b: Seq<Term>, v: usize, k: nat)
    requires
        k <= a.len(),
        k <= b.len(),
        forall|i: int| 0 <= i < k ==> #[trigger] b[i].indices@ == a[i].indices@,
    ensures
        instance::incidence(a, v, k) == instance::incidence(b, v, k),
    decreases k,
{
    if k > 0 {
        lemma_incidence_same(a, b, v, (k - 1) as nat);
        assert(b[k - 1].indices@ == a[k - 1].indices@);
    }
}

/// Membership and order of a component's variables.
proof fn lemma_members(comp: Seq<usize>, c: usize, k: nat)
    requires
        k <= comp.len(),
        comp.len() <= usize::MAX,
    ensures
        sets::ascending(members(comp, c, k)),
        forall|i: int|
            0 <= i < members(comp, c, k).len() ==> (#[trigger] members(comp, c, k)[i]) < k && comp[members(
                comp,
                c,
                k,
            )[i] as int] == c,
        forall|v: int|
            0 <= v < k && #[trigger] comp[v] == c ==> members(comp, c, v as nat).len() < members(
                comp,
                c,
                k,
            ).len() && members(comp, c, k)[members(comp, c, v as nat).len() as int] == v,
        members(comp, c, k).len() <= k,
    decreases k,
{
    if k > 0 {
        lemma_members(comp, c, (k - 1) as nat);
    }
}

/// Variables that share a term share a component.
proof fn lemma_same_component<V>(instance: &HuboInstance<V>, comp: Seq<usize>, t: int)
    requires
        instance.wf(),
        is_component_map(instance, comp),
        0 <= t < instance.terms@.len(),
    ensures
        forall|i: int|
            0 <= i < instance.terms@[t].indices@.len() ==> comp[(
            #[trigger] instance.terms@[t].indices@[i]) as int]
                == comp[instance.terms@[t].indices@[0] as int],
{
    let idx = instance.terms@[t].indices@;
    let link = components::co_listed(instance.terms@, instance.terms@.len());
    assert(term::indices_below(idx, instance.n()));
    assert forall|i: int| 0 <= i < idx.len() implies comp[(#[trigger] idx[i]) as int]
        == comp[idx[0] as int] by {
        assert(idx.contains(idx[i]));
        assert(idx.contains(idx[0]));
        assert(link(idx[i], idx[0])) by {
            assert(instance.terms@[t].indices@.contains(idx[i]));
        }
        reach::lemma_connected_link(link, idx[i], idx[0]);
        assert(idx[i] < instance.n() && idx[0] < instance.n());
        assert((comp[idx[i] as int] == comp[idx[0] as int]) == reach::connected(link, idx[i], idx[0]));
    }
}

/// The renamed terms of a component are terms over its variables.
proof fn lemma_component_terms<V>(
    instance: &HuboInstance<V>,
    comp: Seq<usize>,
    c: usize,
    k: nat,
)
    requires
        instance.wf(),
        is_component_map(instance, comp),
        instance.n() <= usize::MAX,
        k <= instance.terms@.len(),
    ensures
        forall|i: int|
            0 <= i < component_terms(instance.terms@, comp, c, k).len() ==> term::indices_below(
                (#[trigger] component_terms(instance.terms@, comp, c, k)[i]).0,
                members(comp, c, comp.len()).len() as int,
            ) && component_terms(instance.terms@, comp, c, k)[i].0.no_duplicates(),
        views::view_abs(component_terms(instance.terms@, comp, c, k)) <= term::abs_sum(
            instance.terms@.take(k as int),
        ),
    decreases k,
{
    let terms = instance.terms@;
    if k > 0 {
        let k1 = (k - 1) as nat;
        lemma_component_terms(instance, comp, c, k1);
        assert(terms.take(k as int).drop_last() =~= terms.take(k1 as int));
        let t = terms[k1 as int];
        let idx = t.indices@;
        let r = component_terms(terms, comp, c, k);
        let p = component_terms(terms, comp, c, k1);
        if home_of(comp, idx) == c {
            let e = renamed(idx, places(comp));
            lemma_same_component(instance, comp, k1 as int);
            lemma_members(comp, c, comp.len());
            assert(term::indices_below(idx, instance.n()));
            assert(idx.no_duplicates());
            assert forall|i: int| 0 <= i < e.len() implies (#[trigger] e[i]) < members(
                comp,
                c,
                comp.len(),
            ).len() && members(comp, c, comp.len())[e[i] as int] == idx[i] by {
                let v = idx[i] as int;
                assert(idx[i] < instance.n());
                assert(comp[v] == c);
                lemma_members(comp, c, v as nat);
                assert(places(comp)[v] == members(comp, comp[v], v as nat).len() as usize);
            }
            assert(e.no_duplicates()) by {
                assert forall|i: int, j: int| 0 <= i < j < e.len() implies e[i] != e[j] by {
                    assert(idx[i] != idx[j]);
                    assert(members(comp, c, comp.len())[e[i] as int] == idx[i]);
                    assert(members(comp, c, comp.len())[e[j] as int] == idx[j]);
                }
            }
            assert(r.drop_last() =~= p);
            assert forall|i: int| 0 <= i < r.len() implies term::indices_below(
                (#[trigger] r[i]).0,
                members(comp, c, comp.len()).len() as int,
            ) && r[i].0.no_duplicates() by {
                if i < p.len() {
                    assert(r[i] == p[i]);
                } else {
                    assert(r[i].0 == e);
                }
            }
        }
    } else {
        assert(terms.take(0) =~= Seq::empty());
    }
}

/// Split an instance into its independent components. The offset and the constant
/// terms go to the first part.
pub fn split_into_components<V: VarDomain>(instance: &HuboInstance<V>) -> (r: Vec<
    ComponentSplit<V>,
>)
    requires
        instance.wf(),
        instance.fits(),
    ensures
        exists|comp: Seq<usize>| #[trigger]
            is_component_map(instance, comp) && is_split(instance, comp, r@),
{
    let comp = components::connected_components(instance);
    let n: usize = instance.n_vars();
    let ghost cs = comp@;
    let ghost terms = instance.terms@;
    proof {
        assert(is_component_map(instance, cs));
        reach::lemma_next_label(cs, cs.len());
    }
    let mut n_comps: usize = 0;
    let mut v: usize = 0;
    while v < n
        invariant
            v <= n,
            n == cs.len(),
            cs == comp@,
            reach::first_appearance(cs),
            n_comps == reach::next_label(cs, v as nat),
            n_comps <= v,
        decreases n - v,
    {
        assert(reach::in_order(cs, v as int));
        if comp[v] >= n_comps {
            n_comps = comp[v] + 1;
        }
        v += 1;
    }
    let mut splits: Vec<ComponentSplit<V>> = Vec::new();
    if n_comps <= 1 {
        let mut new_to_old: Vec<usize> = Vec::new();
        let mut i: usize = 0;
        while i < n
            invariant
                i <= n,
                new_to_old@ == Seq::new(i as nat, |j: int| j as usize),
            decreases n - i,
        {
            new_to_old.push(i);
            i += 1;
            assert(new_to_old@ =~= Seq::new(i as nat, |j: int| j as usize));
        }
        splits.push(ComponentSplit { sub_instance: instance.clone(), new_to_old });
        assert(is_split(instance, cs, splits@));
        return splits;
    }
    let mut comp_vars: Vec<Vec<usize>> = Vec::new();
    let mut comp_terms: Vec<Vec<Term>> = Vec::new();
    while comp_vars.len() < n_comps
        invariant
            comp_vars@.len() <= n_comps,
            comp_terms@.len() == comp_vars@.len(),
            forall|c: int| 0 <= c < comp_vars@.len() ==> (#[trigger] comp_vars@[c])@.len() == 0,
            forall|c: int| 0 <= c < comp_terms@.len() ==> (#[trigger] comp_terms@[c])@.len() == 0,
        decreases n_comps - comp_vars@.len(),
    {
        comp_vars.push(Vec::new());
        comp_terms.push(Vec::new());
    }
    let mut old_to_new: Vec<usize> = Vec::new();
    let mut v: usize = 0;
    proof {
        assert forall|c: int| 0 <= c < n_comps implies (#[trigger] comp_vars@[c])@ == members(
            cs,
            c as usize,
            0,
        ) by {
            assert(comp_vars@[c]@ =~= Seq::empty());
        }
    }
    while v < n
        invariant
            v <= n,
            n == cs.len(),
            cs == comp@,
            comp_vars@.len() == n_comps,
            forall|u: int| 0 <= u < n ==> (#[trigger] cs[u]) < n_comps,
            forall|c: int|
                0 <= c < n_comps ==> (#[trigger] comp_vars@[c])@ == members(
                    cs,
                    c as usize,
                    v as nat,
                ),
            old_to_new@ == places(cs).take(v as int),
        decreases n - v,
    {
        let c: usize = comp[v];
        let ghost before = comp_vars@;
        assert(cs[v as int] < n_comps);
        old_to_new.push(comp_vars[c].len());
        comp_vars[c].push(v);
        proof {
            assert(before[c as int]@ == members(cs, c, v as nat));
            assert(old_to_new@ =~= places(cs).take(v + 1));
            assert forall|d: int| 0 <= d < n_comps implies (#[trigger] comp_vars@[d])@ == members(
                cs,
                d as usize,
                (v + 1) as nat,
            ) by {
                assert(before[d]@ == members(cs, d as usize, v as nat));
                if d == c {
                    assert(comp_vars@[d]@ == before[d]@.push(v));
                } else {
                    assert(comp_vars@[d] == before[d]);
                }
            }
        }
        v += 1;
    }
    assert(old_to_new@ =~= places(cs));
    let mut t: usize = 0;
    proof {
        assert forall|c: int| 0 <= c < n_comps implies views::term_views((#[trigger] comp_terms@[c])@)
            == component_terms(terms, cs, c as usize, 0) by {
            assert(views::term_views(comp_terms@[c]@) =~= Seq::empty());
        }
    }
    while t < instance.terms.len()
        invariant
            t <= terms.len(),
            terms == instance.terms@,
            instance.wf(),
            n == instance.n(),
            n == cs.len(),
            cs == comp@,
            comp_terms@.len() == n_comps,
            forall|u: int| 0 <= u < n ==> (#[trigger] cs[u]) < n_comps,
            n_comps > 1,
            old_to_new@ == places(cs),
            forall|c: int|
                0 <= c < n_comps ==> views::term_views((#[trigger] comp_terms@[c])@) == component_terms(
                    terms,
                    cs,
                    c as usize,
                    t as nat,
                ),
        decreases terms.len() - t,
    {
        let ghost before = comp_terms@;
        let ghost idx = terms[t as int].indices@;
        assert(term::indices_below(idx, n as int));
        let c: usize = if instance.terms[t].indices.len() > 0 {
            assert(idx[0] < n);
            assert(cs[idx[0] as int] < n_comps);
            comp[instance.terms[t].indices[0]]
        } else {
            0
        };
        assert(c == home_of(cs, idx));
        let mut remapped: Vec<usize> = Vec::new();
        let mut q: usize = 0;
        while q < instance.terms[t].indices.len()
            invariant
                t < terms.len(),
                terms == instance.terms@,
                idx == terms[t as int].indices@,
                term::indices_below(idx, n as int),
                n == cs.len(),
                old_to_new@ == places(cs),
                q <= idx.len(),
                remapped@ == renamed(idx, places(cs)).take(q as int),
            decreases idx.len() - q,
        {
            assert(idx[q as int] < n);
            remapped.push(old_to_new[instance.terms[t].indices[q]]);
            q += 1;
            assert(remapped@ =~= renamed(idx, places(cs)).take(q as int));
        }
        assert(remapped@ =~= renamed(idx, places(cs)));
        let ghost e = (remapped@, terms[t as int].coeff);
        comp_terms[c].push(Term { indices: remapped, coeff: instance.terms[t].coeff });
        proof {
            assert forall|d: int| 0 <= d < n_comps implies views::term_views(
                (#[trigger] comp_terms@[d])@,
            ) == component_terms(terms, cs, d as usize, (t + 1) as nat) by {
                assert(views::term_views(before[d]@) == component_terms(
                    terms,
                    cs,
                    d as usize,
                    t as nat,
                ));
                if d == c {
                    assert(views::term_views(comp_terms@[d]@) =~= views::term_views(before[d]@).push(e));
                } else {
                    assert(comp_terms@[d] == before[d]);
                }
            }
        }
        t += 1;
    }
    let mut c: usize = 0;
    while c < n_comps
        invariant
            c <= n_comps,
            splits@.len() == c,
            instance.wf(),
            instance.fits(),
            terms == instance.terms@,
            n == instance.n(),
            n == cs.len(),
            is_component_map(instance, cs),
            comp_vars@.len() == n_comps,
            comp_terms@.len() == n_comps,
            forall|d: int|
                0 <= d < n_comps ==> (#[trigger] comp_vars@[d])@ == members(
                    cs,
                    d as usize,
                    n as nat,
                ),
            forall|d: int|
                0 <= d < n_comps ==> views::term_views((#[trigger] comp_terms@[d])@) == component_terms(
                    terms,
                    cs,
                    d as usize,
                    terms.len(),
                ),
            forall|d: int|
                0 <= d < c ==> is_part(instance, cs, d as usize, #[trigger] splits@[d]),
        decreases n_comps - c,
    {
        let vars = comp_vars[c].clone();
        let n_sub: usize = vars.len();
        let mut own: Vec<Term> = Vec::new();
        let mut q: usize = 0;
        while q < comp_terms[c].len()
            invariant
                c < n_comps,
                comp_terms@.len() == n_comps,
                q <= comp_terms@[c as int]@.len(),
                views::term_views(own@) == views::term_views(comp_terms@[c as int]@).take(q as int),
            decreases comp_terms@[c as int]@.len() - q,
        {
            let ghost own0 = own@;
            let copy = comp_terms[c][q].clone();
            let ghost e = views::term_view(copy);
            own.push(copy);
            proof {
                assert(views::term_views(own@) =~= views::term_views(own0).push(e));
                assert(e == views::term_views(comp_terms@[c as int]@)[q as int]);
            }
            q += 1;
            assert(views::term_views(own@) =~= views::term_views(comp_terms@[c as int]@).take(q as int));
        }
        assert(views::term_views(own@) =~= views::term_views(comp_terms@[c as int]@));
        let sorted = views::sort_terms(own);
        let offset: i64 = if c == 0 {
            instance.offset
        } else {
            0
        };
        let ghost sv = component_terms(terms, cs, c, terms.len());
        let ghost dummy: Seq<bool> = Seq::empty();
        proof {
            assert(comp_vars@[c as int]@ == members(cs, c, n as nat));
            lemma_component_terms(instance, cs, c, terms.len());
            assert(terms.take(terms.len() as int) =~= terms);
            views::lemma_sorted_views(V::tag(), sv, dummy);
            views::lemma_term_views(V::tag(), sorted@, dummy);
            assert(term::abs_sum(sorted@) <= term::abs_sum(terms));
            assert forall|i: int| 0 <= i < sorted@.len() implies term::indices_below(
                (#[trigger] sorted@[i]).indices@,
                n_sub as int,
            ) && sorted@[i].indices@.no_duplicates() by {
                let e = views::term_views(sorted@)[i];
                assert(e.0 == sorted@[i].indices@);
                assert(views::sorted_views(sv).contains(e));
                assert(sv.contains(e));
                let j = choose|j: int| 0 <= j < sv.len() && sv[j] == e;
                assert(term::indices_below(sv[j].0, members(cs, c, cs.len()).len() as int));
            }
            restriction::lemma_grid_base_fits(V::tag(), offset, sorted@);
            assert(term::terms_below(sorted@, n_sub as int));
            assert(term::terms_distinct(sorted@));
        }
        let sub_instance = HuboInstance::<V>::new(n_sub, offset, sorted);
        splits.push(ComponentSplit { sub_instance, new_to_old: vars });
        proof {
            assert(is_part(instance, cs, c, splits@[c as int]));
        }
        c += 1;
    }
    assert(is_split(instance, cs, splits@));
    splits
}

/// An assignment restricted to the variables of a part.
pub open spec fn projected(x: Seq<bool>, new_to_old: Seq<usize>) -> Seq<bool> {
    Seq::new(new_to_old.len(), |i: int| x[new_to_old[i] as int])
}

/// The sum of the objectives of the first `k` parts.
pub open spec fn sum_of_parts<V: VarDomain>(
    parts: Seq<ComponentSplit<V>>,
    x: Seq<bool>,
    k: nat,
) -> int
    decreases k,
{
    if k == 0 {
        0
    } else {
        sum_of_parts(parts, x, (k - 1) as nat) + parts[k - 1].sub_instance.objective(
            projected(x, parts[k - 1].new_to_old@),
        )
    }
}

/// The value of those of the first `k` terms that belong to component `c`.
spec fn part_value(
    vt: VarType,
    terms: Seq<Term>,
    comp: Seq<usize>,
    x: Seq<bool>,
    c: usize,
    k: nat,
) -> int
    decreases k,
{
    if k == 0 {
        0
    } else {
        part_value(vt, terms, comp, x, c, (k - 1) as nat) + (if home_of(
            comp,
            terms[k - 1].indices@,
        ) == c {
            term::term_value(vt, terms[k - 1], x)
        } else {
            0
        })
    }
}

/// The part's terms at the projected assignment.
proof fn lemma_part_value<V: VarDomain>(
    instance: &HuboInstance<V>,
    comp: Seq<usize>,
    x: Seq<bool>,
    c: usize,
    k: nat,
)
    requires
        instance.wf(),
        is_component_map(instance, comp),
        instance.n() <= usize::MAX,
        x.len() == instance.n(),
        k <= instance.terms@.len(),
    ensures
        views::view_poly(
            V::tag(),
            component_terms(instance.terms@, comp, c, k),
            projected(x, members(comp, c, comp.len())),
        ) == part_value(V::tag(), instance.terms@, comp, x, c, k),
    decreases k,
{
    let terms = instance.terms@;
    let vt = V::tag();
    if k > 0 {
        let k1 = (k - 1) as nat;
        lemma_part_value(instance, comp, x, c, k1);
        let idx = terms[k1 as int].indices@;
        if home_of(comp, idx) == c {
            let r = component_terms(terms, comp, c, k);
            assert(r.drop_last() =~= component_terms(terms, comp, c, k1));
            lemma_same_component(instance, comp, k1 as int);
            assert(term::indices_below(idx, instance.n()));
            let y = projected(x, members(comp, c, comp.len()));
            assert forall|i: int| 0 <= i < idx.len() implies y[(#[trigger] renamed(
                idx,
                places(comp),
            )[i]) as int] == x[idx[i] as int] by {
                let v = idx[i] as int;
                assert(idx[i] < instance.n());
                assert(comp[v] == c);
                lemma_members(comp, c, comp.len());
                lemma_members(comp, c, v as nat);
            }
            lemma_renamed_product(vt, idx, places(comp), x, y);
        }
    }
}

proof fn lemma_renamed_product(
    vt: VarType,
    idx: Seq<usize>,
    map: Seq<usize>,
    x: Seq<bool>,
    y: Seq<bool>,
)
    requires
        forall|i: int|
            0 <= i < idx.len() ==> y[(#[trigger] renamed(idx, map)[i]) as int] == x[idx[i] as int],
    ensures
        term::monomial(vt, renamed(idx, map), y) == term::monomial(vt, idx, x),
    decreases idx.len(),
{
    if idx.len() > 0 {
        let p = idx.drop_last();
        let r = renamed(idx, map);
        assert(r.drop_last() =~= renamed(p, map));
        assert forall|i: int| 0 <= i < p.len() implies y[(#[trigger] renamed(p, map)[i]) as int]
            == x[p[i] as int] by {
            assert(renamed(p, map)[i] == r[i]);
        }
        lemma_renamed_product(vt, p, map, x, y);
        assert(y[r[idx.len() - 1] as int] == x[idx[idx.len() - 1] as int]);
    }
}

/// The values of the parts of the first `m` components.
spec fn all_part_values(
    vt: VarType,
    terms: Seq<Term>,
    comp: Seq<usize>,
    x: Seq<bool>,
    m: nat,
    k: nat,
) -> int
    decreases m,
{
    if m == 0 {
        0
    } else {
        all_part_values(vt, terms, comp, x, (m - 1) as nat, k) + part_value(
            vt,
            terms,
            comp,
            x,
            (m - 1) as usize,
            k,
        )
    }
}

/// One more term adds to the part of its component.
proof fn lemma_all_parts_step(
    vt: VarType,
    terms: Seq<Term>,
    comp: Seq<usize>,
    x: Seq<bool>,
    m: nat,
    k: nat,
)
    requires
        k > 0,
        m <= usize::MAX,
    ensures
        all_part_values(vt, terms, comp, x, m, k) == all_part_values(
            vt,
            terms,
            comp,
            x,
            m,
            (k - 1) as nat,
        ) + (if home_of(comp, terms[k - 1].indices@) < m {
            term::term_value(vt, terms[k - 1], x)
        } else {
            0
        }),
    decreases m,
{
    if m > 0 {
        lemma_all_parts_step(vt, terms, comp, x, (m - 1) as nat, k);
    }
}

proof fn lemma_all_parts_zero(
    vt: VarType,
    terms: Seq<Term>,
    comp: Seq<usize>,
    x: Seq<bool>,
    m: nat,
)
    ensures
        all_part_values(vt, terms, comp, x, m, 0) == 0,
    decreases m,
{
    if m > 0 {
        lemma_all_parts_zero(vt, terms, comp, x, (m - 1) as nat);
    }
}

proof fn lemma_all_parts<V: VarDomain>(
    instance: &HuboInstance<V>,
    comp: Seq<usize>,
    x: Seq<bool>,
    m: nat,
    k: nat,
)
    requires
        instance.wf(),
        comp.len() == instance.n(),
        m <= usize::MAX,
        forall|v: int| 0 <= v < comp.len() ==> (#[trigger] comp[v]) < m,
        k <= instance.terms@.len(),
        m > 0,
    ensures
        all_part_values(V::tag(), instance.terms@, comp, x, m, k) == term::poly(
            V::tag(),
            instance.terms@.take(k as int),
            x,
        ),
    decreases k,
{
    let terms = instance.terms@;
    if k == 0 {
        lemma_all_parts_zero(V::tag(), terms, comp, x, m);
        assert(terms.take(0) =~= Seq::empty());
    } else {
        let k1 = (k - 1) as nat;
        lemma_all_parts(instance, comp, x, m, k1);
        lemma_all_parts_step(V::tag(), terms, comp, x, m, k);
        assert(terms.take(k as int).drop_last() =~= terms.take(k1 as int));
        let t = terms[k1 as int];
        if t.indices@.len() > 0 {
            assert(term::indices_below(t.indices@, instance.n()));
            assert(t.indices@[0] < comp.len());
            assert(comp[t.indices@[0] as int] < m);
        }
    }
}

proof fn lemma_sum_of_parts<V: VarDomain>(
    instance: &HuboInstance<V>,
    comp: Seq<usize>,
    parts: Seq<ComponentSplit<V>>,
    x: Seq<bool>,
    k: nat,
)
    requires
        instance.wf(),
        instance.n() <= usize::MAX,
        is_component_map(instance, comp),
        x.len() == instance.n(),
        k <= parts.len(),
        parts.len() <= usize::MAX,
        forall|c: int|
            0 <= c < parts.len() ==> is_part(instance, comp, c as usize, #[trigger] parts[c]),
    ensures
        sum_of_parts(parts, x, k) == all_part_values(
            V::tag(),
            instance.terms@,
            comp,
            x,
            k,
            instance.terms@.len(),
        ) + (if k > 0 {
            instance.offset as int
        } else {
            0
        }),
    decreases k,
{
    if k > 0 {
        let c = (k - 1) as usize;
        lemma_sum_of_parts(instance, comp, parts, x, (k - 1) as nat);
        let part = parts[k - 1];
        assert(is_part(instance, comp, c, parts[c as int]));
        let y = projected(x, part.new_to_old@);
        let sv = component_terms(instance.terms@, comp, c, instance.terms@.len());
        views::lemma_term_views(V::tag(), part.sub_instance.terms@, y);
        views::lemma_sorted_views(V::tag(), sv, y);
        lemma_part_value(instance, comp, x, c, instance.terms@.len());
    }
}

/// The objectives of the parts add up to the objective.
pub proof fn parts_add_up<V: VarDomain>(
    instance: &HuboInstance<V>,
    comp: Seq<usize>,
    parts: Seq<ComponentSplit<V>>,
    x: Seq<bool>,
)
    requires
        instance.wf(),
        instance.n() <= usize::MAX,
        is_component_map(instance, comp),
        is_split(instance, comp, parts),
        x.len() == instance.n(),
    ensures
        sum_of_parts(parts, x, parts.len()) == instance.objective(x),
{
    let vt = V::tag();
    let terms = instance.terms@;
    reach::lemma_next_label(comp, comp.len());
    if reach::next_label(comp, comp.len()) <= 1 {
        let part = parts[0];
        assert(projected(x, part.new_to_old@) =~= x);
        reveal_with_fuel(sum_of_parts, 2);
        views::lemma_term_views(vt, terms, x);
        views::lemma_term_views(vt, part.sub_instance.terms@, x);
    } else {
        let m = parts.len();
        lemma_sum_of_parts(instance, comp, parts, x, m);
        lemma_all_parts(instance, comp, x, m, terms.len());
        assert(terms.take(terms.len() as int) =~= terms);
    }
}

} // verus!
