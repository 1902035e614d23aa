//! Sets of spins whose common flip changes nothing.

use crate::bounds::cheap;
use crate::domain::{VarDomain, VarType};
use crate::instance::HuboInstance;
use crate::kernelization::f2;
use crate::node::Node;
use crate::node;
use crate::parity;
use crate::sets;
use crate::term::Term;
use crate::term;
use vstd::prelude::*;

verus! {

/// The vectors that meet every nonzero term an even number of times.
pub open spec fn even_sets(terms: Seq<Term>, n: nat) -> spec_fn(Seq<bool>) -> bool {
    |y: Seq<bool>|
        forall|t: int|
            0 <= t < terms.len() && (#[trigger] terms[t]).coeff != 0 ==> !parity::dot(
                f2::column_bits(terms[t].indices@, n),
                y,
                n,
            )
}

/// The same columns, listed in ascending order.
fn sorted_copy(s: &Vec<usize>) -> (r: Vec<usize>)
    ensures
        sets::ascending(r@),
        forall|v: usize| #[trigger] r@.contains(v) == s@.contains(v),
{
    let mut r: Vec<usize> = Vec::new();
    let mut k: usize = 0;
    assert(s@.take(0) =~= Seq::empty());
    while k < s.len()
        invariant
            k <= s@.len(),
            sets::ascending(r@),
            forall|v: usize| #[trigger] r@.contains(v) == s@.take(k as int).contains(v),
        decreases s@.len() - k,
    {
        proof {
            sets::lemma_contains_take(s@, k as int);
        }
        sets::insert_sorted(&mut r, s[k]);
        k += 1;
    }
    assert(s@.take(k as int) =~= s@);
    r
}

proof fn lemma_same_bits(a: Seq<usize>, b: Seq<usize>, n: nat)
    requires
        forall|v: usize| #[trigger] a.contains(v) == b.contains(v),
    ensures
        f2::column_bits(a, n) == f2::column_bits(b, n),
{
    assert(f2::column_bits(a, n) =~= f2::column_bits(b, n));
}

/// Rows with the members of the nonzero terms have the same kernel.
proof fn lemma_rows_kernel(
    terms: Seq<Term>,
    rows: Seq<Vec<usize>>,
    source: Seq<int>,
    place: Seq<int>,
    n: nat,
    y: Seq<bool>,
)
    requires
        source.len() == rows.len(),
        place.len() == terms.len(),
        forall|i: int|
            0 <= i < rows.len() ==> 0 <= #[trigger] source[i] < terms.len()
                && terms[source[i]].coeff != 0 && same_members(rows[i]@, terms[source[i]].indices@),
        forall|t: int|
            0 <= t < terms.len() && (#[trigger] terms[t]).coeff != 0 ==> 0 <= place[t] < rows.len()
                && source[place[t]] == t,
    ensures
        f2::in_kernel(rows, n, y) == even_sets(terms, n)(y),
{
    if f2::in_kernel(rows, n, y) {
        assert forall|t: int| 0 <= t < terms.len() && (#[trigger] terms[t]).coeff != 0 implies !parity::dot(
            f2::column_bits(terms[t].indices@, n),
            y,
            n,
        ) by {
            let i = place[t];
            assert(source[i] == t);
            assert(!parity::dot(f2::column_bits(rows[i]@, n), y, n));
            lemma_same_bits(rows[i]@, terms[t].indices@, n);
        }
    }
    if even_sets(terms, n)(y) {
        assert forall|i: int| 0 <= i < rows.len() implies !parity::dot(
            f2::column_bits((#[trigger] rows[i])@, n),
            y,
            n,
        ) by {
            let t = source[i];
            assert(terms[t].coeff != 0);
            lemma_same_bits(rows[i]@, terms[t].indices@, n);
        }
    }
}

spec fn same_members(a: Seq<usize>, b: Seq<usize>) -> bool {
    forall|v: usize| #[trigger] a.contains(v) == b.contains(v)
}

/// A basis of the flip sets of a spin instance.
pub fn detect_sflip_symmetries<V: VarDomain>(instance: &HuboInstance<V>) -> (r: Vec<Vec<usize>>)
    requires
        instance.wf(),
    ensures
        V::tag() == VarType::Bin ==> r@.len() == 0,
        V::tag() == VarType::Spin ==> f2::is_reduced_basis(
            even_sets(instance.terms@, instance.n() as nat),
            instance.n() as nat,
            r@,
        ),
{
    match V::var_type() {
        VarType::Bin => {
            return Vec::new();
        },
        VarType::Spin => {},
    }
    let n: usize = instance.n_vars();
    let ghost terms = instance.terms@;
    let mut rows: Vec<Vec<usize>> = Vec::new();
    let ghost mut source: Seq<int> = Seq::empty();
    let ghost mut place: Seq<int> = Seq::empty();
    let mut t: usize = 0;
    while t < instance.terms.len()
        invariant
            t <= terms.len(),
            terms == instance.terms@,
            n == instance.n(),
            instance.wf(),
            source.len() == rows@.len(),
            place.len() == t,
            f2::sparse_rows(rows@, n as nat),
            forall|i: int|
                0 <= i < rows@.len() ==> 0 <= #[trigger] source[i] < t && terms[source[i]].coeff != 0
                    && same_members(rows@[i]@, terms[source[i]].indices@),
            forall|q: int|
                0 <= q < t && (#[trigger] terms[q]).coeff != 0 ==> 0 <= place[q] < rows@.len()
                    && source[place[q]] == q,
        decreases terms.len() - t,
    {
        let ghost source0 = source;
        let ghost place0 = place;
        let ghost rows0 = rows@;
        proof {
            place = place.push(rows@.len() as int);
        }
        if instance.terms[t].coeff != 0 {
            let row = sorted_copy(&instance.terms[t].indices);
            proof {
                let idx = terms[t as int].indices@;
                assert(term::indices_below(idx, n as int));
                assert forall|i: int| 0 <= i < row@.len() implies (#[trigger] row@[i]) < n by {
                    assert(row@.contains(row@[i]));
                    let a = choose|a: int| 0 <= a < idx.len() && idx[a] == row@[i];
                }
                source = source.push(t as int);
            }
            rows.push(row);
        }
        proof {
            assert forall|i: int| 0 <= i < rows@.len() implies 0 <= #[trigger] source[i] < t + 1
                && terms[source[i]].coeff != 0 && same_members(
                rows@[i]@,
                terms[source[i]].indices@,
            ) by {
                if i < rows0.len() {
                    assert(source[i] == source0[i]);
                    assert(rows@[i] == rows0[i]);
                }
            }
            assert forall|q: int| 0 <= q < t + 1 && (#[trigger] terms[q]).coeff != 0 implies 0
                <= place[q] < rows@.len() && source[place[q]] == q by {
                if q < t {
                    assert(place[q] == place0[q]);
                    assert(source[place0[q]] == source0[place0[q]]);
                }
            }
        }
        t += 1;
    }
    let ghost final_rows = rows@;
    let basis = f2::f2_sparse_kernel(rows, n);
    proof {
        let a = f2::kernel_of(final_rows, n as nat);
        let b = even_sets(terms, n as nat);
        assert forall|y: Seq<bool>| #[trigger] a(y) == b(y) by {
            lemma_rows_kernel(terms, final_rows, source, place, n as nat, y);
        }
        assert(a =~= b);
    }
    basis
}

/// The representative of each vector of a basis, high.
pub open spec fn representatives(b: Seq<Vec<usize>>) -> Seq<(usize, i64)> {
    Seq::new(b.len(), |k: int| (b[k]@[0], 1i64))
}

/// The fixes break every flip symmetry of the terms.
pub open spec fn is_flip_breaking(terms: Seq<Term>, n: nat, list: Seq<(usize, i64)>) -> bool {
    exists|b: Seq<Vec<usize>>| #[trigger]
        f2::is_reduced_basis(even_sets(terms, n), n, b) && list == representatives(b)
}

/// Fix one spin of every flip set high.
pub fn sflip_symmetry_fixes<V: VarDomain>(instance: &HuboInstance<V>, node: &Node) -> (r: Vec<
    (usize, i64),
>)
    requires
        instance.wf(),
    ensures
        V::tag() == VarType::Bin ==> r@.len() == 0,
        V::tag() == VarType::Spin ==> is_flip_breaking(instance.terms@, instance.n() as nat, r@),
{
    let kernel = detect_sflip_symmetries(instance);
    let mut fixes: Vec<(usize, i64)> = Vec::new();
    let mut k: usize = 0;
    let ghost n = instance.n() as nat;
    while k < kernel.len()
        invariant
            k <= kernel@.len(),
            kernel@.len() > 0 ==> f2::is_reduced_basis(even_sets(instance.terms@, n), n, kernel@),
            fixes@ == representatives(kernel@).take(k as int),
        decreases kernel@.len() - k,
    {
        assert(f2::is_basis_vector(kernel@, kernel@[k as int]@, n));
        fixes.push((kernel[k][0], 1));
        assert(representatives(kernel@).take(k + 1) =~= representatives(kernel@).take(
            k as int,
        ).push((kernel@[k as int]@[0], 1i64)));
        k += 1;
    }
    assert(fixes@ =~= representatives(kernel@));
    fixes
}

/// `x` with the listed variables flipped.
pub open spec fn flip_all(x: Seq<bool>, s: Seq<usize>) -> Seq<bool> {
    Seq::new(x.len(), |i: int| x[i] != s.contains(i as usize))
}

/// Flipping a set multiplies a product by the parity of their overlap.
pub proof fn lemma_flip_sign(idx: Seq<usize>, x: Seq<bool>, s: Seq<usize>, n: nat)
    requires
        idx.no_duplicates(),
        term::indices_below(idx, n as int),
        x.len() == n,
        n <= usize::MAX,
    ensures
        term::monomial(VarType::Spin, idx, flip_all(x, s)) == (if parity::dot(
            f2::column_bits(idx, n),
            f2::column_bits(s, n),
            n,
        ) {
            -term::monomial(VarType::Spin, idx, x)
        } else {
            term::monomial(VarType::Spin, idx, x)
        }),
    decreases idx.len(),
{
    let y = f2::column_bits(s, n);
    if idx.len() == 0 {
        cheap::lemma_dot_none(f2::column_bits(idx, n), y, n);
    } else {
        let p = idx.drop_last();
        let u = idx.last();
        assert(idx[idx.len() - 1] < n);
        assert(p.no_duplicates());
        assert(term::indices_below(p, n as int));
        lemma_flip_sign(p, x, s, n);
        assert(!p.contains(u)) by {
            if p.contains(u) {
                let i = choose|i: int| 0 <= i < p.len() && p[i] == u;
                assert(idx[i] == idx[idx.len() - 1]);
            }
        }
        assert forall|v: usize| idx.contains(v) == (p.contains(v) || v == u) by {
            if p.contains(v) {
                let i = choose|i: int| 0 <= i < p.len() && p[i] == v;
                assert(idx[i] == v);
            }
            if v == u {
                assert(idx[idx.len() - 1] == v);
            }
            if idx.contains(v) && v != u {
                let i = choose|i: int| 0 <= i < idx.len() && idx[i] == v;
                assert(p[i] == v);
            }
        }
        assert(f2::column_bits(idx, n) =~= f2::column_bits(p, n).update(u as int, true));
        cheap::lemma_dot_set(f2::column_bits(p, n), y, u as int, n);
        let m = term::monomial(VarType::Spin, p, x);
        let b = term::bit_value(VarType::Spin, x[u as int]);
        assert((-m) * b == -(m * b)) by (nonlinear_arith);
        assert(m * (-b) == -(m * b)) by (nonlinear_arith);
        assert((-m) * (-b) == m * b) by (nonlinear_arith);
    }
}

proof fn lemma_flip_poly(terms: Seq<Term>, x: Seq<bool>, s: Seq<usize>, n: nat, k: nat)
    requires
        k <= terms.len(),
        term::terms_distinct(terms),
        term::terms_below(terms, n as int),
        x.len() == n,
        n <= usize::MAX,
        even_sets(terms, n)(f2::column_bits(s, n)),
    ensures
        term::poly(VarType::Spin, terms.take(k as int), flip_all(x, s)) == term::poly(
            VarType::Spin,
            terms.take(k as int),
            x,
        ),
    decreases k,
{
    if k > 0 {
        let k1 = (k - 1) as nat;
        lemma_flip_poly(terms, x, s, n, k1);
        assert(terms.take(k as int).drop_last() =~= terms.take(k1 as int));
        let t = terms[k1 as int];
        assert(t.indices@.no_duplicates());
        assert(term::indices_below(t.indices@, n as int));
        lemma_flip_sign(t.indices@, x, s, n);
        if t.coeff == 0 {
            assert(0 * term::monomial(VarType::Spin, t.indices@, x) == 0);
            assert(0 * term::monomial(VarType::Spin, t.indices@, flip_all(x, s)) == 0);
        }
    }
}

/// Flipping a set that meets every nonzero term evenly keeps the objective.
pub proof fn flip_set_keeps_objective<V: VarDomain>(
    instance: &HuboInstance<V>,
    s: Seq<usize>,
    x: Seq<bool>,
)
    requires
        instance.wf(),
        V::tag() == VarType::Spin,
        instance.n() <= usize::MAX,
        x.len() == instance.n(),
        even_sets(instance.terms@, instance.n() as nat)(f2::column_bits(s, instance.n() as nat)),
    ensures
        instance.objective(flip_all(x, s)) == instance.objective(x),
{
    let terms = instance.terms@;
    lemma_flip_poly(terms, x, s, instance.n() as nat, terms.len());
    assert(terms.take(terms.len() as int) =~= terms);
}

/// Every assignment has an equally good one in which all representatives are
/// high.
pub proof fn flip_breaking_keeps_optimum<V: VarDomain>(
    instance: &HuboInstance<V>,
    list: Seq<(usize, i64)>,
    x: Seq<bool>,
) -> (z: Seq<bool>)
    requires
        instance.wf(),
        V::tag() == VarType::Spin,
        instance.n() <= usize::MAX,
        x.len() == instance.n(),
        is_flip_breaking(instance.terms@, instance.n() as nat, list),
    ensures
        z.len() == x.len(),
        instance.objective(z) == instance.objective(x),
        forall|k: int|
            0 <= k < list.len() ==> (#[trigger] list[k]).0 < z.len() && z[list[k].0 as int]
                && list[k].1 == 1,
{
    let n = instance.n() as nat;
    let f = Seq::new(n, |i: int| None::<bool>);
    let z = free_flips_keep_optimum(instance, f, list, x);
    let b = choose|b: Seq<Vec<usize>>| #[trigger]
        f2::is_reduced_basis(even_sets(instance.terms@, n), n, b) && list == representatives(b);
    assert forall|k: int| 0 <= k < list.len() implies (#[trigger] list[k]).0 < z.len()
        && z[list[k].0 as int] && list[k].1 == 1 by {
        assert(f2::is_basis_vector(b, b[k]@, n));
        assert(list[k].0 == b[k]@[0]);
        assert(f[list[k].0 as int] is None);
    }
    z
}

/// A flip set whose representative is free holds no fixed variable.
pub open spec fn flips_are_free(terms: Seq<Term>, n: nat, f: Seq<Option<bool>>) -> bool {
    forall|b: Seq<Vec<usize>>| #[trigger]
        f2::is_reduced_basis(even_sets(terms, n), n, b) ==> sets_are_free(b, f)
}

/// A list whose first variable is free holds no fixed variable.
pub open spec fn sets_are_free(b: Seq<Vec<usize>>, f: Seq<Option<bool>>) -> bool {
    forall|k: int, j: int|
        0 <= k < b.len() && 0 <= j < b[k]@.len() && f[b[k]@[0] as int] is None ==> f[#[trigger] b[k]@[j] as int] is None
}

/// Every completion of fixes has an equally good one in which all free
/// representatives are high, where their flip sets are free.
pub proof fn free_flips_keep_optimum<V: VarDomain>(
    instance: &HuboInstance<V>,
    f: Seq<Option<bool>>,
    list: Seq<(usize, i64)>,
    x: Seq<bool>,
) -> (z: Seq<bool>)
    requires
        instance.wf(),
        V::tag() == VarType::Spin,
        instance.n() <= usize::MAX,
        f.len() == instance.n(),
        node::extends(x, f),
        is_flip_breaking(instance.terms@, instance.n() as nat, list),
        flips_are_free(instance.terms@, instance.n() as nat, f),
    ensures
        node::extends(z, f),
        instance.objective(z) == instance.objective(x),
        forall|k: int|
            0 <= k < list.len() && f[(#[trigger] list[k]).0 as int] is None ==> z[list[k].0 as int]
                && list[k].1 == 1,
{
    let n = instance.n() as nat;
    let b = choose|b: Seq<Vec<usize>>| #[trigger]
        f2::is_reduced_basis(even_sets(instance.terms@, n), n, b) && list == representatives(b);
    let z = lemma_raise_free(instance, b, f, x, b.len());
    assert forall|k: int| 0 <= k < list.len() && f[(#[trigger] list[k]).0 as int] is None implies z[list[k].0 as int]
        && list[k].1 == 1 by {
        assert(list[k].0 == b[k]@[0]);
    }
    z
}

proof fn lemma_raise_free<V: VarDomain>(
    instance: &HuboInstance<V>,
    b: Seq<Vec<usize>>,
    f: Seq<Option<bool>>,
    x: Seq<bool>,
    k: nat,
) -> (z: Seq<bool>)
    requires
        instance.wf(),
        V::tag() == VarType::Spin,
        instance.n() <= usize::MAX,
        f.len() == instance.n(),
        node::extends(x, f),
        f2::is_reduced_basis(even_sets(instance.terms@, instance.n() as nat), instance.n() as nat, b),
        sets_are_free(b, f),
        k <= b.len(),
    ensures
        node::extends(z, f),
        instance.objective(z) == instance.objective(x),
        forall|i: int|
            0 <= i < k && f[(#[trigger] b[i])@[0] as int] is None ==> z[b[i]@[0] as int],
    decreases k,
{
    if k == 0 {
        x
    } else {
        let n = instance.n() as nat;
        let y = lemma_raise_free(instance, b, f, x, (k - 1) as nat);
        let v = b[k - 1]@;
        assert(f2::is_basis_vector(b, b[k - 1]@, n));
        if y[v[0] as int] || f[v[0] as int] is Some {
            y
        } else {
            flip_set_keeps_objective(instance, v, y);
            let z = flip_all(y, v);
            assert forall|i: int| 0 <= i < f.len() && (#[trigger] f[i]) is Some implies f[i] == Some(
                z[i],
            ) by {
                if v.contains(i as usize) {
                    let j = choose|j: int| 0 <= j < v.len() && v[j] == i as usize;
                    assert(f[b[k - 1]@[j] as int] is None);
                }
            }
            assert forall|i: int| 0 <= i < k && f[(#[trigger] b[i])@[0] as int] is None implies z[b[i]@[0] as int] by {
                let h = b[i]@[0];
                assert(f2::is_basis_vector(b, b[i]@, n));
                if i == k - 1 {
                    assert(v.contains(v[0]));
                } else {
                    assert(y[h as int]);
                    assert(!v.contains(h)) by {
                        if v.contains(h) {
                            let j = choose|j: int| 0 <= j < v.len() && v[j] == h;
                            if j == 0 {
                                assert(b[i]@[0] < b[k - 1]@[0]);
                            } else {
                                assert(v[j] != b[i]@[0]);
                            }
                        }
                    }
                }
            }
            z
        }
    }
}

} // verus!
