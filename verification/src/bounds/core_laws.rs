//! How much contradictions raise a bound.

use crate::bounds::cheap;
use crate::bounds::cover;
use crate::domain::VarType;
use crate::node::PartiallyAssignedTerm;
use crate::node;
use crate::parity;
use crate::term::Term;
use crate::term;
use vstd::prelude::*;

verus! {

/// A packing takes no more of an item than it takes in all.
proof fn lemma_packed_left(weights: Seq<i64>, cores: Seq<Vec<usize>>, k: nat, v: int)
    requires
        k <= cores.len(),
        weights.len() <= usize::MAX,
        cover::cores_ok(cores, weights.len()),
        forall|i: int| 0 <= i < weights.len() ==> (#[trigger] weights[i]) >= 0,
        0 <= v < weights.len(),
    ensures
        cover::packed(weights, cores, k)[v] >= weights[v] - cover::packing(weights, cores, k),
        cover::packed(weights, cores, k).len() == weights.len(),
        k > 0 ==> cover::packing(weights, cores, k) >= cover::packing(
            weights,
            cores,
            (k - 1) as nat,
        ),
    decreases k,
{
    cover::lemma_packed(weights, cores, k);
    if k > 0 {
        lemma_packed_left(weights, cores, (k - 1) as nat, v);
        cover::lemma_packed(weights, cores, (k - 1) as nat);
        let res = cover::packed(weights, cores, (k - 1) as nat);
        let core = cores[k - 1]@;
        assert(cover::core_ok(core, weights.len()));
        cover::lemma_core_min(res, core, core.len());
        let i = choose|i: int|
            0 <= i < core.len() && cover::core_min(res, core, core.len())
                == res[#[trigger] core[i] as int];
        assert(core[i] < weights.len());
        assert(0 <= res[core[i] as int]);
    }
}

proof fn lemma_packing_grows(weights: Seq<i64>, cores: Seq<Vec<usize>>, j: nat, k: nat)
    requires
        j <= k <= cores.len(),
        0 < weights.len() <= usize::MAX,
        cover::cores_ok(cores, weights.len()),
        forall|i: int| 0 <= i < weights.len() ==> (#[trigger] weights[i]) >= 0,
    ensures
        cover::packing(weights, cores, j) <= cover::packing(weights, cores, k),
    decreases k - j,
{
    if j < k {
        lemma_packing_grows(weights, cores, j, (k - 1) as nat);
        lemma_packed_left(weights, cores, k, 0);
    }
}

/// The packing is at least the weight of some item of each core, so at least the
/// least weight of each core.
pub proof fn packing_reaches_every_core(weights: Seq<i64>, cores: Seq<Vec<usize>>, c: int)
    requires
        weights.len() <= usize::MAX,
        cover::cores_ok(cores, weights.len()),
        forall|i: int| 0 <= i < weights.len() ==> (#[trigger] weights[i]) >= 0,
        0 <= c < cores.len(),
    ensures
        exists|i: int|
            0 <= i < cores[c]@.len() && weights[#[trigger] cores[c]@[i] as int] <= cover::packing(
                weights,
                cores,
                cores.len(),
            ),
{
    let res = cover::packed(weights, cores, c as nat);
    let core = cores[c]@;
    assert(cover::core_ok(core, weights.len()));
    cover::lemma_core_min(res, core, core.len());
    let i = choose|i: int|
        0 <= i < core.len() && cover::core_min(res, core, core.len())
            == res[#[trigger] core[i] as int];
    let v = core[i] as int;
    assert(core[i] < weights.len());
    lemma_packed_left(weights, cores, (c + 1) as nat, v);
    lemma_packed_left(weights, cores, c as nat, v);
    assert(core.contains(v as usize));
    assert(cover::packed(weights, cores, (c + 1) as nat)[v] == 0);
    lemma_packing_grows(weights, cores, (c + 1) as nat, cores.len());
    assert(weights[core[i] as int] <= cover::packing(weights, cores, cores.len()));
}

proof fn lemma_untouched(weights: Seq<i64>, cores: Seq<Vec<usize>>, k: nat, v: usize)
    requires
        k <= cores.len(),
        v < weights.len(),
        forall|c: int| 0 <= c < k ==> !(#[trigger] cores[c])@.contains(v),
    ensures
        cover::packed(weights, cores, k).len() == weights.len(),
        cover::packed(weights, cores, k)[v as int] == weights[v as int],
    decreases k,
{
    if k > 0 {
        lemma_untouched(weights, cores, (k - 1) as nat, v);
        assert(!cores[k - 1]@.contains(v));
    }
}

/// A core that shares no item with those before it adds its least weight to the
/// packing.
pub proof fn disjoint_core_adds_its_least_weight(
    weights: Seq<i64>,
    cores: Seq<Vec<usize>>,
    c: int,
    i: int,
)
    requires
        cover::cores_ok(cores, weights.len()),
        0 <= c < cores.len(),
        forall|d: int, j: int|
            0 <= d < c && 0 <= j < cores[c]@.len() ==> !(#[trigger] cores[d])@.contains(
                #[trigger] cores[c]@[j],
            ),
        0 <= i < cores[c]@.len(),
        forall|j: int|
            0 <= j < cores[c]@.len() ==> weights[cores[c]@[i] as int]
                <= weights[#[trigger] cores[c]@[j] as int],
    ensures
        cover::packing(weights, cores, (c + 1) as nat) == cover::packing(weights, cores, c as nat)
            + weights[cores[c]@[i] as int],
{
    let core = cores[c]@;
    let res = cover::packed(weights, cores, c as nat);
    assert(cover::core_ok(core, weights.len()));
    assert forall|j: int| 0 <= j < core.len() implies res[#[trigger] core[j] as int]
        == weights[core[j] as int] by {
        assert(core[j] < weights.len());
        assert forall|d: int| 0 <= d < c implies !(#[trigger] cores[d])@.contains(core[j]) by {
            assert(!cores[d]@.contains(cores[c]@[j]));
        }
        lemma_untouched(weights, cores, c as nat, core[j]);
    }
    cover::lemma_core_min(res, core, core.len());
    let q = choose|q: int|
        0 <= q < core.len() && cover::core_min(res, core, core.len())
            == res[#[trigger] core[q] as int];
    assert(weights[core[i] as int] <= weights[core[q] as int]);
    assert(res[core[i] as int] == weights[core[i] as int]);
}

proof fn lemma_left(
    all: Seq<Seq<bool>>,
    n: nat,
    pens: Seq<i64>,
    cores: Seq<Seq<usize>>,
    k: nat,
    l: int,
)
    requires
        k <= cores.len(),
        pens.len() == all.len(),
        pens.len() <= usize::MAX,
        forall|i: int| 0 <= i < all.len() ==> (#[trigger] all[i]).len() == n + 1,
        forall|i: int| 0 <= i < pens.len() ==> 0 <= #[trigger] pens[i],
        forall|j: int|
            0 <= j < cores.len() ==> cheap::is_payable(
                all,
                n,
                cheap::left_after(pens, cores, j as nat),
                #[trigger] cores[j],
            ),
        0 <= l < pens.len(),
    ensures
        cheap::left_after(pens, cores, k)[l] >= pens[l] - cheap::amounts(pens, cores, k),
    decreases k,
{
    if k > 0 {
        let res = cheap::left_after(pens, cores, (k - 1) as nat);
        let core = cores[k - 1];
        lemma_left(all, n, pens, cores, (k - 1) as nat, l);
        cheap::lemma_run_left(all, n, pens, cores, (k - 1) as nat);
        assert(cheap::is_payable(all, n, res, core));
        if core.len() == 0 {
            assert(!parity::sum_bit(all, core, n as int));
        }
        let q = cheap::lemma_least_left(res, core);
        assert(res[core[q] as int] > 0);
        if core.contains(l as usize) {
            let r = core.index_of(l as usize);
            assert(cheap::least_left(res, core) <= res[core[r] as int]);
        }
    }
}

proof fn lemma_unpaid(all: Seq<Seq<bool>>, res: Seq<i64>, k: nat, l: int)
    requires
        0 <= l < k <= res.len(),
        res.len() == all.len(),
        res[l] > 0,
    ensures
        exists|i: int|
            0 <= i < cheap::unpaid_rows(all, res, k).len() && #[trigger] cheap::unpaid_rows(
                all,
                res,
                k,
            )[i] == all[l],
    decreases k,
{
    let r = cheap::unpaid_rows(all, res, k);
    let before = cheap::unpaid_rows(all, res, (k - 1) as nat);
    if l == k - 1 {
        assert(r[before.len() as int] == all[l]);
    } else {
        lemma_unpaid(all, res, (k - 1) as nat, l);
        let i = choose|i: int| 0 <= i < before.len() && #[trigger] before[i] == all[l];
        assert(r[i] == all[l]);
    }
}

/// Term `t` is left with variables and a coefficient of size `m` or more, and is
/// against its least value at `x`.
pub open spec fn is_violated(
    terms: Seq<Term>,
    s: Seq<Option<PartiallyAssignedTerm>>,
    m: int,
    t: int,
    x: Seq<bool>,
) -> bool {
    s[t] matches Some(p) && p.free_variables@.len() > 0 && (p.coeff >= m || -p.coeff >= m)
        && is_against(terms[t], p, x)
}

/// At `x` the product of the term's variables has the sign of the coefficient that is
/// left, so the term does not take its least value.
pub open spec fn is_against(t: Term, p: PartiallyAssignedTerm, x: Seq<bool>) -> bool {
    p.coeff * term::monomial(VarType::Spin, t.indices@, x) > 0
}

/// Where at every assignment some term that is left with variables and a coefficient
/// of size `m` or more has a product of the unfavourable sign, the contradictions add
/// at least twice `m` to the bound.
pub proof fn contradictions_are_paid_in_full(
    terms: Seq<Term>,
    s: Seq<Option<PartiallyAssignedTerm>>,
    n: nat,
    hint: Option<Seq<usize>>,
    bonus: int,
    first: Option<Seq<usize>>,
    m: int,
)
    requires
        n <= usize::MAX,
        s.len() == terms.len(),
        s.len() <= usize::MAX,
        term::terms_below(terms, n as int),
        term::terms_distinct(terms),
        cheap::is_core_run(terms, s, n, hint, bonus, first),
        forall|x: Seq<bool>|
            #[trigger] x.len() == n ==> exists|t: int|
                0 <= t < s.len() && #[trigger] is_violated(terms, s, m, t, x),
    ensures
        bonus >= 2 * m,
{
    let all = cheap::active_rows(terms, s, n);
    let list = cheap::active_list(s, s.len());
    let (pens, cores) = choose|pens: Seq<i64>, cores: Seq<Seq<usize>>|
        cheap::are_penalties(s, pens) && #[trigger] cheap::is_packing_run(
            all,
            n,
            pens,
            cores,
            bonus,
        ) && first == cheap::first_terms(s, cores);
    cheap::lemma_active_list(s, s.len());
    cover::lemma_ascending_len(list, s.len());
    let k = cores.len();
    let res = cheap::left_after(pens, cores, k);
    assert forall|i: int| 0 <= i < all.len() implies (#[trigger] all[i]).len() == n + 1 by {}
    assert forall|i: int| 0 <= i < pens.len() implies 0 <= #[trigger] pens[i] by {
        assert(pens[i] == cheap::active_penalties(s)[i]);
    }
    cheap::lemma_run_left(all, n, pens, cores, k);
    let unpaid = cheap::unpaid_rows(all, res, pens.len());
    let y = choose|y: Seq<bool>| #[trigger] parity::satisfies(unpaid, n, y);
    let x = Seq::new(n, |j: int| !y[j]);
    assert(x.len() == n);
    let t = choose|t: int| 0 <= t < s.len() && #[trigger] is_violated(terms, s, m, t, x);
    let p = s[t]->0;
    let idx = terms[t].indices@;
    term::lemma_monomial_range(VarType::Spin, idx, x);
    let mono = term::monomial(VarType::Spin, idx, x);
    assert(p.coeff * mono == if mono == 1 { p.coeff as int } else { -p.coeff }) by (nonlinear_arith)
        requires
            mono == 1 || mono == -1,
    ;
    assert(cheap::is_active(s[t]));
    assert(list.contains(t as usize));
    let l = list.index_of(t as usize);
    assert(pens[l] == cheap::active_penalties(s)[l]);
    lemma_left(all, n, pens, cores, k, l);
    if bonus < 2 * m {
        assert(res[l] > 0);
        lemma_unpaid(all, res, pens.len(), l);
        let i = choose|i: int| 0 <= i < unpaid.len() && #[trigger] unpaid[i] == all[l];
        assert(parity::sat(unpaid[i], n, y));
        let none = Seq::new(n, |j: int| None::<bool>);
        assert(term::indices_below(idx, n as int));
        assert(idx.no_duplicates());
        cheap::lemma_row_parity(idx, n, p.coeff > 0, none, x);
        lemma_all_free(idx, none);
        lemma_same_bits(all[l], y, cheap::low_bits(x, none), n);
    }
}

proof fn lemma_all_free(idx: Seq<usize>, f: Seq<Option<bool>>)
    requires
        forall|i: int| 0 <= i < f.len() ==> (#[trigger] f[i]) is None,
    ensures
        node::free_list(idx, f) == idx,
    decreases idx.len(),
{
    if idx.len() > 0 {
        lemma_all_free(idx.drop_last(), f);
        assert(idx =~= idx.drop_last().push(idx.last()));
    } else {
        assert(node::free_list(idx, f) =~= idx);
    }
}

proof fn lemma_same_bits(row: Seq<bool>, a: Seq<bool>, b: Seq<bool>, k: nat)
    requires
        forall|j: int| 0 <= j < k ==> a[j] == #[trigger] b[j],
    ensures
        parity::dot(row, a, k) == parity::dot(row, b, k),
    decreases k,
{
    if k > 0 {
        lemma_same_bits(row, a, b, (k - 1) as nat);
        assert(a[k - 1] == b[k - 1]);
    }
}

} // verus!
