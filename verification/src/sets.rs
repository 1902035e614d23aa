//! Sets of variable indices held as strictly ascending sequences.

use vstd::prelude::*;

verus! {

/// The entries grow strictly.
pub open spec fn ascending(s: Seq<usize>) -> bool {
    forall|i: int, j: int| 0 <= i < j < s.len() ==> s[i] < s[j]
}

/// Two ascending sequences with the same members are equal.
pub proof fn lemma_ascending_unique(a: Seq<usize>, b: Seq<usize>)
    requires
        ascending(a),
        ascending(b),
        forall|v: usize| a.contains(v) == b.contains(v),
    ensures
        a == b,
    decreases a.len(),
{
    if a.len() == 0 {
        if b.len() > 0 {
            assert(b.contains(b[0]));
            assert(a.contains(b[0]));
        }
    } else {
        assert(a.contains(a.last()));
        assert(b.contains(a.last()));
        assert(b.len() > 0);
        assert(b.contains(b.last()));
        assert(a.contains(b.last()));
        assert(a.last() == b.last());
        let p = a.drop_last();
        let q = b.drop_last();
        assert forall|v: usize| p.contains(v) == q.contains(v) by {
            if p.contains(v) {
                let i = choose|i: int| 0 <= i < p.len() && p[i] == v;
                assert(a[i] == v);
                assert(b.contains(v));
                let j = choose|j: int| 0 <= j < b.len() && b[j] == v;
                assert(a[i] < a.last());
                assert(q[j] == v);
            }
            if q.contains(v) {
                let i = choose|i: int| 0 <= i < q.len() && q[i] == v;
                assert(b[i] == v);
                assert(a.contains(v));
                let j = choose|j: int| 0 <= j < a.len() && a[j] == v;
                assert(b[i] < b.last());
                assert(p[j] == v);
            }
        }
        lemma_ascending_unique(p, q);
        assert(a == p.push(a.last()));
        assert(b == q.push(b.last()));
    }
}

/// The position of `v` in an ascending vector, or where it would stand.
pub fn position_of(s: &[usize], v: usize) -> (r: (usize, bool))
    requires
        ascending(s@),
    ensures
        r.0 <= s@.len(),
        forall|i: int| 0 <= i < r.0 ==> s@[i] < v,
        forall|i: int| r.0 <= i < s@.len() ==> v <= s@[i],
        r.1 == s@.contains(v),
        r.1 ==> r.0 < s@.len() && s@[r.0 as int] == v,
{
    let mut p: usize = 0;
    while p < s.len() && s[p] < v
        invariant
            p <= s@.len(),
            forall|i: int| 0 <= i < p ==> s@[i] < v,
        decreases s@.len() - p,
    {
        p += 1;
    }
    let found = p < s.len() && s[p] == v;
    proof {
        if !found {
            assert forall|i: int| 0 <= i < s@.len() implies s@[i] != v by {
                if i > p {
                    assert(s@[p as int] < s@[i]);
                }
            }
        }
    }
    (p, found)
}

/// Add `v` to an ascending vector.
pub fn insert_sorted(s: &mut Vec<usize>, v: usize)
    requires
        ascending(old(s)@),
    ensures
        ascending(final(s)@),
        forall|u: usize| final(s)@.contains(u) == (old(s)@.contains(u) || u == v),
{
    let ghost a = s@;
    let (p, found) = position_of(s.as_slice(), v);
    if !found {
        s.insert(p, v);
        proof {
            let b = a.insert(p as int, v);
            assert forall|u: usize| b.contains(u) == (a.contains(u) || u == v) by {
                if a.contains(u) {
                    let i = choose|i: int| 0 <= i < a.len() && a[i] == u;
                    if i < p {
                        assert(b[i] == u);
                    } else {
                        assert(b[i + 1] == u);
                    }
                }
                if u == v {
                    assert(b[p as int] == v);
                }
                if b.contains(u) {
                    let i = choose|i: int| 0 <= i < b.len() && b[i] == u;
                    if i < p {
                        assert(a[i] == u);
                    } else if i > p {
                        assert(a[i - 1] == u);
                    }
                }
            }
            assert forall|i: int, j: int| 0 <= i < j < b.len() implies b[i] < b[j] by {
                if i == p {
                    assert(v <= a[j - 1]);
                    assert(a[j - 1] != v) by {
                        assert(!a.contains(v));
                        assert(a.contains(a[j - 1]));
                    }
                }
            }
        }
    }
}

/// Add `v` when absent, remove it when present.
pub fn toggle_sorted(s: &mut Vec<usize>, v: usize)
    requires
        ascending(old(s)@),
    ensures
        ascending(final(s)@),
        forall|u: usize| final(s)@.contains(u) == (old(s)@.contains(u) != (u == v)),
{
    let ghost a = s@;
    let (p, found) = position_of(s.as_slice(), v);
    if found {
        s.remove(p);
        proof {
            let b = a.remove(p as int);
            assert forall|u: usize| b.contains(u) == (a.contains(u) != (u == v)) by {
                if a.contains(u) && u != v {
                    let i = choose|i: int| 0 <= i < a.len() && a[i] == u;
                    if i < p {
                        assert(b[i] == u);
                    } else {
                        assert(b[i - 1] == u);
                    }
                }
                if b.contains(u) {
                    let i = choose|i: int| 0 <= i < b.len() && b[i] == u;
                    if i < p {
                        assert(a[i] == u);
                        assert(a[i] < a[p as int]);
                    } else {
                        assert(a[i + 1] == u);
                        assert(a[p as int] < a[i + 1]);
                    }
                }
            }
        }
    } else {
        insert_sorted(s, v);
    }
}

/// The union of two ascending sequences, ascending.
pub fn sorted_union(a: &[usize], b: &[usize]) -> (r: Vec<usize>)
    requires
        ascending(a@),
        ascending(b@),
    ensures
        ascending(r@),
        forall|v: usize| r@.contains(v) == (a@.contains(v) || b@.contains(v)),
{
    let mut out: Vec<usize> = Vec::new();
    let mut i: usize = 0;
    while i < a.len()
        invariant
            i <= a@.len(),
            ascending(out@),
            forall|v: usize| out@.contains(v) == a@.take(i as int).contains(v),
        decreases a@.len() - i,
    {
        insert_sorted(&mut out, a[i]);
        proof {
            lemma_contains_take(a@, i as int);
        }
        i += 1;
    }
    let mut j: usize = 0;
    proof {
        assert(a@.take(i as int) == a@);
    }
    while j < b.len()
        invariant
            j <= b@.len(),
            ascending(out@),
            forall|v: usize| out@.contains(v) == (a@.contains(v) || b@.take(j as int).contains(v)),
        decreases b@.len() - j,
    {
        insert_sorted(&mut out, b[j]);
        proof {
            lemma_contains_take(b@, j as int);
        }
        j += 1;
    }
    proof {
        assert(b@.take(j as int) == b@);
    }
    out
}

/// An ascending list within another is shorter, unless they are equal.
pub proof fn lemma_ascending_within(k: Seq<usize>, key: Seq<usize>)
    requires
        ascending(k),
        ascending(key),
        forall|j: int| 0 <= j < k.len() ==> key.contains(#[trigger] k[j]),
    ensures
        k.len() <= key.len(),
        k != key ==> k.len() < key.len(),
{
    let a = k.to_set();
    let b = key.to_set();
    assert(k.no_duplicates());
    assert(key.no_duplicates());
    k.unique_seq_to_set();
    key.unique_seq_to_set();
    vstd::seq_lib::seq_to_set_is_finite(k);
    vstd::seq_lib::seq_to_set_is_finite(key);
    assert(a.subset_of(b)) by {
        assert forall|v: usize| a.contains(v) implies b.contains(v) by {
            let j = k.index_of(v);
            assert(key.contains(k[j]));
        }
    }
    vstd::set_lib::lemma_len_subset(a, b);
    if k.len() == key.len() {
        vstd::set_lib::lemma_subset_equality(a, b);
        assert forall|v: usize| k.contains(v) == key.contains(v) by {
            assert(a.contains(v) == b.contains(v));
        }
        lemma_ascending_unique(k, key);
    }
}

/// One more entry adds one member to a prefix.
pub proof fn lemma_contains_take<A>(s: Seq<A>, k: int)
    requires
        0 <= k < s.len(),
    ensures
        forall|v: A| s.take(k + 1).contains(v) == (s.take(k).contains(v) || v == s[k]),
{
    assert(s.take(k + 1) == s.take(k).push(s[k]));
    assert forall|v: A| s.take(k + 1).contains(v) == (s.take(k).contains(v) || v == s[k]) by {
        let t = s.take(k + 1);
        if s.take(k).contains(v) {
            let i = choose|i: int| 0 <= i < k && s.take(k)[i] == v;
            assert(t[i] == v);
        }
        if v == s[k] {
            assert(t[k] == v);
        }
        if t.contains(v) {
            let i = choose|i: int| 0 <= i < k + 1 && t[i] == v;
            if i < k {
                assert(s.take(k)[i] == v);
            }
        }
    }
}

/// Whether `v` is listed.
pub fn member(s: &[usize], v: usize) -> (r: bool)
    ensures
        r == s@.contains(v),
{
    let mut i: usize = 0;
    while i < s.len()
        invariant
            i <= s@.len(),
            forall|j: int| 0 <= j < i ==> s@[j] != v,
        decreases s@.len() - i,
    {
        if s[i] == v {
            assert(s@[i as int] == v);
            return true;
        }
        i += 1;
    }
    false
}

} // verus!
