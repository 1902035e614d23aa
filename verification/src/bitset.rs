//! Contracts for the fixed-size bit set of the `fixedbitset` crate.
//!
//! A bit set is modelled by the sequence of its bits.

use fixedbitset::FixedBitSet;
use vstd::prelude::*;

verus! {

/// The bit set of the `fixedbitset` crate.
#[verifier::external_type_specification]
#[verifier::external_body]
pub struct ExFixedBitSet(FixedBitSet);

/// The bits of a set, in index order; the sequence is as long as the set.
pub uninterp spec fn bits(b: FixedBitSet) -> Seq<bool>;

/// How many entries of `s` are true.
pub open spec fn count_true(s: Seq<bool>) -> nat
    decreases s.len(),
{
    if s.len() == 0 {
        0
    } else {
        count_true(s.drop_last()) + (if s.last() {
            1nat
        } else {
            0nat
        })
    }
}

/// `FixedBitSet::with_capacity`: a set of `bits` bits, all clear.
pub assume_specification[ FixedBitSet::with_capacity ](n: usize) -> (r: FixedBitSet)
    ensures
        bits(r) == Seq::new(n as nat, |i: int| false),
;

/// `FixedBitSet::len`: the number of bits.
pub assume_specification[ FixedBitSet::len ](b: &FixedBitSet) -> (r: usize)
    ensures
        r == bits(*b).len(),
;

/// `FixedBitSet::contains`: the bit at an index, clear outside the set.
pub assume_specification[ FixedBitSet::contains ](b: &FixedBitSet, bit: usize) -> (r: bool)
    ensures
        r == (bit < bits(*b).len() && bits(*b)[bit as int]),
;

/// `FixedBitSet::insert`: sets one bit; panics outside the set.
pub assume_specification[ FixedBitSet::insert ](b: &mut FixedBitSet, bit: usize)
    requires
        bit < bits(*old(b)).len(),
    ensures
        bits(*final(b)) == bits(*old(b)).update(bit as int, true),
;

/// `FixedBitSet::set`: writes one bit; panics outside the set.
pub assume_specification[ FixedBitSet::set ](b: &mut FixedBitSet, bit: usize, enabled: bool)
    requires
        bit < bits(*old(b)).len(),
    ensures
        bits(*final(b)) == bits(*old(b)).update(bit as int, enabled),
;

/// `FixedBitSet::toggle`: negates one bit; panics outside the set.
pub assume_specification[ FixedBitSet::toggle ](b: &mut FixedBitSet, bit: usize)
    requires
        bit < bits(*old(b)).len(),
    ensures
        bits(*final(b)) == bits(*old(b)).update(bit as int, !bits(*old(b))[bit as int]),
;

/// `FixedBitSet::clear`: clears every bit and keeps the length.
pub assume_specification[ FixedBitSet::clear ](b: &mut FixedBitSet)
    ensures
        bits(*final(b)) == Seq::new(bits(*old(b)).len(), |i: int| false),
;

/// `FixedBitSet::clone`: a set with the same bits.
pub assume_specification[ <FixedBitSet as Clone>::clone ](b: &FixedBitSet) -> (r: FixedBitSet)
    ensures
        bits(r) == bits(*b),
;

/// `FixedBitSet::set_range` over the full range: writes every bit.
#[verifier::external_body]
pub(crate) fn set_all(b: &mut FixedBitSet, enabled: bool)
    ensures
        bits(*final(b)) == Seq::new(bits(*old(b)).len(), |i: int| enabled),
{
    b.set_range(.., enabled);
}

/// `FixedBitSet::count_ones` over the full range: how many bits are set.
#[verifier::external_body]
pub(crate) fn count_ones(b: &FixedBitSet) -> (r: usize)
    ensures
        r == count_true(bits(*b)),
{
    b.count_ones(..)
}

/// The indices of the set bits, ascending.
pub open spec fn ones_of(s: Seq<bool>) -> Seq<usize>
    decreases s.len(),
{
    if s.len() == 0 {
        Seq::empty()
    } else if s.last() {
        ones_of(s.drop_last()).push((s.len() - 1) as usize)
    } else {
        ones_of(s.drop_last())
    }
}

/// `FixedBitSet::ones`: the indices of the set bits in ascending order,
/// collected into a vector.
#[verifier::external_body]
pub(crate) fn ones(b: &FixedBitSet) -> (r: Vec<usize>)
    ensures
        r@ == ones_of(bits(*b)),
{
    b.ones().collect()
}

/// Every entry of `ones_of` is the index of a true entry, in strictly
/// ascending order, and every true entry is listed.
pub proof fn lemma_ones_of(s: Seq<bool>)
    requires
        s.len() <= usize::MAX,
    ensures
        forall|k: int|
            0 <= k < ones_of(s).len() ==> (#[trigger] ones_of(s)[k]) < s.len()
                && s[ones_of(s)[k] as int],
        forall|j: int, k: int|
            0 <= j < k < ones_of(s).len() ==> ones_of(s)[j] < ones_of(s)[k],
        forall|i: int| 0 <= i < s.len() && s[i] ==> ones_of(s).contains(#[trigger] (i as usize)),
    decreases s.len(),
{
    if s.len() > 0 {
        let p = s.drop_last();
        lemma_ones_of(p);
        assert forall|i: int| 0 <= i < s.len() && s[i] implies ones_of(s).contains(
            #[trigger] (i as usize),
        ) by {
            if i < p.len() {
                assert(p[i]);
                assert(ones_of(p).contains(i as usize));
                let k = choose|k: int|
                    0 <= k < ones_of(p).len() && ones_of(p)[k] == i as usize;
                assert(ones_of(s)[k] == i as usize);
            } else {
                assert(ones_of(s)[ones_of(s).len() - 1] == i as usize);
            }
        }
    }
}

/// Writing one entry changes the count by the difference of the entries.
pub proof fn lemma_count_true_update(s: Seq<bool>, i: int, b: bool)
    requires
        0 <= i < s.len(),
    ensures
        count_true(s.update(i, b)) == count_true(s) - (if s[i] {
            1int
        } else {
            0int
        }) + (if b {
            1int
        } else {
            0int
        }),
    decreases s.len(),
{
    let u = s.update(i, b);
    if i == s.len() - 1 {
        assert(u.drop_last() == s.drop_last());
    } else {
        assert(u.drop_last() == s.drop_last().update(i, b));
        lemma_count_true_update(s.drop_last(), i, b);
    }
}

/// A count never exceeds the length.
pub proof fn lemma_count_true_bound(s: Seq<bool>)
    ensures
        count_true(s) <= s.len(),
    decreases s.len(),
{
    if s.len() > 0 {
        lemma_count_true_bound(s.drop_last());
    }
}

} // verus!
