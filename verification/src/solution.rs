//! Complete assignments, one bit per variable.

use crate::bitset;
use crate::domain::{Bin, Spin, VarDomain, VarType};
use crate::domain;
use crate::instance::HuboInstance;
use crate::instance;
use crate::term;
use fixedbitset::FixedBitSet;
use vstd::prelude::*;

verus! {

/// A complete assignment; a set bit is the high value (1 or +1).
#[derive(Debug)]
pub struct BitSolution {
    pub values: FixedBitSet,
}

impl View for BitSolution {
    type V = Seq<bool>;

    /// The bit of each variable.
    open spec fn view(&self) -> Seq<bool> {
        bitset::bits(self.values)
    }
}

impl Clone for BitSolution {
    fn clone(&self) -> (r: Self)
        ensures
            r@ == self@,
    {
        BitSolution { values: self.values.clone() }
    }
}

/// The assignment with variable `v` flipped.
pub open spec fn flipped(x: Seq<bool>, v: int) -> Seq<bool> {
    x.update(v, !x[v])
}

impl BitSolution {
    /// Every variable low.
    pub fn new(n: usize) -> (r: Self)
        ensures
            r@ == Seq::new(n as nat, |i: int| false),
    {
        BitSolution { values: FixedBitSet::with_capacity(n) }
    }

    /// One variable per entry, high where the entry is true.
    pub fn from_bool_vec(bits: Vec<bool>) -> (r: Self)
        ensures
            r@ == bits@,
    {
        let mut s = BitSolution::new(bits.len());
        let mut i: usize = 0;
        while i < bits.len()
            invariant
                i <= bits@.len(),
                s@.len() == bits@.len(),
                forall|j: int| 0 <= j < i ==> s@[j] == bits@[j],
            decreases bits@.len() - i,
        {
            s.values.set(i, bits[i]);
            i += 1;
        }
        assert(s@ =~= bits@);
        s
    }

    /// One variable per entry, high where the entry is positive.
    pub fn from_vec(values: &[i64]) -> (r: Self)
        ensures
            r@ == Seq::new(values@.len(), |i: int| values@[i] > 0),
    {
        let mut s = BitSolution::new(values.len());
        let mut i: usize = 0;
        while i < values.len()
            invariant
                i <= values@.len(),
                s@.len() == values@.len(),
                forall|j: int| 0 <= j < i ==> s@[j] == (values@[j] > 0),
            decreases values@.len() - i,
        {
            s.values.set(i, values[i] > 0);
            i += 1;
        }
        assert(s@ =~= Seq::new(values@.len(), |i: int| values@[i] > 0));
        s
    }

    /// Flip one variable.
    pub fn flip(&mut self, var: usize)
        requires
            var < old(self)@.len(),
        ensures
            final(self)@ == flipped(old(self)@, var as int),
    {
        self.values.toggle(var);
    }

    /// Whether each variable is high.
    pub fn to_bool_vec(&self) -> (r: Vec<bool>)
        ensures
            r@ == self@,
    {
        let n: usize = self.values.len();
        let mut r: Vec<bool> = Vec::new();
        let mut i: usize = 0;
        while i < n
            invariant
                i <= n,
                n == self@.len(),
                r@ == self@.take(i as int),
            decreases n - i,
        {
            r.push(self.values.contains(i));
            i += 1;
            assert(r@ =~= self@.take(i as int));
        }
        assert(r@ =~= self@);
        r
    }

    /// The value of each variable.
    pub fn to_vec(&self, var_type: VarType) -> (r: Vec<i64>)
        ensures
            r@.len() == self@.len(),
            forall|i: int|
                0 <= i < r@.len() ==> #[trigger] r@[i] == term::bit_value(
                    var_type,
                    self@[i],
                ),
    {
        let n: usize = self.values.len();
        let mut out: Vec<i64> = Vec::new();
        let mut i: usize = 0;
        while i < n
            invariant
                i <= n,
                n == self@.len(),
                out@.len() == i,
                forall|j: int|
                    0 <= j < i ==> #[trigger] out@[j] == term::bit_value(
                        var_type,
                        self@[j],
                    ),
            decreases n - i,
        {
            let high = self.values.contains(i);
            out.push(
                match var_type {
                    VarType::Bin => Bin::high_to_coeff(high),
                    VarType::Spin => Spin::high_to_coeff(high),
                },
            );
            i += 1;
        }
        out
    }

    /// One character per variable.
    pub fn format_string(&self, var_type: VarType) -> (r: String)
        ensures
            r@ == format_text(var_type, self@),
    {
        let n: usize = self.values.len();
        let mut out = String::new();
        let mut i: usize = 0;
        while i < n
            invariant
                i <= n,
                n == self@.len(),
                out@ == format_text(var_type, self@.take(i as int)),
            decreases n - i,
        {
            let high = self.values.contains(i);
            let c: char = match var_type {
                VarType::Bin => Bin::format_char(high),
                VarType::Spin => Spin::format_char(high),
            };
            out.push(c);
            assert(format_text(var_type, self@.take(i + 1)) =~= format_text(
                var_type,
                self@.take(i as int),
            ).push(c));
            i += 1;
        }
        assert(self@.take(n as int) =~= self@);
        out
    }

    /// The objective value.
    pub fn evaluate<V: VarDomain>(&self, instance: &HuboInstance<V>) -> (r: i64)
        requires
            instance.evaluable(self@),
        ensures
            r == instance.objective(self@),
    {
        instance.evaluate_bitsol(self)
    }

    /// The local field of every variable.
    pub fn local_fields<V: VarDomain>(&self, instance: &HuboInstance<V>) -> (r: Vec<i64>)
        requires
            instance.wf(),
            instance.fits(),
            self@.len() == instance.n(),
        ensures
            r@.len() == instance.n(),
            forall|v: int|
                0 <= v < r@.len() ==> #[trigger] r@[v] == instance::field_sum(
                    V::tag(),
                    instance.terms@,
                    self@,
                    v as usize,
                ),
    {
        V::local_fields(instance, self)
    }
}

/// One character per variable.
pub open spec fn format_text(vt: VarType, x: Seq<bool>) -> Seq<char> {
    Seq::new(x.len(), |i: int| domain::spec_format_char(vt, x[i]))
}

} // verus!
