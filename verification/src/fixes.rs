//! Partial assignments of variables.

use crate::bitset;
use crate::domain::{VarDomain, VarType};
use crate::domain;
use crate::text;
use fixedbitset::FixedBitSet;
use vstd::prelude::*;

verus! {

/// The variables fixed at a node of the search tree.
#[derive(Debug)]
pub struct Fixes {
    /// Bit `i` is set iff variable `i` is fixed.
    pub assigned: FixedBitSet,
    /// The fixed value of variable `i`: set means the high value (1 or +1).
    pub values: FixedBitSet,
}

impl View for Fixes {
    type V = Seq<Option<bool>>;

    /// For each variable, its fixed value if it has one.
    open spec fn view(&self) -> Seq<Option<bool>> {
        Seq::new(
            bitset::bits(self.assigned).len(),
            |i: int|
                if bitset::bits(self.assigned)[i] {
                    Some(bitset::bits(self.values)[i])
                } else {
                    None
                },
        )
    }
}

/// The fixed value of variable `i`; free outside the list.
pub open spec fn fixed_at(f: Seq<Option<bool>>, i: int) -> Option<bool> {
    if 0 <= i < f.len() {
        f[i]
    } else {
        None
    }
}

/// How many variables are fixed.
pub open spec fn fixed_count(f: Seq<Option<bool>>) -> nat
    decreases f.len(),
{
    if f.len() == 0 {
        0
    } else {
        fixed_count(f.drop_last()) + (if f.last() is Some {
            1nat
        } else {
            0nat
        })
    }
}

/// The free variables, ascending.
pub open spec fn free_vars(f: Seq<Option<bool>>) -> Seq<usize>
    decreases f.len(),
{
    if f.len() == 0 {
        Seq::empty()
    } else if f.last() is None {
        free_vars(f.drop_last()).push((f.len() - 1) as usize)
    } else {
        free_vars(f.drop_last())
    }
}

/// The fixed variables with their values, ascending.
pub open spec fn fixed_vars(f: Seq<Option<bool>>) -> Seq<(usize, bool)>
    decreases f.len(),
{
    if f.len() == 0 {
        Seq::empty()
    } else {
        match f.last() {
            Some(b) => fixed_vars(f.drop_last()).push(((f.len() - 1) as usize, b)),
            None => fixed_vars(f.drop_last()),
        }
    }
}

/// Both lists fix variable `i`, to different values.
pub open spec fn conflict_at(f: Seq<Option<bool>>, g: Seq<Option<bool>>, i: int) -> bool {
    fixed_at(f, i) is Some && fixed_at(g, i) is Some && fixed_at(f, i) != fixed_at(g, i)
}

/// `f` with the values of `g` added.
pub open spec fn merged_fixes(f: Seq<Option<bool>>, g: Seq<Option<bool>>) -> Seq<Option<bool>> {
    Seq::new(
        f.len(),
        |i: int|
            if fixed_at(g, i) is Some {
                fixed_at(g, i)
            } else {
                f[i]
            },
    )
}

/// Why a variable could not be fixed.
#[derive(Debug, Clone)]
pub enum FixError {
    ConflictingFixes { index: usize },
    InvalidVariableIndex { index: usize, n_vars: usize },
    InvalidFixValue { index: usize, value: String, var_type: VarType },
}

/// The name of a variable domain.
pub open spec fn var_type_name(vt: VarType) -> Seq<char> {
    match vt {
        VarType::Bin => "Bin"@,
        VarType::Spin => "Spin"@,
    }
}

impl FixError {
    /// The text of the error.
    pub open spec fn spec_message(&self) -> Seq<char> {
        match *self {
            FixError::ConflictingFixes { index } => "Conflicting fixes for variable index "@
                + text::decimal(index as nat),
            FixError::InvalidVariableIndex { index, n_vars } => "Variable index "@ + text::decimal(
                index as nat,
            ) + " is out of bounds (0.."@ + text::decimal(n_vars as nat) + ")"@,
            FixError::InvalidFixValue { index, value, var_type } => "Invalid fix value "@ + value@
                + " for variable index "@ + text::decimal(index as nat) + " (type: "@ + var_type_name(
                var_type,
            ) + ")"@,
        }
    }

    /// The text of the error.
    pub fn message(&self) -> (r: String)
        ensures
            r@ == self.spec_message(),
    {
        let mut s = String::new();
        match self {
            FixError::ConflictingFixes { index } => {
                s.push_str("Conflicting fixes for variable index ");
                text::push_decimal(&mut s, *index as u64);
            },
            FixError::InvalidVariableIndex { index, n_vars } => {
                s.push_str("Variable index ");
                text::push_decimal(&mut s, *index as u64);
                s.push_str(" is out of bounds (0..");
                text::push_decimal(&mut s, *n_vars as u64);
                s.push_str(")");
            },
            FixError::InvalidFixValue { index, value, var_type } => {
                s.push_str("Invalid fix value ");
                s.push_str(value.as_str());
                s.push_str(" for variable index ");
                text::push_decimal(&mut s, *index as u64);
                s.push_str(" (type: ");
                match var_type {
                    VarType::Bin => s.push_str("Bin"),
                    VarType::Spin => s.push_str("Spin"),
                }
                s.push_str(")");
            },
        }
        s
    }
}

impl Clone for Fixes {
    fn clone(&self) -> (r: Self)
        ensures
            r@ == self@,
            self.wf() ==> r.wf(),
    {
        Fixes { assigned: self.assigned.clone(), values: self.values.clone() }
    }
}

impl Fixes {
    /// Both bit sets have one bit per variable.
    pub open spec fn wf(&self) -> bool {
        bitset::bits(self.values).len() == bitset::bits(self.assigned).len()
    }

    /// No variable fixed.
    pub fn new(n_vars: usize) -> (r: Self)
        ensures
            r.wf(),
            r@ == Seq::new(n_vars as nat, |i: int| None::<bool>),
    {
        Fixes {
            assigned: FixedBitSet::with_capacity(n_vars),
            values: FixedBitSet::with_capacity(n_vars),
        }
    }

    /// Fix a variable to a value of the domain.
    pub fn fix_variable<V: VarDomain>(&mut self, var_idx: usize, value: i64) -> (r: Result<
        (),
        FixError,
    >)
        requires
            old(self).wf(),
        ensures
            final(self).wf(),
            var_idx >= old(self)@.len() ==> (r matches Err(
                FixError::InvalidVariableIndex { index, n_vars },
            ) && index == var_idx && n_vars == old(self)@.len()),
            var_idx < old(self)@.len() && !crate::domain::valid_value(V::tag(), value as int)
                ==> (r matches Err(FixError::InvalidFixValue { index, value: v, var_type })
                && index == var_idx && v@ == text::decimal_int(value as int) && var_type == V::tag()),
            var_idx < old(self)@.len() && crate::domain::valid_value(V::tag(), value as int) && old(
                self,
            )@[var_idx as int] == Some(value != 1) ==> (r matches Err(
                FixError::ConflictingFixes { index },
            ) && index == var_idx),
            var_idx < old(self)@.len() && crate::domain::valid_value(V::tag(), value as int) && old(
                self,
            )@[var_idx as int] != Some(value != 1) ==> r is Ok && final(self)@ == old(self)@.update(
                var_idx as int,
                Some(value == 1),
            ),
            r is Err ==> final(self)@ == old(self)@,
    {
        let n_vars: usize = self.assigned.len();
        if var_idx >= n_vars {
            return Err(FixError::InvalidVariableIndex { index: var_idx, n_vars });
        }
        if !V::is_valid_value(value) {
            let mut text = String::new();
            text::push_decimal_int(&mut text, value);
            return Err(
                FixError::InvalidFixValue { index: var_idx, value: text, var_type: V::var_type() },
            );
        }
        self.set(var_idx, value == 1)
    }

    /// Fix a variable to its high or low value.
    pub fn set(&mut self, var_idx: usize, high: bool) -> (r: Result<(), FixError>)
        requires
            old(self).wf(),
        ensures
            final(self).wf(),
            var_idx >= old(self)@.len() ==> (r matches Err(
                FixError::InvalidVariableIndex { index, n_vars },
            ) && index == var_idx && n_vars == old(self)@.len()),
            var_idx < old(self)@.len() && old(self)@[var_idx as int] == Some(!high)
                ==> (r matches Err(FixError::ConflictingFixes { index }) && index == var_idx),
            var_idx < old(self)@.len() && old(self)@[var_idx as int] != Some(!high) ==> r is Ok
                && final(self)@ == old(self)@.update(var_idx as int, Some(high)),
            r is Err ==> final(self)@ == old(self)@,
    {
        let n_vars: usize = self.assigned.len();
        if var_idx >= n_vars {
            return Err(FixError::InvalidVariableIndex { index: var_idx, n_vars });
        }
        if self.assigned.contains(var_idx) && self.values.contains(var_idx) != high {
            return Err(FixError::ConflictingFixes { index: var_idx });
        }
        self.assigned.insert(var_idx);
        self.values.set(var_idx, high);
        proof {
            assert(self@ =~= old(self)@.update(var_idx as int, Some(high)));
        }
        Ok(())
    }

    /// Add the fixes of `step` to a copy of these.
    pub fn compose(&self, step: &Fixes) -> (r: Result<Self, FixError>)
        requires
            self.wf(),
            step.wf(),
            forall|i: int| self@.len() <= i < step@.len() ==> (#[trigger] step@[i]) is None,
        ensures
            r matches Ok(f) ==> f.wf() && f@ == merged_fixes(self@, step@),
            r is Ok <==> forall|i: int| 0 <= i < self@.len() ==> !#[trigger] conflict_at(
                self@,
                step@,
                i,
            ),
            r matches Err(e) ==> (e matches FixError::ConflictingFixes { index } && conflict_at(
                self@,
                step@,
                index as int,
            ) && forall|i: int| 0 <= i < index ==> !#[trigger] conflict_at(self@, step@, i)),
    {
        let mut assigned = self.assigned.clone();
        let mut values = self.values.clone();
        let list = bitset::ones(&step.assigned);
        let ghost sa = bitset::bits(step.assigned);
        let ghost sv = bitset::bits(step.values);
        let step_len: usize = step.assigned.len();
        proof {
            assert(sa.len() == step_len);
            bitset::lemma_ones_of(sa);
            assert forall|i: int| 0 <= i < sa.len() && #[trigger] sa[i] implies list@.len() > 0
                && list@[0] <= i by {
                assert(list@.contains(i as usize));
                let j = choose|j: int| 0 <= j < list@.len() && list@[j] == i as usize;
            }
        }
        let mut k: usize = 0;
        while k < list.len()
            invariant
                k <= list@.len(),
                list@ == bitset::ones_of(sa),
                sa == bitset::bits(step.assigned),
                sv == bitset::bits(step.values),
                self.wf(),
                step.wf(),
                sa.len() <= usize::MAX,
                forall|i: int| self@.len() <= i < step@.len() ==> (#[trigger] step@[i]) is None,
                bitset::bits(assigned).len() == self@.len(),
                bitset::bits(values).len() == self@.len(),
                forall|j: int|
                    0 <= j < list@.len() ==> (#[trigger] list@[j]) < sa.len() && sa[list@[j] as int],
                forall|i: int, j: int| 0 <= i < j < list@.len() ==> list@[i] < list@[j],
                forall|i: int| 0 <= i < sa.len() && sa[i] ==> list@.contains(#[trigger] (i as usize)),
                // Entries below the next listed index are settled.
                forall|i: int|
                    0 <= i < self@.len() && (k < list@.len() ==> i < list@[k as int]) ==> !(
                    #[trigger] conflict_at(self@, step@, i)),
                forall|i: int|
                    #![trigger bitset::bits(assigned)[i]]
                    #![trigger bitset::bits(values)[i]]
                    0 <= i < self@.len() ==> if i < sa.len() && sa[i] && (k < list@.len() ==> i
                        < list@[k as int]) {
                        bitset::bits(assigned)[i] && bitset::bits(values)[i] == sv[i]
                    } else {
                        bitset::bits(assigned)[i] == bitset::bits(self.assigned)[i] && bitset::bits(values)[i] == bitset::bits(
                            self.values,
                        )[i]
                    },
            decreases list@.len() - k,
        {
            let step_idx: usize = list[k];
            assert(step@[step_idx as int] is Some);
            assert(step_idx < self@.len());
            if assigned.contains(step_idx) && values.contains(step_idx) != step.values.contains(
                step_idx,
            ) {
                assert(conflict_at(self@, step@, step_idx as int));
                return Err(FixError::ConflictingFixes { index: step_idx });
            }
            assigned.insert(step_idx);
            values.set(step_idx, step.values.contains(step_idx));
            proof {
                assert forall|i: int|
                    0 <= i < self@.len() && (k + 1 < list@.len() ==> i < list@[k + 1]) implies !(
                #[trigger] conflict_at(self@, step@, i)) by {
                    if i > step_idx {
                        if i < sa.len() && sa[i] {
                            assert(list@.contains(i as usize));
                            let j = choose|j: int| 0 <= j < list@.len() && list@[j] == i as usize;
                            assert(j > k);
                            assert(false);
                        }
                    }
                }
                assert forall|i: int|
                    0 <= i < self@.len() && i < sa.len() && sa[i] && i > step_idx && (k + 1
                        < list@.len() ==> i < list@[k + 1]) implies false by {
                    assert(list@.contains(i as usize));
                    let j = choose|j: int| 0 <= j < list@.len() && list@[j] == i as usize;
                    assert(j > k);
                }
            }
            k += 1;
        }
        let r = Fixes { assigned, values };
        proof {
            assert(r@ =~= merged_fixes(self@, step@)) by {
                assert forall|i: int| 0 <= i < self@.len() implies r@[i] == merged_fixes(
                    self@,
                    step@,
                )[i] by {
                    let t = bitset::bits(assigned)[i];
                }
            }
        }
        Ok(r)
    }

    /// Free every variable.
    pub fn clear(&mut self)
        requires
            old(self).wf(),
        ensures
            final(self).wf(),
            final(self)@ == Seq::new(old(self)@.len(), |i: int| None::<bool>),
    {
        self.assigned.clear();
        self.values.clear();
        assert(self@ =~= Seq::new(old(self)@.len(), |i: int| None::<bool>));
    }

    /// The number of fixed variables.
    pub fn num_fixed(&self) -> (r: usize)
        requires
            self.wf(),
        ensures
            r == fixed_count(self@),
    {
        proof {
            lemma_fixed_count(self@, bitset::bits(self.assigned));
        }
        bitset::count_ones(&self.assigned)
    }

    /// The number of free variables.
    pub fn num_free(&self) -> (r: usize)
        requires
            self.wf(),
        ensures
            r == self@.len() - fixed_count(self@),
    {
        proof {
            lemma_fixed_count(self@, bitset::bits(self.assigned));
            bitset::lemma_count_true_bound(bitset::bits(self.assigned));
        }
        self.assigned.len() - bitset::count_ones(&self.assigned)
    }

    /// The fixed value of a variable, if it has one.
    pub fn get(&self, var_idx: usize) -> (r: Option<bool>)
        requires
            self.wf(),
        ensures
            r == fixed_at(self@, var_idx as int),
    {
        if self.assigned.contains(var_idx) {
            Some(self.values.contains(var_idx))
        } else {
            None
        }
    }

    /// The fixed variables with their values, ascending.
    pub fn iter_fixed(&self) -> (r: Vec<(usize, bool)>)
        requires
            self.wf(),
        ensures
            r@ == fixed_vars(self@),
    {
        let list = bitset::ones(&self.assigned);
        let mut out: Vec<(usize, bool)> = Vec::new();
        let ghost a = bitset::bits(self.assigned);
        let n: usize = self.assigned.len();
        proof {
            assert(a.len() == n);
            bitset::lemma_ones_of(a);
        }
        let mut k: usize = 0;
        while k < list.len()
            invariant
                k <= list@.len(),
                list@ == bitset::ones_of(bitset::bits(self.assigned)),
                self.wf(),
                forall|j: int|
                    0 <= j < list@.len() ==> (#[trigger] list@[j]) < bitset::bits(self.assigned).len(),
                out@.len() == k,
                forall|j: int|
                    0 <= j < k ==> #[trigger] out@[j] == (
                        list@[j],
                        bitset::bits(self.values)[list@[j] as int],
                    ),
            decreases list@.len() - k,
        {
            let idx: usize = list[k];
            out.push((idx, self.values.contains(idx)));
            k += 1;
        }
        proof {
            lemma_fixed_vars(self@, a, bitset::bits(self.values));
            assert(out@ =~= fixed_vars(self@));
        }
        out
    }

    /// The free variables, ascending.
    pub fn iter_free(&self) -> (r: Vec<usize>)
        requires
            self.wf(),
        ensures
            r@ == free_vars(self@),
    {
        let n: usize = self.assigned.len();
        let mut out: Vec<usize> = Vec::new();
        let mut i: usize = 0;
        assert(self@.take(0) =~= Seq::empty());
        while i < n
            invariant
                i <= n,
                n == self@.len(),
                self.wf(),
                out@ == free_vars(self@.take(i as int)),
            decreases n - i,
        {
            assert(self@.take(i + 1).drop_last() =~= self@.take(i as int));
            if !self.assigned.contains(i) {
                out.push(i);
            }
            i += 1;
        }
        assert(self@.take(n as int) =~= self@);
        out
    }

    /// The free variables, ascending.
    pub fn iter_unassigned(&self) -> (r: Vec<usize>)
        requires
            self.wf(),
        ensures
            r@ == free_vars(self@),
    {
        self.iter_free()
    }
}

/// The free variables are those without a value.
pub proof fn lemma_free_vars(f: Seq<Option<bool>>)
    requires
        f.len() <= usize::MAX,
    ensures
        crate::sets::ascending(free_vars(f)),
        forall|i: int|
            0 <= i < free_vars(f).len() ==> (#[trigger] free_vars(f)[i]) < f.len()
                && f[free_vars(f)[i] as int] is None,
        forall|v: usize| free_vars(f).contains(v) == (v < f.len() && f[v as int] is None),
    decreases f.len(),
{
    if f.len() > 0 {
        let g = f.drop_last();
        lemma_free_vars(g);
        let a = free_vars(g);
        let b = free_vars(f);
        assert forall|v: usize| b.contains(v) == (v < f.len() && f[v as int] is None) by {
            if a.contains(v) {
                let i = choose|i: int| 0 <= i < a.len() && a[i] == v;
                assert(b[i] == v);
            }
            if v == f.len() - 1 && f.last() is None {
                assert(b[b.len() - 1] == v);
            }
            if b.contains(v) {
                let i = choose|i: int| 0 <= i < b.len() && b[i] == v;
                if i < a.len() {
                    assert(a[i] == v);
                    assert(a.contains(v));
                }
            }
        }
    }
}

proof fn lemma_fixed_vars(f: Seq<Option<bool>>, a: Seq<bool>, v: Seq<bool>)
    requires
        f.len() == a.len(),
        v.len() == a.len(),
        a.len() <= usize::MAX,
        forall|i: int|
            0 <= i < a.len() ==> #[trigger] f[i] == (if a[i] {
                Some(v[i])
            } else {
                None
            }),
    ensures
        fixed_vars(f).len() == bitset::ones_of(a).len(),
        forall|j: int|
            0 <= j < bitset::ones_of(a).len() ==> #[trigger] fixed_vars(f)[j] == (
                bitset::ones_of(a)[j],
                v[bitset::ones_of(a)[j] as int],
            ),
    decreases a.len(),
{
    if a.len() > 0 {
        let p = f.drop_last();
        assert forall|i: int| 0 <= i < a.drop_last().len() implies #[trigger] p[i] == (if a.drop_last()[i] {
            Some(v.drop_last()[i])
        } else {
            None
        }) by {
            assert(p[i] == f[i]);
        }
        lemma_fixed_vars(p, a.drop_last(), v.drop_last());
        bitset::lemma_ones_of(a);
        bitset::lemma_ones_of(a.drop_last());
        assert(f.last() == f[a.len() - 1]);
    }
}

proof fn lemma_fixed_count(f: Seq<Option<bool>>, a: Seq<bool>)
    requires
        f.len() == a.len(),
        forall|i: int| 0 <= i < a.len() ==> (#[trigger] f[i] is Some) == a[i],
    ensures
        fixed_count(f) == bitset::count_true(a),
    decreases a.len(),
{
    if a.len() > 0 {
        assert(f.last() == f[a.len() - 1]);
        assert forall|i: int| 0 <= i < a.drop_last().len() implies (#[trigger] f.drop_last()[i]
            is Some) == a.drop_last()[i] by {
            assert(f.drop_last()[i] == f[i]);
        }
        lemma_fixed_count(f.drop_last(), a.drop_last());
    }
}

/// Whether the number is a value of a variable.
pub fn is_valid_value(var_type: VarType, value: i64) -> (r: bool)
    ensures
        r == domain::valid_value(var_type, value as int),
{
    match var_type {
        VarType::Bin => value == 0 || value == 1,
        VarType::Spin => value == -1 || value == 1,
    }
}

} // verus!
