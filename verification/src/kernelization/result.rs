//! What a kernelization run leaves, with its report in words.

use crate::fixes::Fixes;
use crate::fixes;
use crate::kernelization::config::KernelizationReport;
use crate::text;
use vstd::prelude::*;

verus! {

/// The fixes of a run and its report.
#[derive(Debug)]
pub struct KernelizationResult {
    pub fixes: Fixes,
    pub report: KernelizationReport,
}

/// The most fixed variables that the report lists.
pub const PREVIEW_LIMIT: usize = 12;

/// One fixed variable.
pub open spec fn fix_text(p: (usize, bool)) -> Seq<char> {
    text::decimal(p.0 as nat) + "="@ + (if p.1 {
        "true"@
    } else {
        "false"@
    })
}

/// The first `k` fixed variables, with commas between them.
pub open spec fn joined(list: Seq<(usize, bool)>, k: nat) -> Seq<char>
    decreases k,
{
    if k == 0 {
        Seq::empty()
    } else if k == 1 {
        fix_text(list[0])
    } else {
        joined(list, (k - 1) as nat) + ", "@ + fix_text(list[k - 1])
    }
}

/// The fixed variables, at most as many as the limit, and how many more there
/// are.
pub open spec fn preview(list: Seq<(usize, bool)>) -> Seq<char> {
    if list.len() > PREVIEW_LIMIT {
        joined(list, PREVIEW_LIMIT as nat) + ", ... (+"@ + text::decimal(
            (list.len() - PREVIEW_LIMIT) as nat,
        ) + " more)"@
    } else {
        joined(list, list.len())
    }
}

/// Append one fixed variable.
fn push_fix(s: &mut String, index: usize, value: bool)
    ensures
        final(s)@ == old(s)@ + fix_text((index, value)),
{
    let ghost s0 = s@;
    text::push_decimal(s, index as u64);
    s.push_str("=");
    if value {
        s.push_str("true");
    } else {
        s.push_str("false");
    }
    assert(s@ =~= s0 + fix_text((index, value)));
}

/// Append the preview of the fixed variables.
fn push_preview(s: &mut String, list: &Vec<(usize, bool)>)
    ensures
        final(s)@ == old(s)@ + preview(list@),
{
    let ghost s0 = s@;
    let shown: usize = if list.len() > PREVIEW_LIMIT {
        PREVIEW_LIMIT
    } else {
        list.len()
    };
    let mut k: usize = 0;
    assert(s@ =~= s0 + joined(list@, 0));
    while k < shown
        invariant
            k <= shown <= list@.len(),
            s0 == old(s)@,
            s@ == s0 + joined(list@, k as nat),
        decreases shown - k,
    {
        let ghost before = s@;
        if k > 0 {
            s.push_str(", ");
        }
        let (index, value) = list[k];
        push_fix(s, index, value);
        k += 1;
        assert(s@ =~= s0 + joined(list@, k as nat));
    }
    if list.len() > shown {
        s.push_str(", ... (+");
        text::push_decimal(s, (list.len() - shown) as u64);
        s.push_str(" more)");
    }
    assert(s@ =~= s0 + preview(list@));
}

impl KernelizationResult {
    /// The line with the sizes before and after.
    pub open spec fn counts_line(&self) -> Seq<char> {
        "kernelization: vars "@ + text::decimal(self.report.initial_n_vars as nat) + " -> "@
            + text::decimal(self.report.final_n_vars as nat) + ", terms "@ + text::decimal(
            self.report.initial_n_terms as nat,
        ) + " -> "@ + text::decimal(self.report.final_n_terms as nat) + ", rounds="@
            + text::decimal(self.report.rounds as nat) + ", fixed_external="@ + text::decimal(
            self.report.externally_fixed as nat,
        ) + ", fixed_rules="@ + text::decimal(self.report.rule_fixed as nat) + ", fixed_total="@
            + text::decimal(fixes::fixed_vars(self.fixes@).len())
    }

    /// The line with the fixed variables.
    pub open spec fn fixed_line(&self) -> Seq<char> {
        "kernelization fixed variables: "@ + preview(fixes::fixed_vars(self.fixes@))
    }

    /// The report in words: the sizes, the fixed variables if there are any, and
    /// the lines of the report.
    pub fn report_lines(&self) -> (r: Vec<String>)
        requires
            self.fixes.wf(),
        ensures
            ({
                let some_fixed = fixes::fixed_vars(self.fixes@).len() > 0;
                let first: int = if some_fixed {
                    2
                } else {
                    1
                };
                &&& r@.len() == first + (if self.report.coupling_fixed > 0 {
                    3int
                } else {
                    2
                })
                &&& r@[0]@ == self.counts_line()
                &&& some_fixed ==> r@[1]@ == self.fixed_line()
                &&& r@[first]@ == self.report.summary_line()
                &&& r@[first + 1]@ == self.report.rules_line()
                &&& self.report.coupling_fixed > 0 ==> r@[first + 2]@
                    == self.report.coupling_line()
            }),
    {
        let list = self.fixes.iter_fixed();
        let mut lines: Vec<String> = Vec::new();
        let mut s = String::new();
        s.push_str("kernelization: vars ");
        text::push_decimal(&mut s, self.report.initial_n_vars as u64);
        s.push_str(" -> ");
        text::push_decimal(&mut s, self.report.final_n_vars as u64);
        s.push_str(", terms ");
        text::push_decimal(&mut s, self.report.initial_n_terms as u64);
        s.push_str(" -> ");
        text::push_decimal(&mut s, self.report.final_n_terms as u64);
        s.push_str(", rounds=");
        text::push_decimal(&mut s, self.report.rounds as u64);
        s.push_str(", fixed_external=");
        text::push_decimal(&mut s, self.report.externally_fixed as u64);
        s.push_str(", fixed_rules=");
        text::push_decimal(&mut s, self.report.rule_fixed as u64);
        s.push_str(", fixed_total=");
        text::push_decimal(&mut s, list.len() as u64);
        assert(s@ =~= self.counts_line());
        lines.push(s);
        if list.len() > 0 {
            let mut t = String::new();
            t.push_str("kernelization fixed variables: ");
            push_preview(&mut t, &list);
            assert(t@ =~= self.fixed_line());
            lines.push(t);
        }
        let mut more = self.report.verbose_lines();
        lines.append(&mut more);
        lines
    }
}

} // verus!
