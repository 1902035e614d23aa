//! Choices made on the command line, in a settings file, or by default.

use crate::bounds::hittingset::HittingSet;
use vstd::prelude::*;
use vstd::string::StrSliceExecFns;

verus! {

/// How much is logged.
#[derive(Debug, Clone, Copy, PartialEq, Eq, Structural)]
pub enum LogLevel {
    Trace,
    Debug,
    Info,
    Warn,
    Error,
}

/// The name of a level.
pub open spec fn level_name(level: LogLevel) -> Seq<char> {
    match level {
        LogLevel::Trace => "trace"@,
        LogLevel::Debug => "debug"@,
        LogLevel::Info => "info"@,
        LogLevel::Warn => "warn"@,
        LogLevel::Error => "error"@,
    }
}

impl LogLevel {
    /// The name by which a logger filters.
    pub fn as_filter(self) -> (r: &'static str)
        ensures
            r@ == level_name(self),
    {
        match self {
            LogLevel::Trace => "trace",
            LogLevel::Debug => "debug",
            LogLevel::Info => "info",
            LogLevel::Warn => "warn",
            LogLevel::Error => "error",
        }
    }
}

/// A lower bound of search-tree nodes.
#[derive(Debug, Clone, Copy, PartialEq, Eq, Structural)]
pub enum BoundMethod {
    Lasserre,
    ChordalSdp,
    Trwbp,
    HittingSet,
    Subgradient,
    ClusterSubgradient,
    ExactLasserre,
    Rlt,
    SheraliAdams,
    Lp,
    Cheap,
}

/// The bound of a name in lower case: each bound has its names, and any other
/// name is the cheap bound's.
pub open spec fn method_of(name: Seq<char>) -> BoundMethod {
    if name == "lasserre"@ || name == "sdp"@ {
        BoundMethod::Lasserre
    } else if name == "chordal-sdp"@ || name == "chordal_sdp"@ || name == "chordal"@ {
        BoundMethod::ChordalSdp
    } else if name == "trwbp"@ || name == "trw-bp"@ || name == "trw_bp"@ {
        BoundMethod::Trwbp
    } else if name == "hittingset"@ || name == "hitting-set"@ || name == "hitting_set"@ || name
        == "hs"@ {
        BoundMethod::HittingSet
    } else if name == "subgradient"@ || name == "subgrad"@ || name == "sg"@ {
        BoundMethod::Subgradient
    } else if name == "cluster-subgradient"@ || name == "cluster_subgradient"@ || name
        == "cluster-sg"@ || name == "csg"@ {
        BoundMethod::ClusterSubgradient
    } else if name == "exact-lasserre"@ || name == "exact_lasserre"@ || name == "exact-sdp"@
        || name == "exact_sdp"@ {
        BoundMethod::ExactLasserre
    } else if name == "rlt"@ || name == "rlt-lp"@ || name == "rlt_lp"@ {
        BoundMethod::Rlt
    } else if name == "sherali-adams"@ || name == "sherali_adams"@ || name == "sa-lp"@ || name
        == "sa_lp"@ {
        BoundMethod::SheraliAdams
    } else if name == "lp"@ || name == "lp-bound"@ || name == "lp_bound"@ || name
        == "mccormick-lp"@ {
        BoundMethod::Lp
    } else {
        BoundMethod::Cheap
    }
}

/// Whether two texts are the same.
fn same_text(a: &str, b: &str) -> (r: bool)
    ensures
        r == (a@ == b@),
{
    let n: usize = a.unicode_len();
    if n != b.unicode_len() {
        return false;
    }
    let mut i: usize = 0;
    while i < n
        invariant
            i <= n,
            n == a@.len(),
            n == b@.len(),
            forall|j: int| 0 <= j < i ==> #[trigger] a@[j] == b@[j],
        decreases n - i,
    {
        if a.get_char(i) != b.get_char(i) {
            return false;
        }
        i += 1;
    }
    assert(a@ =~= b@);
    true
}

/// The bound of a name in lower case.
pub fn bound_method(name: &str) -> (r: BoundMethod)
    ensures
        r == method_of(name@),
{
    if same_text(name, "lasserre") || same_text(name, "sdp") {
        BoundMethod::Lasserre
    } else if same_text(name, "chordal-sdp") || same_text(name, "chordal_sdp") || same_text(
        name,
        "chordal",
    ) {
        BoundMethod::ChordalSdp
    } else if same_text(name, "trwbp") || same_text(name, "trw-bp") || same_text(name, "trw_bp") {
        BoundMethod::Trwbp
    } else if same_text(name, "hittingset") || same_text(name, "hitting-set") || same_text(
        name,
        "hitting_set",
    ) || same_text(name, "hs") {
        BoundMethod::HittingSet
    } else if same_text(name, "subgradient") || same_text(name, "subgrad") || same_text(
        name,
        "sg",
    ) {
        BoundMethod::Subgradient
    } else if same_text(name, "cluster-subgradient") || same_text(name, "cluster_subgradient")
        || same_text(name, "cluster-sg") || same_text(name, "csg") {
        BoundMethod::ClusterSubgradient
    } else if same_text(name, "exact-lasserre") || same_text(name, "exact_lasserre") || same_text(
        name,
        "exact-sdp",
    ) || same_text(name, "exact_sdp") {
        BoundMethod::ExactLasserre
    } else if same_text(name, "rlt") || same_text(name, "rlt-lp") || same_text(name, "rlt_lp") {
        BoundMethod::Rlt
    } else if same_text(name, "sherali-adams") || same_text(name, "sherali_adams") || same_text(
        name,
        "sa-lp",
    ) || same_text(name, "sa_lp") {
        BoundMethod::SheraliAdams
    } else if same_text(name, "lp") || same_text(name, "lp-bound") || same_text(name, "lp_bound")
        || same_text(name, "mccormick-lp") {
        BoundMethod::Lp
    } else {
        BoundMethod::Cheap
    }
}

/// The command line decides, then the file, then the default.
pub fn choose_setting<T: Copy>(cli: Option<T>, file: Option<T>, default: T) -> (r: T)
    ensures
        r == chosen(cli, file, default),
{
    match cli {
        Some(v) => v,
        None => match file {
            Some(v) => v,
            None => default,
        },
    }
}

/// A feature is on unless the command line turns it off or the file says so.
pub fn is_enabled(turned_off: bool, file: Option<bool>) -> (r: bool)
    ensures
        r == (!turned_off && file != Some(false)),
{
    if turned_off {
        return false;
    }
    match file {
        Some(on) => on,
        None => true,
    }
}

/// Progress is logged every so many nodes; zero turns it off.
pub fn progress_interval(every: u64) -> (r: Option<u64>)
    ensures
        r == (if every > 0 {
            Some(every)
        } else {
            None
        }),
{
    if every > 0 {
        Some(every)
    } else {
        None
    }
}

/// The whole-number choices for search-tree bounds, where one was made.
#[derive(Debug, Clone, Copy)]
pub struct BoundChoices {
    pub threads: Option<usize>,
    pub node_limit: Option<u64>,
    pub log_every_nodes: Option<u64>,
    pub subgrad_max_iter: Option<usize>,
    pub trwbp_max_iter: Option<usize>,
    pub hs_max_cores: Option<usize>,
    pub hs_max_search_nodes: Option<usize>,
    pub lasserre_order: Option<usize>,
    pub lasserre_max_vars: Option<usize>,
    pub exact_lasserre_order: Option<usize>,
    pub exact_lasserre_max_vars: Option<usize>,
    pub cluster_max_vars: Option<usize>,
}

/// The whole-number settings for search-tree bounds.
#[derive(Debug, Clone, Copy)]
pub struct BoundSettings {
    pub threads: usize,
    pub node_limit: Option<u64>,
    pub log_every_nodes: u64,
    pub subgrad_max_iter: usize,
    pub trwbp_max_iter: usize,
    pub hs_max_cores: usize,
    pub hs_max_search_nodes: usize,
    pub lasserre_order: usize,
    pub lasserre_max_vars: usize,
    pub exact_lasserre_order: usize,
    pub exact_lasserre_max_vars: usize,
    pub cluster_max_vars: usize,
}

/// What a setting becomes.
pub open spec fn chosen<T>(cli: Option<T>, file: Option<T>, default: T) -> T {
    match cli {
        Some(v) => v,
        None => match file {
            Some(v) => v,
            None => default,
        },
    }
}

/// Settle every whole-number setting.
pub fn resolve_bounds(cli: &BoundChoices, file: &BoundChoices) -> (r: BoundSettings)
    ensures
        r.threads == chosen(cli.threads, file.threads, 1),
        r.node_limit == (if cli.node_limit is Some {
            cli.node_limit
        } else {
            file.node_limit
        }),
        r.log_every_nodes == chosen(cli.log_every_nodes, file.log_every_nodes, 5000),
        r.subgrad_max_iter == chosen(cli.subgrad_max_iter, file.subgrad_max_iter, 64),
        r.trwbp_max_iter == chosen(cli.trwbp_max_iter, file.trwbp_max_iter, 8),
        r.hs_max_cores == chosen(cli.hs_max_cores, file.hs_max_cores, 64),
        r.hs_max_search_nodes == chosen(
            cli.hs_max_search_nodes,
            file.hs_max_search_nodes,
            50_000,
        ),
        r.lasserre_order == chosen(cli.lasserre_order, file.lasserre_order, 1),
        r.lasserre_max_vars == chosen(cli.lasserre_max_vars, file.lasserre_max_vars, 30),
        r.exact_lasserre_order == chosen(cli.exact_lasserre_order, file.exact_lasserre_order, 1),
        r.exact_lasserre_max_vars == chosen(
            cli.exact_lasserre_max_vars,
            file.exact_lasserre_max_vars,
            20,
        ),
        r.cluster_max_vars == chosen(cli.cluster_max_vars, file.cluster_max_vars, 15),
{
    BoundSettings {
        threads: choose_setting(cli.threads, file.threads, 1),
        node_limit: match cli.node_limit {
            Some(v) => Some(v),
            None => file.node_limit,
        },
        log_every_nodes: choose_setting(cli.log_every_nodes, file.log_every_nodes, 5000),
        subgrad_max_iter: choose_setting(cli.subgrad_max_iter, file.subgrad_max_iter, 64),
        trwbp_max_iter: choose_setting(cli.trwbp_max_iter, file.trwbp_max_iter, 8),
        hs_max_cores: choose_setting(cli.hs_max_cores, file.hs_max_cores, 64),
        hs_max_search_nodes: choose_setting(
            cli.hs_max_search_nodes,
            file.hs_max_search_nodes,
            50_000,
        ),
        lasserre_order: choose_setting(cli.lasserre_order, file.lasserre_order, 1),
        lasserre_max_vars: choose_setting(cli.lasserre_max_vars, file.lasserre_max_vars, 30),
        exact_lasserre_order: choose_setting(
            cli.exact_lasserre_order,
            file.exact_lasserre_order,
            1,
        ),
        exact_lasserre_max_vars: choose_setting(
            cli.exact_lasserre_max_vars,
            file.exact_lasserre_max_vars,
            20,
        ),
        cluster_max_vars: choose_setting(cli.cluster_max_vars, file.cluster_max_vars, 15),
    }
}

/// At least one.
fn at_least_one(v: usize) -> (r: usize)
    ensures
        r == (if v == 0 {
            1
        } else {
            v
        }),
{
    if v == 0 {
        1
    } else {
        v
    }
}

impl BoundSettings {
    /// The hitting-set bound of these settings: at least one core and one search
    /// node.
    pub fn hitting_set(&self) -> (r: HittingSet)
        ensures
            r.max_cores == (if self.hs_max_cores == 0 {
                1
            } else {
                self.hs_max_cores
            }),
            r.max_search_nodes == (if self.hs_max_search_nodes == 0 {
                1
            } else {
                self.hs_max_search_nodes
            }),
    {
        HittingSet {
            max_cores: at_least_one(self.hs_max_cores),
            max_search_nodes: at_least_one(self.hs_max_search_nodes),
        }
    }
}

} // verus!
