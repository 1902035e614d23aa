use hues::settings::{
    bound_method, choose_setting, is_enabled, progress_interval, resolve_bounds, BoundChoices,
    BoundMethod, LogLevel,
};

fn nothing() -> BoundChoices {
    BoundChoices {
        threads: None,
        node_limit: None,
        log_every_nodes: None,
        subgrad_max_iter: None,
        trwbp_max_iter: None,
        hs_max_cores: None,
        hs_max_search_nodes: None,
        lasserre_order: None,
        lasserre_max_vars: None,
        exact_lasserre_order: None,
        exact_lasserre_max_vars: None,
        cluster_max_vars: None,
    }
}

#[test]
fn levels_have_names() {
    assert_eq!(LogLevel::Trace.as_filter(), "trace");
    assert_eq!(LogLevel::Error.as_filter(), "error");
}

#[test]
fn methods_have_several_names() {
    assert!(bound_method("sdp") == BoundMethod::Lasserre);
    assert!(bound_method("chordal") == BoundMethod::ChordalSdp);
    assert!(bound_method("trw_bp") == BoundMethod::Trwbp);
    assert!(bound_method("hs") == BoundMethod::HittingSet);
    assert!(bound_method("sg") == BoundMethod::Subgradient);
    assert!(bound_method("csg") == BoundMethod::ClusterSubgradient);
    assert!(bound_method("exact-sdp") == BoundMethod::ExactLasserre);
    assert!(bound_method("rlt-lp") == BoundMethod::Rlt);
    assert!(bound_method("sa-lp") == BoundMethod::SheraliAdams);
    assert!(bound_method("mccormick-lp") == BoundMethod::Lp);
    assert!(bound_method("cheap") == BoundMethod::Cheap);
    assert!(bound_method("unheard-of") == BoundMethod::Cheap);
}

#[test]
fn command_line_beats_file_beats_default() {
    assert_eq!(choose_setting(Some(1), Some(2), 3), 1);
    assert_eq!(choose_setting(None, Some(2), 3), 2);
    assert_eq!(choose_setting(None, None, 3), 3);
    assert!(is_enabled(false, None) && !is_enabled(true, Some(true)));
    assert!(!is_enabled(false, Some(false)));
    assert_eq!(progress_interval(0), None);
    assert_eq!(progress_interval(9), Some(9));
}

#[test]
fn resolved_settings() {
    let defaults = resolve_bounds(&nothing(), &nothing());
    assert_eq!(defaults.threads, 1);
    assert_eq!(defaults.node_limit, None);
    assert_eq!(defaults.log_every_nodes, 5000);
    assert_eq!(defaults.hs_max_search_nodes, 50_000);
    let cli = BoundChoices { hs_max_cores: Some(0), node_limit: Some(7), ..nothing() };
    let file = BoundChoices { hs_max_cores: Some(3), hs_max_search_nodes: Some(0), ..nothing() };
    let r = resolve_bounds(&cli, &file);
    assert_eq!(r.node_limit, Some(7));
    assert_eq!(r.hs_max_cores, 0);
    assert_eq!(r.hitting_set().max_cores, 1);
    assert_eq!(r.hitting_set().max_search_nodes, 1);
}
