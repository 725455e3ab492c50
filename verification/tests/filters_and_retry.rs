use pipeline_pulse::filter::{
    exclusion_keeps, selector_admits, skip_ref, trend_range, use_fast_path, BranchFilter,
    PipelineFilter,
};
use pipeline_pulse::monitor::{
    backoff_ms, needs_rest_fallback, poll_since, query_window_start, resolved_user_name,
    should_retry, LookupOutcome,
};

fn filter_with_ref(r: Option<&str>) -> PipelineFilter {
    PipelineFilter {
        project_name: None,
        ref_name: r.map(String::from),
        exclude_projects: None,
        status: None,
        from_ts: None,
        to_ts: None,
    }
}

#[test]
fn selector_grammar() {
    assert!(selector_admits(&None, "anything"));
    assert!(selector_admits(&Some(String::from("All")), "anything"));
    assert!(selector_admits(&Some(String::new()), "anything"));
    assert!(selector_admits(&Some(String::from("group/demo")), "group/demo"));
    assert!(!selector_admits(&Some(String::from("group/demo")), "group/other"));
    assert!(selector_admits(&Some(String::from("a, b ,c")), "b"));
    assert!(!selector_admits(&Some(String::from("a, b ,c")), "d"));
    // a single value is not trimmed
    assert!(!selector_admits(&Some(String::from(" a ")), "a"));
}

#[test]
fn exclusion_grammar() {
    assert!(exclusion_keeps(&None, "x"));
    assert!(exclusion_keeps(&Some(String::new()), "x"));
    assert!(!exclusion_keeps(&Some(String::from("x,y")), "x"));
    assert!(exclusion_keeps(&Some(String::from("x,y")), "z"));
    // exclusion items are not trimmed
    assert!(exclusion_keeps(&Some(String::from("x, y")), "y"));
}

#[test]
fn routing_decision() {
    assert!(use_fast_path(&None));
    assert!(use_fast_path(&Some(String::from("All"))));
    assert!(!use_fast_path(&Some(String::from("main"))));
    assert!(!use_fast_path(&filter_with_ref(Some("dev")).ref_name));
}

#[test]
fn trend_range_defaults() {
    let now = 1704067200;
    // absent bounds: the last thirty days
    assert_eq!(trend_range(None, None, now), (now - 2592000, now));
    // a range shorter than a day is widened to the week before its end
    assert_eq!(
        trend_range(Some(now - 100), Some(now), now),
        (now - 604800, now)
    );
    // a proper range is kept
    assert_eq!(
        trend_range(Some(now - 200000), Some(now), now),
        (now - 200000, now)
    );
}

#[test]
fn branch_filter_matching() {
    let f = BranchFilter::compile("^main$").expect("valid pattern compiles");
    assert!(f.is_match("main"));
    assert!(!f.is_match("maintenance"));
    assert!(BranchFilter::compile("(unclosed").is_none());
    let some = Some(BranchFilter::compile("^release/.*").unwrap());
    assert!(!skip_ref(&some, "release/v1"));
    assert!(skip_ref(&some, "feature/x"));
    assert!(!skip_ref(&None, "anything"));
}

#[test]
fn retry_schedule() {
    assert_eq!(backoff_ms(1), 500);
    assert_eq!(backoff_ms(2), 1000);
    assert_eq!(backoff_ms(3), 2000);
    assert!(should_retry(3, 3));
    assert!(!should_retry(4, 3));
}

#[test]
fn poll_cycle_inputs() {
    assert_eq!(poll_since(Some(100), 200), 100);
    assert_eq!(poll_since(None, 200), 200);
    assert_eq!(query_window_start(1000), 940);
    assert_eq!(query_window_start(i64::MIN + 1), i64::MIN);
}

#[test]
fn user_lookup_fallback() {
    assert!(!needs_rest_fallback(&LookupOutcome::Found(String::from("a"))));
    assert!(needs_rest_fallback(&LookupOutcome::NoUser));
    assert!(needs_rest_fallback(&LookupOutcome::Failed));
    assert_eq!(
        resolved_user_name(LookupOutcome::Found(String::from("a")), LookupOutcome::Failed),
        Some(String::from("a"))
    );
    assert_eq!(
        resolved_user_name(LookupOutcome::NoUser, LookupOutcome::Found(String::from("b"))),
        Some(String::from("b"))
    );
    assert_eq!(
        resolved_user_name(LookupOutcome::Failed, LookupOutcome::Found(String::from("c"))),
        Some(String::from("c"))
    );
    assert_eq!(resolved_user_name(LookupOutcome::Failed, LookupOutcome::NoUser), None);
}
