use pipeline_pulse::gitlab_types::{
    next_page, parse_gid, pipeline_web_url, project_of_node, GitlabPipeline, PageInfo,
    PipelineConnection, PipelineInfo, ProjectNode, UserInfo,
};
use pipeline_pulse::monitor::pipeline_gid;

fn sample_info(created: &str, finished: Option<&str>, duration: Option<u64>) -> PipelineInfo {
    PipelineInfo {
        id: 42,
        sha: String::from("deadbeef"),
        status: String::from("SUCCESS"),
        created_at: String::from(created),
        finished_at: finished.map(String::from),
        duration,
        ref_name: String::from("main"),
        web_url: None,
        user: UserInfo { name: String::from("alice") },
    }
}

#[test]
fn gid_parsing() {
    assert_eq!(parse_gid("gid://gitlab/Ci::Pipeline/12345"), Some(12345));
    assert_eq!(parse_gid("12345"), Some(12345));
    assert_eq!(parse_gid("gid://gitlab/Pipeline/7"), Some(7));
    assert_eq!(parse_gid("gid://gitlab/Ci::Pipeline/"), None);
    assert_eq!(parse_gid("gid://gitlab/Ci::Pipeline/12a"), None);
    assert_eq!(parse_gid(""), None);
    assert_eq!(parse_gid("99999999999999999999999"), None);
    assert_eq!(parse_gid("x/18446744073709551615"), Some(u64::MAX));
}

#[test]
fn graphql_pipeline_normalization() {
    let info = sample_info("2024-01-01T00:00:00Z", Some("2024-01-01T00:05:00Z"), None);
    let row = info.to_db_pipeline(7, "demo", "group/demo");
    assert_eq!(row.id, 42);
    assert_eq!(row.status, "success");
    assert_eq!(row.created_at, 1704067200);
    assert_eq!(row.finished_at, Some(1704067500));
    // duration computed from the span when the report carries none
    assert_eq!(row.duration, Some(300));
}

#[test]
fn zero_duration_treated_as_absent() {
    let info = sample_info("2024-01-01T00:00:00Z", None, Some(0));
    let row = info.to_db_pipeline(7, "demo", "group/demo");
    assert_eq!(row.duration, None);
}

#[test]
fn unparsable_timestamp_falls_back() {
    let info = sample_info("not-a-time", None, Some(55));
    let row = info.to_db_pipeline(7, "demo", "group/demo");
    assert_eq!(row.created_at, 0);
    assert_eq!(row.finished_at, None);
    assert_eq!(row.duration, Some(55));
}

#[test]
fn rest_pipeline_normalization() {
    let p = GitlabPipeline {
        id: 9,
        ref_name: String::from("dev"),
        sha: String::from("feed"),
        status: String::from("FAILED"),
        created_at: 1704067200,
        finished_at: Some(1704067260),
        web_url: None,
        duration: None,
    };
    let row = p.to_db_pipeline(3, "demo", "group/demo");
    assert_eq!(row.status, "failed");
    assert_eq!(row.user_name, "");
    assert_eq!(row.duration, Some(60));
}

#[test]
fn web_url_synthesis() {
    assert_eq!(
        pipeline_web_url("https://forge.example/group/demo", 42),
        "https://forge.example/group/demo/-/pipelines/42"
    );
}

#[test]
fn pipeline_gid_format() {
    assert_eq!(pipeline_gid(77), "gid://gitlab/Ci::Pipeline/77");
}

#[test]
fn project_node_emission() {
    let node = ProjectNode {
        id: 5,
        name: String::from("demo"),
        full_path: String::from("group/demo"),
        web_url: Some(String::from("https://forge.example/group/demo")),
        pipelines: Some(PipelineConnection {
            nodes: Some(vec![sample_info("2024-01-01T00:00:00Z", None, Some(10))]),
        }),
    };
    let pr = project_of_node(node).expect("active project emitted");
    assert_eq!(pr.id, 5);
    assert_eq!(pr.pipelines.len(), 1);
    assert_eq!(
        pr.pipelines[0].web_url.as_deref(),
        Some("https://forge.example/group/demo/-/pipelines/42")
    );

    let empty = ProjectNode {
        id: 6,
        name: String::from("idle"),
        full_path: String::from("group/idle"),
        web_url: None,
        pipelines: Some(PipelineConnection { nodes: Some(vec![]) }),
    };
    assert!(project_of_node(empty).is_none());
}

#[test]
fn pagination_decision() {
    let (more, cursor) = next_page(Some(PageInfo {
        end_cursor: Some(String::from("abc")),
        has_next_page: true,
    }));
    assert!(more);
    assert_eq!(cursor.as_deref(), Some("abc"));
    let (more2, cursor2) = next_page(None);
    assert!(!more2);
    assert!(cursor2.is_none());
}

#[test]
fn non_terminal_rest_row_has_no_finish_time() {
    let p = GitlabPipeline {
        id: 10,
        ref_name: String::from("main"),
        sha: String::from("aaaa"),
        status: String::from("RUNNING"),
        created_at: 1704067200,
        // the listing's update time is not a finish time while the run is live
        finished_at: Some(1704067300),
        web_url: None,
        duration: None,
    };
    let row = p.to_db_pipeline(3, "demo", "group/demo");
    assert_eq!(row.status, "running");
    assert_eq!(row.finished_at, None);
    assert_eq!(row.duration, None);
}

#[test]
fn non_terminal_graphql_row_has_no_finish_time() {
    let mut info = sample_info("2024-01-01T00:00:00Z", Some("2024-01-01T00:05:00Z"), None);
    info.status = String::from("manual");
    let row = info.to_db_pipeline(7, "demo", "group/demo");
    assert_eq!(row.status, "manual");
    assert_eq!(row.finished_at, None);
    assert_eq!(row.duration, None);
}
