use pipeline_pulse::config::Config;
use pipeline_pulse::filter::PipelineFilter;
use pipeline_pulse::models::Pipeline;
use pipeline_pulse::queries::{list_pipelines, list_projects, list_refs, project_totals, summary_stats, trend_stats};
use pipeline_pulse::store::Store;

fn mk(id: i64, project: &str, refn: &str, status: &str, created_at: i64, duration: Option<i64>) -> Pipeline {
    Pipeline {
        id,
        project_id: 7,
        project_name: String::from(project),
        project_full_path: String::from(project),
        ref_name: String::from(refn),
        sha: String::from("s"),
        user_name: String::new(),
        status: String::from(status),
        created_at,
        finished_at: duration.map(|d| created_at + d),
        duration,
        web_url: None,
    }
}

fn mk_running(id: i64, project: &str, refn: &str, created_at: i64) -> Pipeline {
    Pipeline {
        id,
        project_id: 7,
        project_name: String::from(project),
        project_full_path: String::from(project),
        ref_name: String::from(refn),
        sha: String::from("s"),
        user_name: String::new(),
        status: String::from("running"),
        created_at,
        finished_at: None,
        duration: None,
    web_url: None,
    }
}

fn no_filter() -> PipelineFilter {
    PipelineFilter {
        project_name: None,
        ref_name: None,
        exclude_projects: None,
        status: None,
        from_ts: None,
        to_ts: None,
    }
}

fn seeded() -> Store {
    let mut s = Store::new();
    assert!(s.upsert(mk(1, "g/a", "main", "success", 1704067200, Some(100))).is_ok());
    assert!(s.upsert(mk(2, "g/a", "dev", "failed", 1704070800, None)).is_ok());
    assert!(s.upsert(mk(3, "g/b", "main", "success", 1704153600, Some(50))).is_ok());
    s
}

#[test]
fn listing_is_filtered_and_newest_first() {
    let s = seeded();
    let all = list_pipelines(&s, &no_filter());
    assert_eq!(all.len(), 3);
    assert_eq!(all[0].id, 3);
    assert_eq!(all[1].id, 2);
    assert_eq!(all[2].id, 1);
    let mut f = no_filter();
    f.ref_name = Some(String::from("main"));
    let mains = list_pipelines(&s, &f);
    assert_eq!(mains.len(), 2);
    assert!(mains.iter().all(|p| p.ref_name == "main"));
    let mut g = no_filter();
    g.status = Some(String::from("failed"));
    let failed = list_pipelines(&s, &g);
    assert_eq!(failed.len(), 1);
    assert_eq!(failed[0].id, 2);
}

#[test]
fn summary_totals_both_paths_agree_here() {
    let s = seeded();
    let fast = summary_stats(&s, &no_filter());
    assert_eq!(fast.total_count, 3);
    assert_eq!(fast.total_duration, 150);
    assert_eq!(fast.count_with_duration, 2);
    assert_eq!(fast.success_count, 2);
    let mut f = no_filter();
    f.ref_name = Some(String::from("main"));
    let slow = summary_stats(&s, &f);
    assert_eq!(slow.total_count, 2);
    assert_eq!(slow.total_duration, 150);
    assert_eq!(slow.count_with_duration, 2);
    assert_eq!(slow.success_count, 2);
}

#[test]
fn trend_buckets_by_day_and_status() {
    let s = seeded();
    let f = no_filter();
    let now = 1704240000;
    let t = trend_stats(&s, &f, now);
    assert_eq!(t.len(), 3);
    // newest day first
    assert_eq!(t[0].date, "2024-01-02");
    assert_eq!(t[0].status, "success");
    assert_eq!(t[0].count, 1);
    let jan1_success = t.iter().find(|b| b.date == "2024-01-01" && b.status == "success").unwrap();
    assert_eq!(jan1_success.count, 1);
    let jan1_failed = t.iter().find(|b| b.date == "2024-01-01" && b.status == "failed").unwrap();
    assert_eq!(jan1_failed.count, 1);
}

#[test]
fn per_project_totals_and_last_status() {
    let s = seeded();
    let t = project_totals(&s, &no_filter());
    assert_eq!(t.len(), 2);
    let a = t.iter().find(|e| e.project_full_path == "g/a").unwrap();
    assert_eq!(a.count, 2);
    assert_eq!(a.total_duration, 100);
    assert_eq!(a.count_with_duration, 1);
    assert_eq!(a.last_status, "failed");
    let b = t.iter().find(|e| e.project_full_path == "g/b").unwrap();
    assert_eq!(b.count, 1);
    assert_eq!(b.last_status, "success");
}

#[test]
fn distinct_values_sorted() {
    let s = seeded();
    let projects = list_projects(&s);
    assert_eq!(projects, vec![String::from("g/a"), String::from("g/b")]);
    let refs = list_refs(&s);
    assert_eq!(refs, vec![String::from("dev"), String::from("main")]);
}

#[test]
fn default_configuration() {
    let c = Config::new();
    assert_eq!(c.server.host, "127.0.0.1");
    assert_eq!(c.server.port, 8080);
    assert_eq!(c.gitlab.timeout_seconds, Some(30));
    assert_eq!(c.gitlab.skip_invalid_certs, Some(false));
    assert_eq!(c.poller.interval_seconds, 300);
    assert_eq!(c.poller.backfill_days, 30);
    assert_eq!(c.poller.capacity, Some(10000));
    assert_eq!(c.poller.ttl_seconds, Some(600));
}

#[test]
fn listing_caps_at_one_hundred_newest() {
    let mut s = Store::new();
    let mut id = 1;
    while id <= 120 {
        assert!(s
            .upsert(mk(id, "g/a", "main", "success", 1704067200 + id, None))
            .is_ok());
        id += 1;
    }
    let all = list_pipelines(&s, &no_filter());
    assert_eq!(all.len(), 100);
    assert_eq!(all[0].id, 120);
    assert_eq!(all[99].id, 21);
}

#[test]
fn summary_fast_path_date_bounds() {
    let s = seeded();
    let mut f = no_filter();
    // only 2024-01-02 falls at or after this bound
    f.from_ts = Some(1704153600);
    let t = summary_stats(&s, &f);
    assert_eq!(t.total_count, 1);
    assert_eq!(t.total_duration, 50);
}

#[test]
fn trend_slow_path_honors_ref_filter() {
    let s = seeded();
    let mut f = no_filter();
    f.ref_name = Some(String::from("main"));
    let t = trend_stats(&s, &f, 1704240000);
    assert_eq!(t.len(), 2);
    assert!(t.iter().all(|b| b.status == "success"));
    assert_eq!(t[0].date, "2024-01-02");
    assert_eq!(t[1].date, "2024-01-01");
}

#[test]
fn project_filter_comma_list() {
    let s = seeded();
    let mut f = no_filter();
    f.project_name = Some(String::from("g/a, g/missing"));
    let rows = list_pipelines(&s, &f);
    assert_eq!(rows.len(), 2);
    assert!(rows.iter().all(|p| p.project_full_path == "g/a"));
    let mut g = no_filter();
    g.exclude_projects = Some(String::from("g/a"));
    let rest = list_pipelines(&s, &g);
    assert_eq!(rest.len(), 1);
    assert_eq!(rest[0].project_full_path, "g/b");
}

#[test]
fn time_bounds_apply_to_running_queries() {
    let mut s = Store::new();
    assert!(s.upsert(mk_running(4, "g/a", "main", 5)).is_ok());
    let mut f = no_filter();
    f.status = Some(String::from("running"));
    f.from_ts = Some(10);
    assert!(list_pipelines(&s, &f).is_empty());
    let mut g = no_filter();
    g.status = Some(String::from("running"));
    g.from_ts = Some(5);
    assert_eq!(list_pipelines(&s, &g).len(), 1);
}
