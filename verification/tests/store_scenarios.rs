use pipeline_pulse::models::{AggregateCell, Pipeline};
use pipeline_pulse::monitor::apply_cycle_result;
use pipeline_pulse::store::{rebuild_aggregates, Store, StoreError};

fn mk_pipeline(
    id: i64,
    project_id: i64,
    status: &str,
    created_at: i64,
    finished_at: Option<i64>,
    duration: Option<i64>,
) -> Pipeline {
    Pipeline {
        id,
        project_id,
        project_name: String::from("demo"),
        project_full_path: String::from("group/demo"),
        ref_name: String::from("main"),
        sha: String::from("abc123"),
        user_name: String::new(),
        status: String::from(status),
        created_at,
        finished_at,
        duration,
        web_url: None,
    }
}

fn find_cell(s: &Store, date: &str, project_id: i64, status: &str) -> Option<AggregateCell> {
    let mut i = 0;
    while i < s.cell_count() {
        let c = s.cell_at(i);
        if c.date == date && c.project_id == project_id && c.status == status {
            return Some(c.duplicate());
        }
        i += 1;
    }
    None
}

fn all_cells(s: &Store) -> Vec<AggregateCell> {
    let mut out = Vec::new();
    let mut i = 0;
    while i < s.cell_count() {
        out.push(s.cell_at(i).duplicate());
        i += 1;
    }
    out
}

#[test]
fn s1_new_pipeline_insert() {
    let mut s = Store::new();
    let p = mk_pipeline(1, 7, "pending", 1704067200, None, None);
    assert!(s.upsert(p).is_ok());
    let row = s.get_fact(1).expect("fact row present");
    assert_eq!(row.status, "pending");
    assert_eq!(row.created_at, 1704067200);
    let cell = find_cell(&s, "2024-01-01", 7, "pending").expect("aggregate cell present");
    assert_eq!(cell.count, 1);
    assert_eq!(cell.total_duration, 0);
    assert_eq!(cell.count_with_duration, 0);
}

#[test]
fn s2_transition_to_success_with_duration() {
    let mut s = Store::new();
    assert!(s.upsert(mk_pipeline(1, 7, "pending", 1704067200, None, None)).is_ok());
    assert!(s
        .upsert(mk_pipeline(1, 7, "success", 1704067200, Some(1704067500), Some(300)))
        .is_ok());
    let row = s.get_fact(1).expect("fact row present");
    assert_eq!(row.status, "success");
    assert_eq!(row.duration, Some(300));
    assert_eq!(row.finished_at, Some(1704067500));
    let pending = find_cell(&s, "2024-01-01", 7, "pending").expect("old cell kept");
    assert_eq!(pending.count, 0);
    let success = find_cell(&s, "2024-01-01", 7, "success").expect("new cell present");
    assert_eq!(success.count, 1);
    assert_eq!(success.total_duration, 300);
    assert_eq!(success.count_with_duration, 1);
}

#[test]
fn s3_stale_non_terminal_reobservation() {
    let mut s = Store::new();
    assert!(s.upsert(mk_pipeline(1, 7, "pending", 1704067200, None, None)).is_ok());
    assert!(s
        .upsert(mk_pipeline(1, 7, "success", 1704067200, Some(1704067500), Some(300)))
        .is_ok());
    let cells_before = all_cells(&s);
    assert!(s.upsert(mk_pipeline(1, 7, "running", 1704067200, None, None)).is_ok());
    let row = s.get_fact(1).expect("fact row present");
    assert_eq!(row.status, "success");
    assert_eq!(row.finished_at, Some(1704067500));
    assert_eq!(row.duration, Some(300));
    let cells_after = all_cells(&s);
    assert_eq!(cells_before.len(), cells_after.len());
    for (b, a) in cells_before.iter().zip(cells_after.iter()) {
        assert_eq!(b.date, a.date);
        assert_eq!(b.project_id, a.project_id);
        assert_eq!(b.status, a.status);
        assert_eq!(b.count, a.count);
        assert_eq!(b.total_duration, a.total_duration);
        assert_eq!(b.count_with_duration, a.count_with_duration);
    }
}

#[test]
fn s4_late_duration_on_same_status() {
    let mut s = Store::new();
    assert!(s
        .upsert(mk_pipeline(2, 7, "success", 1704067200, Some(1704067500), None))
        .is_ok());
    let before = find_cell(&s, "2024-01-01", 7, "success").expect("cell present");
    assert_eq!(before.count, 1);
    assert_eq!(before.total_duration, 0);
    assert_eq!(before.count_with_duration, 0);
    assert!(s
        .upsert(mk_pipeline(2, 7, "success", 1704067200, Some(1704067500), Some(120)))
        .is_ok());
    let after = find_cell(&s, "2024-01-01", 7, "success").expect("cell present");
    assert_eq!(after.count, 1);
    assert_eq!(after.total_duration, 120);
    assert_eq!(after.count_with_duration, 1);
}

#[test]
fn s5_rebuild_fixed_point() {
    let mut s = Store::new();
    assert!(s.upsert(mk_pipeline(1, 7, "pending", 1704067200, None, None)).is_ok());
    assert!(s
        .upsert(mk_pipeline(1, 7, "success", 1704067200, Some(1704067500), Some(300)))
        .is_ok());
    assert!(s.upsert(mk_pipeline(1, 7, "running", 1704067200, None, None)).is_ok());
    assert!(s
        .upsert(mk_pipeline(2, 7, "success", 1704067200, Some(1704067500), None))
        .is_ok());
    assert!(s
        .upsert(mk_pipeline(2, 7, "success", 1704067200, Some(1704067500), Some(120)))
        .is_ok());
    let before = all_cells(&s);
    rebuild_aggregates(&mut s);
    let after = all_cells(&s);
    assert_eq!(before.len(), after.len());
    for (b, a) in before.iter().zip(after.iter()) {
        assert_eq!(b.date, a.date);
        assert_eq!(b.project_id, a.project_id);
        assert_eq!(b.project_name, a.project_name);
        assert_eq!(b.status, a.status);
        assert_eq!(b.count, a.count);
        assert_eq!(b.total_duration, a.total_duration);
        assert_eq!(b.count_with_duration, a.count_with_duration);
    }
}

#[test]
fn s6_watermark_non_advance_on_failure() {
    let mut s = Store::new();
    s.set_watermark(1704067200);
    apply_cycle_result(&mut s, 1704067500, false);
    assert_eq!(s.get_watermark(), Some(1704067200));
    apply_cycle_result(&mut s, 1704067800, true);
    assert_eq!(s.get_watermark(), Some(1704067800));
}

#[test]
fn watermark_seeded_only_once() {
    let mut s = Store::new();
    assert_eq!(s.get_watermark(), None);
    s.init_watermark(100);
    assert_eq!(s.get_watermark(), Some(100));
    s.init_watermark(200);
    assert_eq!(s.get_watermark(), Some(100));
}

#[test]
fn aggregate_overflow_is_rejected_and_rolled_back() {
    let mut s = Store::new();
    assert!(s
        .upsert(mk_pipeline(1, 7, "success", 1704067200, Some(1704067500), Some(i64::MAX)))
        .is_ok());
    let r = s.upsert(mk_pipeline(2, 7, "success", 1704067200, Some(1704067500), Some(i64::MAX)));
    assert!(matches!(r, Err(StoreError::Overflow)));
    assert_eq!(s.fact_count(), 1);
    let cell = find_cell(&s, "2024-01-01", 7, "success").expect("cell present");
    assert_eq!(cell.count, 1);
    assert_eq!(cell.total_duration, i64::MAX);
}

#[test]
fn day_boundary_buckets() {
    let mut s = Store::new();
    assert!(s.upsert(mk_pipeline(1, 7, "pending", 1704067200, None, None)).is_ok());
    assert!(s.upsert(mk_pipeline(2, 7, "pending", 1704067199, None, None)).is_ok());
    assert!(find_cell(&s, "2024-01-01", 7, "pending").is_some());
    assert!(find_cell(&s, "2023-12-31", 7, "pending").is_some());
}

#[test]
fn username_backfill_updates_only_empty() {
    let mut s = Store::new();
    assert!(s.upsert(mk_pipeline(1, 7, "pending", 1704067200, None, None)).is_ok());
    let mut named = mk_pipeline(2, 7, "pending", 1704067200, None, None);
    named.user_name = String::from("alice");
    assert!(s.upsert(named).is_ok());
    let missing = s.missing_user_rows(500);
    assert_eq!(missing, vec![(1, 7)]);
    s.set_user_name_if_empty(1, &String::from("bob"));
    s.set_user_name_if_empty(2, &String::from("mallory"));
    assert_eq!(s.get_fact(1).unwrap().user_name, "bob");
    assert_eq!(s.get_fact(2).unwrap().user_name, "alice");
    assert!(s.missing_user_rows(500).is_empty());
}
