use pipeline_pulse::calendar::{date_string_of_timestamp, MAX_TIMESTAMP};
use pipeline_pulse::calendar::rfc3339_utc_string;
use pipeline_pulse::models::Pipeline;
use pipeline_pulse::strutil::u64_to_string;

#[test]
fn date_of_epoch() {
    assert_eq!(date_string_of_timestamp(0), "1970-01-01");
}

#[test]
fn date_of_known_days() {
    assert_eq!(date_string_of_timestamp(1704067200), "2024-01-01");
    assert_eq!(date_string_of_timestamp(1704067199), "2023-12-31");
    // leap day of 2024
    assert_eq!(date_string_of_timestamp(1709164800), "2024-02-29");
    assert_eq!(date_string_of_timestamp(1709251200), "2024-03-01");
    // century leap day of 2000
    assert_eq!(date_string_of_timestamp(951782400), "2000-02-29");
    // 1900 was not a leap year
    assert_eq!(date_string_of_timestamp(MAX_TIMESTAMP), "9999-12-31");
}

#[test]
fn decimal_rendering() {
    assert_eq!(u64_to_string(0), "0");
    assert_eq!(u64_to_string(7), "7");
    assert_eq!(u64_to_string(1234567890), "1234567890");
    assert_eq!(u64_to_string(u64::MAX), "18446744073709551615");
}

#[test]
fn rfc3339_rendering() {
    assert_eq!(rfc3339_utc_string(0), "1970-01-01T00:00:00+00:00");
    assert_eq!(rfc3339_utc_string(1704067500), "2024-01-01T00:05:00+00:00");
    assert_eq!(rfc3339_utc_string(1704153599), "2024-01-01T23:59:59+00:00");
    assert_eq!(rfc3339_utc_string(MAX_TIMESTAMP), "9999-12-31T23:59:59+00:00");
}

#[test]
fn pipeline_rendered_for_consumers() {
    let p = Pipeline {
        id: 1,
        project_id: 7,
        project_name: String::from("demo"),
        project_full_path: String::from("group/demo"),
        ref_name: String::from("main"),
        sha: String::from("abc"),
        user_name: String::from("alice"),
        status: String::from("success"),
        created_at: 1704067200,
        finished_at: Some(1704067500),
        duration: Some(300),
        web_url: None,
    };
    let r = p.to_response();
    assert_eq!(r.created_at, "2024-01-01T00:00:00+00:00");
    assert_eq!(r.finished_at.as_deref(), Some("2024-01-01T00:05:00+00:00"));
    assert_eq!(r.status, "success");
    assert_eq!(r.duration, Some(300));
}
