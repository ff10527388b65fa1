use pushups::codec::{load_records, save_records, LoadError};
use pushups::sort::sort_workouts;
use pushups::stats::{
    build_report, estimate_target_reached_date, get_progress_percentage_hundredths,
    get_progress_speed_per_day, get_total_pushups, get_workouts_days_span, run_session, Report,
    DEFAULT_TARGET,
};
use pushups::workout::Workout;

// 2000-01-01 was a Saturday; the dates below keep RFC 2822's weekday field
// consistent so chrono accepts them.
const D_JAN1: &str = "Sat, 01 Jan 2000 00:00:00 +0000";
const D_JAN2: &str = "Sun, 02 Jan 2000 00:00:00 +0000";
const D_JAN3: &str = "Mon, 03 Jan 2000 00:00:00 +0000";

fn rec(date: &str, repeats: u32) -> Workout {
    Workout::new(date.to_string(), repeats).unwrap_or_else(|e| panic!("invalid date: {}", e.date))
}

#[test]
fn total_independent_of_order() {
    let a = vec![rec(D_JAN1, 10), rec(D_JAN2, 20), rec(D_JAN3, 30)];
    let b = vec![rec(D_JAN3, 30), rec(D_JAN1, 10), rec(D_JAN2, 20)];
    assert_eq!(get_total_pushups(&a), 60);
    assert_eq!(get_total_pushups(&b), 60);
}

#[test]
fn sorting_twice_is_idempotent() {
    let mut once = vec![rec(D_JAN3, 3), rec(D_JAN1, 1), rec(D_JAN2, 2)];
    sort_workouts(&mut once);
    let mut twice: Vec<Workout> = once.iter().map(|w| rec(w.get_date(), w.get_repeats())).collect();
    sort_workouts(&mut twice);
    assert_eq!(once.len(), twice.len());
    for (x, y) in once.iter().zip(twice.iter()) {
        assert_eq!(x.get_date(), y.get_date());
        assert_eq!(x.get_repeats(), y.get_repeats());
    }
    assert_eq!(once[0].get_repeats(), 1);
    assert_eq!(once[1].get_repeats(), 2);
    assert_eq!(once[2].get_repeats(), 3);
}

#[test]
fn sorting_is_stable_under_equal_dates() {
    let mut ws = vec![rec(D_JAN2, 7), rec(D_JAN1, 5), rec(D_JAN1, 6)];
    sort_workouts(&mut ws);
    // the two Jan 1 records keep their original relative order
    assert_eq!(ws[0].get_repeats(), 5);
    assert_eq!(ws[1].get_repeats(), 6);
    assert_eq!(ws[2].get_repeats(), 7);
}

#[test]
fn day_span_of_record_with_itself_is_one() {
    let r = rec(D_JAN1, 45);
    assert_eq!(get_workouts_days_span(&r, &r), 1);
}

#[test]
fn day_span_never_zero_for_distinct_timestamps() {
    let early = rec(D_JAN1, 1);
    let late = rec("Sat, 01 Jan 2000 01:00:00 +0000", 1);
    assert!(get_workouts_days_span(&early, &late) >= 1);
    assert_eq!(get_workouts_days_span(&early, &late), 1);
    // and in the reversed order as well
    assert!(get_workouts_days_span(&late, &early) >= 1);
}

#[test]
fn save_followed_by_load_restores_the_records() {
    let ws = vec![rec(D_JAN1, 45), rec(D_JAN2, 0), rec(D_JAN3, 4_294_967_295)];
    let text = save_records(&ws);
    let back = load_records(&text).expect("saved text must load");
    assert_eq!(back.len(), ws.len());
    for (x, y) in ws.iter().zip(back.iter()) {
        assert_eq!(x.get_date(), y.get_date());
        assert_eq!(x.get_repeats(), y.get_repeats());
    }
}

#[test]
fn saved_text_is_the_expected_json() {
    let ws = vec![rec(D_JAN1, 45)];
    let text = save_records(&ws);
    assert_eq!(
        text,
        "[{\"date\":\"Sat, 01 Jan 2000 00:00:00 +0000\",\"repeats\":45}]"
    );
    let empty: Vec<Workout> = vec![];
    assert_eq!(save_records(&empty), "[]");
}

#[test]
fn scenario_empty_file_then_one_record() {
    let loaded = load_records("").expect("empty text is an empty history");
    assert_eq!(loaded.len(), 0);
    let mut ws = loaded;
    ws.push(rec(D_JAN1, 45));
    let total = get_total_pushups(&ws);
    assert_eq!(total, 45);
    let h = get_progress_percentage_hundredths(total, DEFAULT_TARGET);
    assert_eq!(h, 45);
    assert_eq!(format!("{}.{:02}%", h / 100, h % 100), "0.45%");
}

#[test]
fn scenario_two_records_48_hours_apart() {
    let mut ws = vec![rec(D_JAN1, 100), rec(D_JAN3, 200)];
    sort_workouts(&mut ws);
    let total = get_total_pushups(&ws);
    assert_eq!(total, 300);
    let days = get_workouts_days_span(&ws[0], &ws[1]);
    assert_eq!(days, 2);
    assert_eq!(get_progress_speed_per_day(total, days), 150);
}

#[test]
fn scenario_goal_reached() {
    let history = vec![rec(D_JAN1, 6_000)];
    let (sorted, report) = run_session(history, rec(D_JAN3, 4_000), DEFAULT_TARGET);
    assert_eq!(sorted.len(), 2);
    match report {
        Report::GoalReached { total, days } => {
            assert_eq!(total, 10_000);
            assert_eq!(days, 2);
        }
        Report::Progress { .. } => panic!("expected the congratulations branch"),
    }
}

#[test]
fn scenario_projection_truncates_to_same_date() {
    let last = rec(D_JAN1, 9_999);
    let r = estimate_target_reached_date(&last, 9_999, 1, DEFAULT_TARGET)
        .expect("pace 9999 projects a date");
    assert_eq!(r.secs, last.timestamp_secs());
    assert_eq!(r.offset_secs, last.utc_offset_secs());
}

#[test]
fn zero_pace_gives_no_projection() {
    let last = rec(D_JAN1, 1);
    // one pushup over three days: the truncated pace is zero
    assert!(estimate_target_reached_date(&last, 1, 3, DEFAULT_TARGET).is_none());
}

#[test]
fn progress_report_has_exact_fields() {
    let ws = vec![rec(D_JAN1, 9_999)];
    match build_report(&ws, DEFAULT_TARGET) {
        Report::Progress { percent_hundredths, projection } => {
            assert_eq!(percent_hundredths, 9_999);
            let t = projection.expect("pace 9999 projects a date");
            assert_eq!(t.secs, ws[0].timestamp_secs());
        }
        Report::GoalReached { .. } => panic!("expected the progress branch"),
    }
}

#[test]
fn scenario_malformed_text_fails_to_load() {
    assert!(matches!(load_records("[{"), Err(LoadError::Parse)));
    assert!(matches!(load_records("not json at all"), Err(LoadError::Parse)));
    assert!(matches!(
        load_records("[{\"date\":\"Sat, 01 Jan 2000 00:00:00 +0000\",\"repeats\":45}"),
        Err(LoadError::Parse)
    ));
}

#[test]
fn unparseable_stored_date_fails_with_the_text() {
    match load_records("[{\"date\":\"nonsense\",\"repeats\":1}]") {
        Err(LoadError::Date(de)) => assert_eq!(de.date, "nonsense"),
        _ => panic!("expected a date error"),
    }
}

#[test]
fn invalid_date_is_rejected_with_the_text() {
    match Workout::new("not a date".to_string(), 3) {
        Err(e) => assert_eq!(e.date, "not a date"),
        Ok(_) => panic!("expected a date error"),
    }
}

#[test]
fn difference_counts_seconds_between_dates() {
    // relies on the dates really being parsed: handing the text back
    // unchanged could not yield 48 hours of seconds
    let a = rec(D_JAN1, 1);
    let b = rec(D_JAN3, 1);
    assert_eq!(b.difference(&a), 172_800);
    assert_eq!(a.difference(&b), -172_800);
    assert_eq!(a.difference(&a), 0);
}

#[test]
fn timezone_offset_is_kept() {
    let w = rec("Sat, 01 Jan 2000 00:00:00 +0230", 1);
    assert_eq!(w.utc_offset_secs(), 2 * 3600 + 30 * 60);
    let utc = rec("Fri, 31 Dec 1999 21:30:00 +0000", 1);
    assert_eq!(w.difference(&utc), 0);
}

#[test]
fn saved_text_interoperates_with_serde_json() {
    let ws = vec![rec(D_JAN1, 45), rec(D_JAN2, 200)];
    let text = save_records(&ws);
    let value: serde_json::Value =
        serde_json::from_str(&text).expect("saved text is valid JSON for serde_json");
    let arr = value.as_array().expect("a JSON list");
    assert_eq!(arr.len(), 2);
    assert_eq!(arr[0]["date"].as_str(), Some(D_JAN1));
    assert_eq!(arr[0]["repeats"].as_u64(), Some(45));
    assert_eq!(arr[1]["repeats"].as_u64(), Some(200));

    // and text that serde_json writes loads back through the library
    let mut obj = serde_json::Map::new();
    obj.insert(
        "date".to_string(),
        serde_json::Value::String(D_JAN3.to_string()),
    );
    obj.insert(
        "repeats".to_string(),
        serde_json::Value::Number(serde_json::Number::from(7u32)),
    );
    let value = serde_json::Value::Array(vec![serde_json::Value::Object(obj)]);
    let text = serde_json::to_string(&value).expect("serialize");
    let back = load_records(&text).expect("serde_json text loads");
    assert_eq!(back.len(), 1);
    assert_eq!(back[0].get_date(), D_JAN3);
    assert_eq!(back[0].get_repeats(), 7);
}

#[test]
fn number_too_large_for_repeats_is_rejected() {
    // one past u32::MAX
    assert!(matches!(
        load_records("[{\"date\":\"Sat, 01 Jan 2000 00:00:00 +0000\",\"repeats\":4294967296}]"),
        Err(LoadError::Parse)
    ));
}
