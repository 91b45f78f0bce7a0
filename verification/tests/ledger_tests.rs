use participation::get_categories;
use participation::get_event_recorder;
use participation::get_students;
use participation::period_maxes;
use participation::synchronize_at;
use participation::update_summary_at;
use participation::EventRecorder;
use participation::Roster;
use participation::SummaryRow;
use participation::Store;

const DAY: i64 = 86400;

fn recorder_with(entries: &[(&str, &str, &str)]) -> EventRecorder {
    let mut store = Store::new(0);
    let ub_ids = entries.iter().map(|e| e.0.to_string()).collect();
    let names = entries.iter().map(|e| e.1.to_string()).collect();
    let usernames = entries.iter().map(|e| e.2.to_string()).collect();
    let roster = Roster::new(ub_ids, names, usernames);
    synchronize_at(&mut store, &roster, 10);
    get_event_recorder(store)
}

fn two_student_recorder() -> EventRecorder {
    recorder_with(&[("u1", "Alice", "alice"), ("u2", "Bob", "bob")])
}

#[test]
fn record_then_retrieve_round_trip() {
    let mut rec = two_student_recorder();
    let day_start: i64 = 7 * DAY;
    let n = rec.record_at("Alice", "homework", true, day_start + 100);
    assert_eq!(n, 1);
    let rows = rec.retrieve_events("Alice", day_start).unwrap();
    assert_eq!(rows.len(), 1);
    assert!(rows[0].satisfactory);
    assert_eq!(rows[0].category_name, "homework");
    assert!(rows[0].first_entered >= day_start && rows[0].first_entered < day_start + DAY);
}

#[test]
fn record_with_clock_lands_in_todays_window() {
    let mut rec = two_student_recorder();
    let before = chrono::Local::now().timestamp();
    let day_start = before - 1000;
    let n = rec.record("Alice", "homework", true).unwrap();
    assert_eq!(n, 1);
    let rows = rec.retrieve_events("Alice", day_start).unwrap();
    assert_eq!(rows.len(), 1);
    assert!(rows[0].satisfactory);
    assert!(rows[0].first_entered >= day_start && rows[0].first_entered < day_start + DAY);
}

#[test]
fn record_unknown_student_writes_nothing() {
    let mut rec = two_student_recorder();
    let n = rec.record("NotARealStudent", "homework", true).unwrap();
    assert_eq!(n, 0);
    assert_eq!(rec.store.events.len(), 0);
}

#[test]
fn record_unknown_category_writes_nothing() {
    let mut rec = two_student_recorder();
    let n = rec.record_at("Alice", "nonsense", true, 500);
    assert_eq!(n, 0);
    assert_eq!(rec.store.events.len(), 0);
}

#[test]
fn retrieve_orders_by_timestamp() {
    let mut rec = two_student_recorder();
    assert_eq!(rec.record_at("Alice", "homework", true, 50), 1);
    assert_eq!(rec.record_at("Alice", "question", false, 20), 1);
    assert_eq!(rec.record_at("Alice", "review", true, 35), 1);
    let rows = rec.retrieve_events("Alice", 0).unwrap();
    let stamps: Vec<i64> = rows.iter().map(|r| r.first_entered).collect();
    assert_eq!(stamps, vec![20, 35, 50]);
    assert_eq!(rows[0].category_name, "question");
    assert_eq!(rows[1].category_name, "review");
    assert_eq!(rows[2].category_name, "homework");
}

#[test]
fn retrieve_keeps_only_the_chosen_day() {
    let mut rec = two_student_recorder();
    let day_start = 3 * DAY;
    assert_eq!(rec.record_at("Alice", "homework", true, day_start), 1);
    assert_eq!(rec.record_at("Alice", "homework", true, day_start + DAY - 1), 1);
    assert_eq!(rec.record_at("Alice", "homework", true, day_start + DAY), 1);
    assert_eq!(rec.record_at("Alice", "homework", true, day_start - 1), 1);
    let rows = rec.retrieve_events("Alice", day_start).unwrap();
    let stamps: Vec<i64> = rows.iter().map(|r| r.first_entered).collect();
    assert_eq!(stamps, vec![day_start, day_start + DAY - 1]);
}

#[test]
fn retrieve_excludes_other_students() {
    let mut rec = two_student_recorder();
    assert_eq!(rec.record_at("Alice", "homework", true, 100), 1);
    assert_eq!(rec.record_at("Bob", "homework", true, 200), 1);
    let rows = rec.retrieve_events("Bob", 0).unwrap();
    assert_eq!(rows.len(), 1);
    assert_eq!(rows[0].first_entered, 200);
}

#[test]
fn retrieve_unknown_name_is_empty() {
    let rec = two_student_recorder();
    let rows = rec.retrieve_events("Nobody", 0).unwrap();
    assert!(rows.is_empty());
}

#[test]
fn change_events_updates_the_flag() {
    let mut rec = two_student_recorder();
    assert_eq!(rec.record_at("Alice", "homework", true, 100), 1);
    let rows = rec.retrieve_events("Alice", 0).unwrap();
    let id = rows[0].db_id;
    rec.change_events(&vec![(false, id)]).unwrap();
    let rows = rec.retrieve_events("Alice", 0).unwrap();
    assert!(!rows[0].satisfactory);
}

#[test]
fn correction_round_trip_restores_original() {
    let mut rec = two_student_recorder();
    assert_eq!(rec.record_at("Alice", "homework", true, 100), 1);
    let id = rec.retrieve_events("Alice", 0).unwrap()[0].db_id;
    rec.change_events(&vec![(false, id)]).unwrap();
    rec.change_events(&vec![(true, id)]).unwrap();
    let rows = rec.retrieve_events("Alice", 0).unwrap();
    assert_eq!(rows.len(), 1);
    assert!(rows[0].satisfactory);
}

#[test]
fn change_events_unknown_id_changes_nothing() {
    let mut rec = two_student_recorder();
    assert_eq!(rec.record_at("Alice", "homework", true, 100), 1);
    rec.change_events(&vec![(false, 999)]).unwrap();
    let rows = rec.retrieve_events("Alice", 0).unwrap();
    assert!(rows[0].satisfactory);
}

#[test]
fn change_events_applies_in_input_order() {
    let mut rec = two_student_recorder();
    assert_eq!(rec.record_at("Alice", "homework", true, 100), 1);
    let id = rec.retrieve_events("Alice", 0).unwrap()[0].db_id;
    rec.change_events(&vec![(false, id), (true, id)]).unwrap();
    assert!(rec.retrieve_events("Alice", 0).unwrap()[0].satisfactory);
    rec.change_events(&vec![(true, id), (false, id)]).unwrap();
    assert!(!rec.retrieve_events("Alice", 0).unwrap()[0].satisfactory);
}

#[test]
fn summary_buckets_partition_events() {
    let mut rec = two_student_recorder();
    let (t0, t1, t2, t3) = (50, 100, 200, 300);
    assert_eq!(rec.record_at("Alice", "homework", true, t0), 1);
    assert_eq!(rec.record_at("Alice", "homework", true, t1), 1);
    assert_eq!(rec.record_at("Alice", "homework", true, t2), 1);
    let rows = rec.get_summary(t1, t2, t3).unwrap();
    assert_eq!(rows.len(), 2);
    assert_eq!(rows[0].username, "alice");
    assert_eq!((rows[0].p1, rows[0].p2, rows[0].p3), (1, 1, 1));
    assert_eq!((rows[1].p1, rows[1].p2, rows[1].p3), (0, 0, 0));
}

#[test]
fn summary_excludes_events_at_or_after_the_third_boundary() {
    let mut rec = two_student_recorder();
    assert_eq!(rec.record_at("Alice", "homework", true, 300), 1);
    assert_eq!(rec.record_at("Alice", "homework", true, 301), 1);
    assert_eq!(rec.record_at("Alice", "homework", true, 299), 1);
    let rows = rec.get_summary(100, 200, 300).unwrap();
    assert_eq!((rows[0].p1, rows[0].p2, rows[0].p3), (0, 0, 1));
}

#[test]
fn summary_ignores_unsatisfactory_events() {
    let mut rec = two_student_recorder();
    assert_eq!(rec.record_at("Alice", "homework", false, 50), 1);
    let rows = rec.get_summary(100, 200, 300).unwrap();
    assert_eq!((rows[0].p1, rows[0].p2, rows[0].p3), (0, 0, 0));
}

#[test]
fn summary_skips_dropped_students() {
    let mut rec = two_student_recorder();
    assert_eq!(rec.record_at("Bob", "homework", true, 50), 1);
    let only_alice = Roster::new(
        vec!["u1".to_string()],
        vec!["Alice".to_string()],
        vec!["alice".to_string()],
    );
    synchronize_at(&mut rec.store, &only_alice, 60);
    let rows = rec.get_summary(100, 200, 300).unwrap();
    assert_eq!(rows.len(), 1);
    assert_eq!(rows[0].username, "alice");
}

#[test]
fn update_summary_rebuilds_all_time_counts() {
    let mut rec = two_student_recorder();
    assert_eq!(rec.record_at("Alice", "homework", true, 50), 1);
    assert_eq!(rec.record_at("Alice", "review", true, 5_000_000), 1);
    assert_eq!(rec.record_at("Alice", "comment", false, 60), 1);
    assert_eq!(rec.record_at("Bob", "homework", true, 70), 1);
    update_summary_at(&mut rec.store, 777);
    assert_eq!(rec.store.summary.len(), 2);
    assert_eq!(rec.store.summary[0].student_id, 1);
    assert_eq!(rec.store.summary[0].points, 2);
    assert_eq!(rec.store.summary[1].student_id, 2);
    assert_eq!(rec.store.summary[1].points, 1);
    assert_eq!(rec.store.summary_last_updated, 777);
    update_summary_at(&mut rec.store, 888);
    assert_eq!(rec.store.summary[0].points, 2);
    assert_eq!(rec.store.summary[1].points, 1);
    assert_eq!(rec.store.summary_last_updated, 888);
}

#[test]
fn categories_are_seeded_once() {
    let store = Store::new(0);
    let cats = get_categories(&store).unwrap();
    let names: Vec<&str> = cats.iter().map(|c| c.name.as_str()).collect();
    assert_eq!(names, vec!["comment", "error", "homework", "practice", "question", "review"]);
    assert_eq!(cats[0].db_id, 1);
    assert_eq!(cats[5].db_id, 6);
}

#[test]
fn get_students_returns_only_enrolled() {
    let mut rec = two_student_recorder();
    let only_alice = Roster::new(
        vec!["u1".to_string()],
        vec!["Alice".to_string()],
        vec!["alice".to_string()],
    );
    synchronize_at(&mut rec.store, &only_alice, 60);
    let students = get_students(&rec.store).unwrap();
    assert_eq!(students.len(), 1);
    assert_eq!(students[0].name, "Alice");
}

#[test]
fn period_maxes_computes_column_maxima() {
    let rows = vec![
        SummaryRow { username: "a".to_string(), p1: 3, p2: 0, p3: 7 },
        SummaryRow { username: "b".to_string(), p1: 1, p2: 5, p3: 2 },
    ];
    assert_eq!(period_maxes(&rows), (3, 5, 7));
}

#[test]
fn period_maxes_of_no_rows_is_the_fold_floor() {
    let rows: Vec<SummaryRow> = Vec::new();
    assert_eq!(period_maxes(&rows), (i64::MIN, i64::MIN, i64::MIN));
}
