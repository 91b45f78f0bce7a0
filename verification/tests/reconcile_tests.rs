use participation::synchronize_at;
use participation::Roster;
use participation::Status;
use participation::Store;

fn roster_of(entries: &[(&str, &str, &str)]) -> Roster {
    let ub_ids = entries.iter().map(|e| e.0.to_string()).collect();
    let names = entries.iter().map(|e| e.1.to_string()).collect();
    let usernames = entries.iter().map(|e| e.2.to_string()).collect();
    Roster::new(ub_ids, names, usernames)
}

#[test]
fn reconcile_inserts_new_students() {
    let mut store = Store::new(0);
    let roster = roster_of(&[("u1", "Alice Ames", "aames"), ("u2", "Bob Bell", "bbell")]);
    let stats = synchronize_at(&mut store, &roster, 50);
    assert_eq!(stats.inserted, 2);
    assert_eq!(stats.updated, 0);
    assert_eq!(stats.dropped, 0);
    assert_eq!(store.students.len(), 2);
    assert_eq!(store.students[0].db_id, 1);
    assert_eq!(store.students[0].ub_id, "u1");
    assert_eq!(store.students[0].name, "Alice Ames");
    assert_eq!(store.students[0].username, "aames");
    assert_eq!(store.students[0].status, Status::Enrolled);
    assert_eq!(store.students[0].first_entered, 50);
    assert_eq!(store.students[0].last_updated, 50);
    assert_eq!(store.students[1].db_id, 2);
    assert_eq!(store.students[1].ub_id, "u2");
}

#[test]
fn reconcile_same_roster_twice_writes_nothing() {
    let mut store = Store::new(0);
    let roster = roster_of(&[("u1", "Alice Ames", "aames"), ("u2", "Bob Bell", "bbell")]);
    synchronize_at(&mut store, &roster, 50);
    let before: Vec<(String, String, Status, i64, i64)> = store
        .students
        .iter()
        .map(|s| {
            (s.ub_id.clone(), s.name.clone(), s.status, s.first_entered, s.last_updated)
        })
        .collect();
    let stats = synchronize_at(&mut store, &roster, 90);
    assert_eq!(stats.inserted, 0);
    assert_eq!(stats.updated, 0);
    assert_eq!(stats.dropped, 0);
    let after: Vec<(String, String, Status, i64, i64)> = store
        .students
        .iter()
        .map(|s| {
            (s.ub_id.clone(), s.name.clone(), s.status, s.first_entered, s.last_updated)
        })
        .collect();
    assert_eq!(before, after);
}

#[test]
fn reconcile_drop_detection() {
    let mut store = Store::new(0);
    let both = roster_of(&[("u1", "Alice Ames", "aames"), ("u2", "Bob Bell", "bbell")]);
    synchronize_at(&mut store, &both, 10);
    let only_a = roster_of(&[("u1", "Alice Ames", "aames")]);
    let stats = synchronize_at(&mut store, &only_a, 99);
    assert_eq!(stats.inserted, 0);
    assert_eq!(stats.updated, 0);
    assert_eq!(stats.dropped, 1);
    assert_eq!(store.students[0].status, Status::Enrolled);
    assert_eq!(store.students[0].last_updated, 10);
    assert_eq!(store.students[1].status, Status::Dropped);
    assert_eq!(store.students[1].last_updated, 99);
}

#[test]
fn reconcile_empty_roster_drops_everyone() {
    let mut store = Store::new(0);
    let roster = roster_of(&[("u1", "Alice Ames", "aames")]);
    synchronize_at(&mut store, &roster, 10);
    let empty = roster_of(&[]);
    let stats = synchronize_at(&mut store, &empty, 20);
    assert_eq!(stats.inserted, 0);
    assert_eq!(stats.updated, 0);
    assert_eq!(stats.dropped, 1);
    assert_eq!(store.students.len(), 1);
    assert_eq!(store.students[0].status, Status::Dropped);
    assert_eq!(store.students[0].last_updated, 20);
}

#[test]
fn reconcile_duplicate_external_id_last_wins() {
    let mut store = Store::new(0);
    let roster = roster_of(&[("u1", "Old Name", "oldu"), ("u1", "New Name", "newu")]);
    let stats = synchronize_at(&mut store, &roster, 30);
    assert_eq!(store.students.len(), 1);
    assert_eq!(store.students[0].name, "New Name");
    assert_eq!(store.students[0].username, "newu");
    assert_eq!(stats.inserted, 1);
    assert_eq!(stats.updated, 1);
}

#[test]
fn reconcile_updates_changed_fields_only() {
    let mut store = Store::new(0);
    let roster1 = roster_of(&[("u1", "Al Ames", "aames")]);
    synchronize_at(&mut store, &roster1, 10);
    let roster2 = roster_of(&[("u1", "Albert Ames", "aames")]);
    let stats = synchronize_at(&mut store, &roster2, 40);
    assert_eq!(stats.inserted, 0);
    assert_eq!(stats.updated, 1);
    assert_eq!(stats.dropped, 0);
    assert_eq!(store.students[0].name, "Albert Ames");
    assert_eq!(store.students[0].first_entered, 10);
    assert_eq!(store.students[0].last_updated, 40);
}

#[test]
fn reconcile_reenrolls_dropped_student() {
    let mut store = Store::new(0);
    let roster = roster_of(&[("u1", "Alice Ames", "aames")]);
    synchronize_at(&mut store, &roster, 10);
    synchronize_at(&mut store, &roster_of(&[]), 20);
    assert_eq!(store.students[0].status, Status::Dropped);
    let stats = synchronize_at(&mut store, &roster, 30);
    assert_eq!(stats.inserted, 0);
    assert_eq!(stats.updated, 1);
    assert_eq!(store.students.len(), 1);
    assert_eq!(store.students[0].db_id, 1);
    assert_eq!(store.students[0].status, Status::Enrolled);
    assert_eq!(store.students[0].first_entered, 10);
    assert_eq!(store.students[0].last_updated, 30);
}
