use participation::roster_from_records;
use participation::Roster;

#[test]
fn roster_iter_hands_out_triples_in_order() {
    let roster = Roster::new(
        vec!["u1".to_string(), "u2".to_string()],
        vec!["Alice Ames".to_string(), "Bob Bell".to_string()],
        vec!["aames".to_string(), "bbell".to_string()],
    );
    let mut it = roster.iter();
    assert_eq!(
        it.next(),
        Some(("u1".to_string(), "Alice Ames".to_string(), "aames".to_string()))
    );
    assert_eq!(
        it.next(),
        Some(("u2".to_string(), "Bob Bell".to_string(), "bbell".to_string()))
    );
    assert_eq!(it.next(), None);
    assert_eq!(it.next(), None);
}

#[test]
fn roster_iter_stops_at_shortest_column() {
    let roster = Roster::new(
        vec!["u1".to_string(), "u2".to_string()],
        vec!["Alice Ames".to_string()],
        vec!["aames".to_string(), "bbell".to_string()],
    );
    let mut it = roster.iter();
    assert!(it.next().is_some());
    assert_eq!(it.next(), None);
}

#[test]
fn roster_from_records_assembles_entries() {
    let records = vec![
        vec![
            "Ames".to_string(),
            "Alice".to_string(),
            "aames".to_string(),
            "u1".to_string(),
            "extra".to_string(),
        ],
        vec!["Bell".to_string(), "Bob".to_string(), "bbell".to_string(), "u2".to_string()],
    ];
    let roster = roster_from_records(&records);
    let mut it = roster.iter();
    assert_eq!(
        it.next(),
        Some(("u1".to_string(), "Alice Ames".to_string(), "aames".to_string()))
    );
    assert_eq!(
        it.next(),
        Some(("u2".to_string(), "Bob Bell".to_string(), "bbell".to_string()))
    );
    assert_eq!(it.next(), None);
}

#[test]
fn roster_from_records_skips_incomplete_rows() {
    let records = vec![
        vec!["Ames".to_string(), "Alice".to_string(), "aames".to_string()],
        vec!["Bell".to_string(), "Bob".to_string(), "bbell".to_string(), "u2".to_string()],
        vec![],
    ];
    let roster = roster_from_records(&records);
    let mut it = roster.iter();
    assert_eq!(
        it.next(),
        Some(("u2".to_string(), "Bob Bell".to_string(), "bbell".to_string()))
    );
    assert_eq!(it.next(), None);
}
