use rand::rngs::StdRng;
use rand::SeedableRng;

use participation::get_student_picker;
use participation::Status;
use participation::Student;
use participation::StudentPicker;

fn pool(names: &[&str]) -> Vec<Student> {
    names
        .iter()
        .enumerate()
        .map(|(i, name)| {
            Student::new(
                (i + 1) as i32,
                format!("u{}", i + 1),
                name.to_string(),
                format!("user{}", i + 1),
                Status::Enrolled,
                0,
                0,
            )
        })
        .collect()
}

#[test]
fn picker_rejects_empty_pool() {
    let rng = StdRng::seed_from_u64(7);
    assert!(StudentPicker::new(Vec::new(), rng).is_err());
}

#[test]
fn get_student_picker_rejects_empty_pool() {
    assert!(get_student_picker(Vec::new()).is_err());
}

#[test]
fn picker_first_pass_is_permutation() {
    let names = ["Ada", "Ben", "Cam", "Dee", "Eli"];
    let rng = StdRng::seed_from_u64(42);
    let mut picker = StudentPicker::new(pool(&names), rng).unwrap();
    let mut drawn: Vec<String> = (0..names.len()).map(|_| picker.next().name).collect();
    drawn.sort();
    let mut expected: Vec<String> = names.iter().map(|n| n.to_string()).collect();
    expected.sort();
    assert_eq!(drawn, expected);
}

#[test]
fn picker_every_pass_is_permutation() {
    let names = ["Ada", "Ben", "Cam", "Dee"];
    let rng = StdRng::seed_from_u64(99);
    let mut picker = StudentPicker::new(pool(&names), rng).unwrap();
    let mut expected: Vec<String> = names.iter().map(|n| n.to_string()).collect();
    expected.sort();
    for _pass in 0..3 {
        let mut drawn: Vec<String> = (0..names.len()).map(|_| picker.next().name).collect();
        drawn.sort();
        assert_eq!(drawn, expected);
    }
}

#[test]
fn picker_single_student_repeats() {
    let rng = StdRng::seed_from_u64(3);
    let mut picker = StudentPicker::new(pool(&["Solo"]), rng).unwrap();
    for _ in 0..5 {
        assert_eq!(picker.next().name, "Solo");
    }
}
