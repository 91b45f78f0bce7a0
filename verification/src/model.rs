//! Core data types: students, categories, events, summaries, and the
//! library's error values, together with their mathematical views.

use vstd::prelude::*;

verus! {

/// Enrollment status of a student record. A student is created `Enrolled`
/// and toggles to `Dropped` when a reconciliation no longer finds them on
/// the roster; the record itself is never deleted.
#[derive(Clone, Copy, PartialEq, Eq, Structural, Debug)]
pub enum Status {
    Enrolled,
    Dropped,
}

/// A persisted student record. `ub_id` is the roster-assigned external id
/// and the reconciliation key; `db_id` is the store-assigned internal id.
pub struct Student {
    pub db_id: i32,
    pub ub_id: String,
    pub name: String,
    pub username: String,
    pub status: Status,
    pub first_entered: i64,
    pub last_updated: i64,
}

/// Mathematical view of a `Student`.
pub struct StudentV {
    pub db_id: int,
    pub ub_id: Seq<char>,
    pub name: Seq<char>,
    pub username: Seq<char>,
    pub status: Status,
    pub first_entered: int,
    pub last_updated: int,
}

impl View for Student {
    type V = StudentV;

    open spec fn view(&self) -> StudentV {
        StudentV {
            db_id: self.db_id as int,
            ub_id: self.ub_id@,
            name: self.name@,
            username: self.username@,
            status: self.status,
            first_entered: self.first_entered as int,
            last_updated: self.last_updated as int,
        }
    }
}

impl Clone for Student {
    fn clone(&self) -> (r: Self)
        ensures
            r@ == self@,
    {
        Student {
            db_id: self.db_id,
            ub_id: self.ub_id.clone(),
            name: self.name.clone(),
            username: self.username.clone(),
            status: self.status,
            first_entered: self.first_entered,
            last_updated: self.last_updated,
        }
    }
}

impl Student {
    pub fn new(
        db_id: i32,
        ub_id: String,
        name: String,
        username: String,
        status: Status,
        first_entered: i64,
        last_updated: i64,
    ) -> (s: Student)
        ensures
            s@ == (StudentV {
                db_id: db_id as int,
                ub_id: ub_id@,
                name: name@,
                username: username@,
                status: status,
                first_entered: first_entered as int,
                last_updated: last_updated as int,
            }),
    {
        Student { db_id, ub_id, name, username, status, first_entered, last_updated }
    }
}

/// A participation category. The set of categories is seeded once when a
/// store is created and is read-only afterwards.
pub struct Category {
    pub db_id: i32,
    pub name: String,
    pub first_entered: i64,
}

/// Mathematical view of a `Category`.
pub struct CategoryV {
    pub db_id: int,
    pub name: Seq<char>,
    pub first_entered: int,
}

impl View for Category {
    type V = CategoryV;

    open spec fn view(&self) -> CategoryV {
        CategoryV {
            db_id: self.db_id as int,
            name: self.name@,
            first_entered: self.first_entered as int,
        }
    }
}

impl Clone for Category {
    fn clone(&self) -> (r: Self)
        ensures
            r@ == self@,
    {
        Category { db_id: self.db_id, name: self.name.clone(), first_entered: self.first_entered }
    }
}

impl Category {
    pub fn new(db_id: i32, name: String, first_entered: i64) -> (c: Category)
        ensures
            c@ == (CategoryV {
                db_id: db_id as int,
                name: name@,
                first_entered: first_entered as int,
            }),
    {
        Category { db_id, name, first_entered }
    }
}

/// A recorded participation event. `first_entered` is the moment the event
/// was recorded; `satisfactory` is the only field a correction may change.
#[derive(Clone, Copy, PartialEq, Eq, Structural, Debug)]
pub struct Event {
    pub db_id: i32,
    pub student_id: i32,
    pub category_id: i32,
    pub first_entered: i64,
    pub satisfactory: bool,
}

/// Mathematical view of an `Event`.
pub struct EventV {
    pub db_id: int,
    pub student_id: int,
    pub category_id: int,
    pub first_entered: int,
    pub satisfactory: bool,
}

impl View for Event {
    type V = EventV;

    open spec fn view(&self) -> EventV {
        EventV {
            db_id: self.db_id as int,
            student_id: self.student_id as int,
            category_id: self.category_id as int,
            first_entered: self.first_entered as int,
            satisfactory: self.satisfactory,
        }
    }
}

/// One row of the cached point summary: the student's total count of
/// satisfactory events, recomputed wholesale by `update_summary`.
#[derive(Clone, Copy, PartialEq, Eq, Structural, Debug)]
pub struct SummaryEntry {
    pub student_id: i32,
    pub points: i64,
}

/// Mathematical view of a `SummaryEntry`.
pub struct SummaryEntryV {
    pub student_id: int,
    pub points: int,
}

impl View for SummaryEntry {
    type V = SummaryEntryV;

    open spec fn view(&self) -> SummaryEntryV {
        SummaryEntryV { student_id: self.student_id as int, points: self.points as int }
    }
}

/// One event as handed back by `retrieve_events`: the event id, the name of
/// its category, its timestamp, and its current `satisfactory` flag.
pub struct EventView {
    pub db_id: i32,
    pub category_name: String,
    pub first_entered: i64,
    pub satisfactory: bool,
}

/// Mathematical view of an `EventView`.
pub struct EventViewV {
    pub db_id: int,
    pub category_name: Seq<char>,
    pub first_entered: int,
    pub satisfactory: bool,
}

impl View for EventView {
    type V = EventViewV;

    open spec fn view(&self) -> EventViewV {
        EventViewV {
            db_id: self.db_id as int,
            category_name: self.category_name@,
            first_entered: self.first_entered as int,
            satisfactory: self.satisfactory,
        }
    }
}

/// One row of the three-period summary: a username and the satisfactory
/// counts of the three grading periods.
pub struct SummaryRow {
    pub username: String,
    pub p1: i64,
    pub p2: i64,
    pub p3: i64,
}

/// Mathematical view of a `SummaryRow`.
pub struct SummaryRowV {
    pub username: Seq<char>,
    pub p1: int,
    pub p2: int,
    pub p3: int,
}

impl View for SummaryRow {
    type V = SummaryRowV;

    open spec fn view(&self) -> SummaryRowV {
        SummaryRowV {
            username: self.username@,
            p1: self.p1 as int,
            p2: self.p2 as int,
            p3: self.p3 as int,
        }
    }
}

/// A store operation failed. The in-memory store itself is total, so the
/// library never constructs this value; a persistence gateway that mirrors
/// the store into a durable backend reports its failures with it, carrying
/// the identity of the failing operation.
#[derive(Debug)]
pub struct PersistenceError {
    pub operation: String,
}

/// The fair picker was constructed from an empty pool of students.
#[derive(Clone, Copy, PartialEq, Eq, Structural, Debug)]
pub struct EmptyPoolError;

} // verus!
