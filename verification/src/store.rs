//! The persisted state: an explicit, in-memory model of the student,
//! category, event, and summary records, with the invariants that every
//! operation of the library preserves. A deployment that needs durability
//! mirrors each operation into its own backend; the logic here is what
//! defines the meaning of those operations.

use vstd::prelude::*;

use crate::model::Category;
use crate::model::CategoryV;
use crate::model::Event;
use crate::model::EventV;
use crate::model::Student;
use crate::model::StudentV;
use crate::model::SummaryEntry;
use crate::model::SummaryEntryV;

verus! {

/// The views of a sequence of student records.
pub open spec fn views_of(students: Seq<Student>) -> Seq<StudentV> {
    students.map_values(|s: Student| s@)
}

/// Student records carry dense internal ids: the record at index `i` has
/// `db_id == i + 1`.
pub open spec fn dense_ids(students: Seq<StudentV>) -> bool {
    forall|i: int| 0 <= i < students.len() ==> (#[trigger] students[i]).db_id == i + 1
}

/// The views of a sequence of categories.
pub open spec fn cat_views(categories: Seq<Category>) -> Seq<CategoryV> {
    categories.map_values(|c: Category| c@)
}

/// The views of a sequence of events.
pub open spec fn event_views(events: Seq<Event>) -> Seq<EventV> {
    events.map_values(|e: Event| e@)
}

/// The views of a sequence of summary rows.
pub open spec fn summary_views(summary: Seq<SummaryEntry>) -> Seq<SummaryEntryV> {
    summary.map_values(|e: SummaryEntry| e@)
}

/// No two student records share an external id.
pub open spec fn unique_ubs(students: Seq<StudentV>) -> bool {
    forall|i: int, j: int|
        #![trigger students[i], students[j]]
        0 <= i < j < students.len() ==> students[i].ub_id != students[j].ub_id
}

/// Mathematical view of a `Store`.
pub struct StoreV {
    pub students: Seq<StudentV>,
    pub categories: Seq<CategoryV>,
    pub events: Seq<EventV>,
    pub summary: Seq<SummaryEntryV>,
    pub summary_last_updated: int,
}

/// The record store. Internal ids are dense: the record at index `i` of a
/// table carries `db_id == i + 1`, so an id is both a stable reference and
/// an index. Operations require and preserve `wf` on the view.
pub struct Store {
    pub students: Vec<Student>,
    pub categories: Vec<Category>,
    pub events: Vec<Event>,
    pub summary: Vec<SummaryEntry>,
    pub summary_last_updated: i64,
}

impl View for Store {
    type V = StoreV;

    open spec fn view(&self) -> StoreV {
        StoreV {
            students: views_of(self.students@),
            categories: cat_views(self.categories@),
            events: event_views(self.events@),
            summary: summary_views(self.summary@),
            summary_last_updated: self.summary_last_updated as int,
        }
    }
}

impl StoreV {
    /// Student records carry dense internal ids and unique external ids;
    /// the external id is the reconciliation key, unique across all
    /// students including dropped ones.
    pub open spec fn students_wf(self) -> bool {
        &&& self.students.len() < 0x7fff_ffff
        &&& dense_ids(self.students)
        &&& unique_ubs(self.students)
    }

    /// Categories carry dense internal ids and unique names.
    pub open spec fn categories_wf(self) -> bool {
        &&& self.categories.len() < 0x7fff_ffff
        &&& forall|i: int|
            0 <= i < self.categories.len() ==> (#[trigger] self.categories[i]).db_id == i + 1
        &&& forall|i: int, j: int|
            #![trigger self.categories[i], self.categories[j]]
            0 <= i < j < self.categories.len() ==> self.categories[i].name
                != self.categories[j].name
    }

    /// Events carry dense internal ids and reference existing students and
    /// categories.
    pub open spec fn events_wf(self) -> bool {
        &&& self.events.len() < 0x7fff_ffff
        &&& forall|i: int| 0 <= i < self.events.len() ==> (#[trigger] self.events[i]).db_id == i + 1
        &&& forall|i: int|
            0 <= i < self.events.len() ==> 1 <= (#[trigger] self.events[i]).student_id
                <= self.students.len()
        &&& forall|i: int|
            0 <= i < self.events.len() ==> 1 <= (#[trigger] self.events[i]).category_id
                <= self.categories.len()
    }

    /// The summary cache holds at most one row per student, in student
    /// order, each with a non-negative point count.
    pub open spec fn summary_wf(self) -> bool {
        &&& self.summary.len() <= self.students.len()
        &&& forall|i: int|
            0 <= i < self.summary.len() ==> (#[trigger] self.summary[i]).student_id == i + 1
        &&& forall|i: int| 0 <= i < self.summary.len() ==> 0 <= (#[trigger] self.summary[i]).points
            < 0x7fff_ffff
    }

    /// Well-formedness of the whole store.
    pub open spec fn wf(self) -> bool {
        &&& self.students_wf()
        &&& self.categories_wf()
        &&& self.events_wf()
        &&& self.summary_wf()
    }
}

/// The current wall-clock time as whole seconds since the epoch. Relies on
/// chrono's `Local::now` and `DateTime::timestamp`; a clock reading is
/// outside the model, so nothing is promised of the value.
#[verifier::external_body]
pub(crate) fn now_seconds() -> i64 {
    chrono::Local::now().timestamp()
}

/// The category set seeded into a fresh store.
pub open spec fn seeded_categories(now: int) -> Seq<CategoryV> {
    seq![
        CategoryV { db_id: 1, name: "comment"@, first_entered: now },
        CategoryV { db_id: 2, name: "error"@, first_entered: now },
        CategoryV { db_id: 3, name: "homework"@, first_entered: now },
        CategoryV { db_id: 4, name: "practice"@, first_entered: now },
        CategoryV { db_id: 5, name: "question"@, first_entered: now },
        CategoryV { db_id: 6, name: "review"@, first_entered: now },
    ]
}

impl Store {
    /// A fresh store: no students, no events, no summary rows, and the
    /// fixed category set seeded with creation time `now`.
    pub fn new(now: i64) -> (s: Store)
        ensures
            s@.wf(),
            s@.students == Seq::<StudentV>::empty(),
            s@.events == Seq::<EventV>::empty(),
            s@.summary == Seq::<SummaryEntryV>::empty(),
            s@.categories == seeded_categories(now as int),
            s@.summary_last_updated == now as int,
    {
        let mut categories: Vec<Category> = Vec::new();
        categories.push(Category::new(1, "comment".to_owned(), now));
        categories.push(Category::new(2, "error".to_owned(), now));
        categories.push(Category::new(3, "homework".to_owned(), now));
        categories.push(Category::new(4, "practice".to_owned(), now));
        categories.push(Category::new(5, "question".to_owned(), now));
        categories.push(Category::new(6, "review".to_owned(), now));
        let s = Store {
            students: Vec::new(),
            categories,
            events: Vec::new(),
            summary: Vec::new(),
            summary_last_updated: now,
        };
        proof {
            assert(s@.students =~= Seq::<StudentV>::empty());
            assert(s@.events =~= Seq::<EventV>::empty());
            assert(s@.summary =~= Seq::<SummaryEntryV>::empty());
            assert(s@.categories =~= seeded_categories(now as int));
            reveal_strlit("comment");
            reveal_strlit("error");
            reveal_strlit("homework");
            reveal_strlit("practice");
            reveal_strlit("question");
            reveal_strlit("review");
            assert(s@.categories.len() == 6);
            assert(forall|i: int|
                0 <= i < 6 ==> (#[trigger] s@.categories[i]).db_id == i + 1) by {
                assert(s@.categories == seeded_categories(now as int));
            }
            assert("comment"@.len() == 7);
            assert("error"@.len() == 5);
            assert("homework"@.len() == 8);
            assert("practice"@.len() == 8);
            assert("question"@.len() == 8);
            assert("review"@.len() == 6);
            assert("homework"@[0] == 'h');
            assert("practice"@[0] == 'p');
            assert("question"@[0] == 'q');
            assert(s@.categories_wf());
        }
        s
    }
}

} // verus!
