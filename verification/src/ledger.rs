//! The participation ledger: records events against named students and
//! categories, retrieves a student's events for one calendar day, applies
//! batched corrections, and computes the period-bucketed point summaries.

use vstd::prelude::*;

use crate::model::Category;
use crate::model::CategoryV;
use crate::model::Event;
use crate::model::EventV;
use crate::model::EventView;
use crate::model::EventViewV;
use crate::model::PersistenceError;
use crate::model::Status;
use crate::model::Student;
use crate::model::StudentV;
use crate::model::SummaryEntry;
use crate::model::SummaryEntryV;
use crate::model::SummaryRow;
use crate::model::SummaryRowV;
use crate::store::cat_views;
use crate::store::event_views;
use crate::store::now_seconds;
use crate::store::views_of;
use crate::store::Store;
use crate::store::StoreV;

verus! {

/// String equality by content. Relies on str's `PartialEq`: two string
/// slices compare equal exactly when their character sequences are equal.
#[verifier::external_body]
fn str_eq(a: &str, b: &str) -> (r: bool)
    ensures
        r == (a@ == b@),
{
    a == b
}

/// Whether some student record carries name `name`.
pub open spec fn has_student_named(students: Seq<StudentV>, name: Seq<char>) -> bool {
    exists|i: int| 0 <= i < students.len() && (#[trigger] students[i]).name == name
}

/// Whether `i` is the first position whose student record carries `name`.
pub open spec fn first_named(students: Seq<StudentV>, name: Seq<char>, i: int) -> bool {
    &&& 0 <= i < students.len()
    &&& students[i].name == name
    &&& forall|j: int| 0 <= j < i ==> (#[trigger] students[j]).name != name
}

/// The first position whose student record carries `name`.
pub open spec fn first_named_idx(students: Seq<StudentV>, name: Seq<char>) -> int {
    choose|i: int| first_named(students, name, i)
}

/// Whether some category carries name `name`.
pub open spec fn has_category_named(categories: Seq<CategoryV>, name: Seq<char>) -> bool {
    exists|i: int| 0 <= i < categories.len() && (#[trigger] categories[i]).name == name
}

/// Whether `i` is the first position whose category carries `name`.
pub open spec fn first_cat_named(categories: Seq<CategoryV>, name: Seq<char>, i: int) -> bool {
    &&& 0 <= i < categories.len()
    &&& categories[i].name == name
    &&& forall|j: int| 0 <= j < i ==> (#[trigger] categories[j]).name != name
}

/// The first position whose category carries `name`.
pub open spec fn first_cat_idx(categories: Seq<CategoryV>, name: Seq<char>) -> int {
    choose|i: int| first_cat_named(categories, name, i)
}

/// A first position is unique, so the chosen index is it.
proof fn lemma_first_named_idx(students: Seq<StudentV>, name: Seq<char>, i: int)
    requires
        first_named(students, name, i),
    ensures
        has_student_named(students, name),
        first_named_idx(students, name) == i,
{
    assert(students[i].name == name);
    let j = first_named_idx(students, name);
    assert(first_named(students, name, j));
    if i < j {
        assert(students[i].name != name);
    } else if j < i {
        assert(students[j].name != name);
    }
}

/// A first position is unique, so the chosen index is it.
proof fn lemma_first_cat_idx(categories: Seq<CategoryV>, name: Seq<char>, i: int)
    requires
        first_cat_named(categories, name, i),
    ensures
        has_category_named(categories, name),
        first_cat_idx(categories, name) == i,
{
    assert(categories[i].name == name);
    let j = first_cat_idx(categories, name);
    assert(first_cat_named(categories, name, j));
    if i < j {
        assert(categories[i].name != name);
    } else if j < i {
        assert(categories[j].name != name);
    }
}

/// Finds the first student record carrying `name`.
fn find_student_by_name(students: &Vec<Student>, name: &str) -> (r: Option<usize>)
    ensures
        match r {
            Some(i) => first_named(views_of(students@), name@, i as int),
            None => !has_student_named(views_of(students@), name@),
        },
{
    let mut i: usize = 0;
    while i < students.len()
        invariant
            i <= students@.len(),
            forall|j: int| 0 <= j < i ==> (#[trigger] views_of(students@)[j]).name != name@,
        decreases students@.len() - i,
    {
        if str_eq(students[i].name.as_str(), name) {
            return Some(i);
        }
        i = i + 1;
    }
    proof {
        if has_student_named(views_of(students@), name@) {
            let w = choose|w: int|
                0 <= w < views_of(students@).len() && (#[trigger] views_of(students@)[w]).name
                    == name@;
            assert(views_of(students@)[w].name != name@);
        }
    }
    None
}

/// Finds the first category carrying `name`.
fn find_category_by_name(categories: &Vec<Category>, name: &str) -> (r: Option<usize>)
    ensures
        match r {
            Some(i) => first_cat_named(
                cat_views(categories@),
                name@,
                i as int,
            ),
            None => !has_category_named(cat_views(categories@), name@),
        },
{
    let ghost cs: Seq<CategoryV> = cat_views(categories@);
    let mut i: usize = 0;
    while i < categories.len()
        invariant
            i <= categories@.len(),
            cs == cat_views(categories@),
            forall|j: int| 0 <= j < i ==> (#[trigger] cs[j]).name != name@,
        decreases categories@.len() - i,
    {
        if str_eq(categories[i].name.as_str(), name) {
            return Some(i);
        }
        i = i + 1;
    }
    proof {
        if has_category_named(cs, name@) {
            let w = choose|w: int| 0 <= w < cs.len() && (#[trigger] cs[w]).name == name@;
            assert(cs[w].name != name@);
        }
    }
    None
}

/// Whether both names resolve against the store: recording writes a row
/// exactly when they do.
pub open spec fn resolvable(s: StoreV, student_name: Seq<char>, category_name: Seq<char>) -> bool {
    has_student_named(s.students, student_name) && has_category_named(s.categories, category_name)
}

/// The event row one `record` call appends: the next dense id, the ids of
/// the first student and category carrying the given names, the call's
/// timestamp, and the given flag.
pub open spec fn recorded_event(
    s: StoreV,
    student_name: Seq<char>,
    category_name: Seq<char>,
    satisfactory: bool,
    now: int,
) -> EventV {
    EventV {
        db_id: s.events.len() as int + 1,
        student_id: s.students[first_named_idx(s.students, student_name)].db_id,
        category_id: s.categories[first_cat_idx(s.categories, category_name)].db_id,
        first_entered: now,
        satisfactory: satisfactory,
    }
}

/// The ledger: owns the record store and performs the four ledger
/// operations against it.
pub struct EventRecorder {
    pub store: Store,
}

impl View for EventRecorder {
    type V = StoreV;

    open spec fn view(&self) -> StoreV {
        self.store@
    }
}

/// Wraps a store in a ledger.
pub fn get_event_recorder(store: Store) -> (r: EventRecorder)
    ensures
        r@ == store@,
{
    EventRecorder::new(store)
}

impl EventRecorder {
    pub fn new(store: Store) -> (r: EventRecorder)
        ensures
            r@ == store@,
    {
        EventRecorder { store }
    }

    /// Records one participation event with timestamp `now`: resolves both
    /// names and appends one event row if both resolve, returning the count
    /// of rows written — 1 on success, 0 when either name matches nothing.
    pub fn record_at(
        &mut self,
        student_name: &str,
        category_name: &str,
        satisfactory: bool,
        now: i64,
    ) -> (n: u64)
        requires
            old(self)@.wf(),
            old(self)@.events.len() + 1 < 0x7fff_ffff,
        ensures
            final(self)@.wf(),
            final(self)@.students == old(self)@.students,
            final(self)@.categories == old(self)@.categories,
            final(self)@.summary == old(self)@.summary,
            final(self)@.summary_last_updated == old(self)@.summary_last_updated,
            resolvable(old(self)@, student_name@, category_name@) ==> n == 1 && final(self)@.events
                == old(self)@.events.push(
                recorded_event(old(self)@, student_name@, category_name@, satisfactory, now as int),
            ),
            !resolvable(old(self)@, student_name@, category_name@) ==> n == 0 && final(self)@.events
                == old(self)@.events,
    {
        let si = match find_student_by_name(&self.store.students, student_name) {
            Some(si) => si,
            None => {
                return 0;
            },
        };
        let ci = match find_category_by_name(&self.store.categories, category_name) {
            Some(ci) => ci,
            None => {
                return 0;
            },
        };
        proof {
            lemma_first_named_idx(self@.students, student_name@, si as int);
            lemma_first_cat_idx(self@.categories, category_name@, ci as int);
        }
        let ev = Event {
            db_id: self.store.events.len() as i32 + 1,
            student_id: self.store.students[si].db_id,
            category_id: self.store.categories[ci].db_id,
            first_entered: now,
            satisfactory,
        };
        self.store.events.push(ev);
        proof {
            assert(final(self)@.events =~= old(self)@.events.push(
                recorded_event(old(self)@, student_name@, category_name@, satisfactory, now as int),
            ));
        }
        1
    }

    /// Records one participation event stamped with the current wall-clock
    /// time; the count of rows written is 1 exactly when both names
    /// resolve, and a count of 0 signals a validation failure, not an
    /// error.
    pub fn record(&mut self, student_name: &str, category_name: &str, satisfactory: bool) -> (r:
        Result<u64, PersistenceError>)
        requires
            old(self)@.wf(),
            old(self)@.events.len() + 1 < 0x7fff_ffff,
        ensures
            final(self)@.wf(),
            final(self)@.students == old(self)@.students,
            final(self)@.categories == old(self)@.categories,
            final(self)@.summary == old(self)@.summary,
            final(self)@.summary_last_updated == old(self)@.summary_last_updated,
            resolvable(old(self)@, student_name@, category_name@) ==> r == Ok::<
                u64,
                PersistenceError,
            >(1) && exists|now: int|
                final(self)@.events == old(self)@.events.push(
                    #[trigger] recorded_event(
                        old(self)@,
                        student_name@,
                        category_name@,
                        satisfactory,
                        now,
                    ),
                ),
            !resolvable(old(self)@, student_name@, category_name@) ==> r == Ok::<
                u64,
                PersistenceError,
            >(0) && final(self)@.events == old(self)@.events,
    {
        let now = now_seconds();
        let n = self.record_at(student_name, category_name, satisfactory, now);
        Ok(n)
    }

    /// Applies a batch of corrections sequentially, in the given order:
    /// each `(satisfactory, id)` pair overwrites the flag of the event
    /// carrying internal id `id`; an id matching no event changes nothing.
    pub fn change_events(&mut self, changes: &Vec<(bool, i32)>) -> (r: Result<
        (),
        PersistenceError,
    >)
        requires
            old(self)@.wf(),
        ensures
            final(self)@.wf(),
            r is Ok,
            final(self)@.events == apply_changes(old(self)@.events, changes@),
            final(self)@.students == old(self)@.students,
            final(self)@.categories == old(self)@.categories,
            final(self)@.summary == old(self)@.summary,
            final(self)@.summary_last_updated == old(self)@.summary_last_updated,
    {
        let ghost orig: Seq<EventV> = self@.events;
        let mut k: usize = 0;
        while k < changes.len()
            invariant
                k <= changes@.len(),
                self@.events == apply_changes(orig, changes@.take(k as int)),
                self@.events.len() == orig.len(),
                forall|j: int|
                    0 <= j < orig.len() ==> (#[trigger] self@.events[j]).db_id == orig[j].db_id
                        && self@.events[j].student_id == orig[j].student_id
                        && self@.events[j].category_id == orig[j].category_id
                        && self@.events[j].first_entered == orig[j].first_entered,
                self@.students == old(self)@.students,
                self@.categories == old(self)@.categories,
                self@.summary == old(self)@.summary,
                self@.summary_last_updated == old(self)@.summary_last_updated,
            decreases changes@.len() - k,
        {
            proof {
                assert(changes@.take(k as int + 1).drop_last() =~= changes@.take(k as int));
                assert(changes@.take(k as int + 1).last() == changes@[k as int]);
            }
            let ghost before: Seq<EventV> = self@.events;
            let (sat, id) = changes[k];
            if id >= 1 && (id as usize) <= self.store.events.len() {
                let pos = (id as usize) - 1;
                let ev = &mut self.store.events[pos];
                ev.satisfactory = sat;
                proof {
                    assert(self@.events =~= apply_change(before, sat, id as int));
                }
            } else {
                proof {
                    assert(self@.events =~= apply_change(before, sat, id as int));
                }
            }
            k = k + 1;
        }
        proof {
            assert(changes@.take(changes@.len() as int) =~= changes@);
        }
        Ok(())
    }
}

/// One correction applied to the event table: the event carrying internal
/// id `id` gets its flag overwritten; an id matching no event changes
/// nothing.
pub open spec fn apply_change(events: Seq<EventV>, satisfactory: bool, id: int) -> Seq<EventV> {
    if 1 <= id <= events.len() {
        events.update(
            id - 1,
            EventV {
                db_id: events[id - 1].db_id,
                student_id: events[id - 1].student_id,
                category_id: events[id - 1].category_id,
                first_entered: events[id - 1].first_entered,
                satisfactory: satisfactory,
            },
        )
    } else {
        events
    }
}

/// A batch of corrections applied sequentially, in input order.
pub open spec fn apply_changes(events: Seq<EventV>, changes: Seq<(bool, i32)>) -> Seq<EventV>
    decreases changes.len(),
{
    if changes.len() == 0 {
        events
    } else {
        apply_change(
            apply_changes(events, changes.drop_last()),
            changes.last().0,
            changes.last().1 as int,
        )
    }
}

/// Correction idempotence: a correction is a pure overwrite, so changing
/// an event's flag and then changing it back to its original value
/// restores the event table exactly.
pub proof fn lemma_correction_roundtrip(events: Seq<EventV>, id: i32, flipped: bool)
    requires
        1 <= id <= events.len(),
    ensures
        apply_changes(
            apply_changes(events, seq![(flipped, id)]),
            seq![(events[id - 1].satisfactory, id)],
        ) == events,
{
    let orig = events[id - 1].satisfactory;
    let empty = Seq::<(bool, i32)>::empty();
    assert(apply_changes(events, empty) == events);
    let s1 = seq![(flipped, id)];
    assert(s1.len() == 1 && s1.last() == (flipped, id));
    assert(s1.drop_last() =~= empty);
    let once = apply_changes(events, s1);
    assert(once == apply_change(apply_changes(events, s1.drop_last()), flipped, id as int));
    assert(apply_changes(events, s1.drop_last()) == events);
    assert(once == apply_change(events, flipped, id as int));
    assert(apply_changes(once, empty) == once);
    let s2 = seq![(orig, id)];
    assert(s2.len() == 1 && s2.last() == (orig, id));
    assert(s2.drop_last() =~= empty);
    let twice = apply_changes(once, s2);
    assert(twice == apply_change(apply_changes(once, s2.drop_last()), orig, id as int));
    assert(apply_changes(once, s2.drop_last()) == once);
    assert(twice == apply_change(once, orig, id as int));
    assert(twice =~= events);
}

/// The number of satisfactory events of student `sid` with a timestamp
/// before `hi`.
pub open spec fn count_sat_before(events: Seq<EventV>, sid: int, hi: int) -> int
    decreases events.len(),
{
    if events.len() == 0 {
        0
    } else {
        count_sat_before(events.drop_last(), sid, hi) + if events.last().satisfactory
            && events.last().student_id == sid && events.last().first_entered < hi {
            1int
        } else {
            0int
        }
    }
}

/// The number of satisfactory events of student `sid` with a timestamp in
/// `[lo, hi)`.
pub open spec fn count_sat_in(events: Seq<EventV>, sid: int, lo: int, hi: int) -> int
    decreases events.len(),
{
    if events.len() == 0 {
        0
    } else {
        count_sat_in(events.drop_last(), sid, lo, hi) + if events.last().satisfactory
            && events.last().student_id == sid && lo <= events.last().first_entered
            && events.last().first_entered < hi {
            1int
        } else {
            0int
        }
    }
}

/// The number of satisfactory events of student `sid`, over all time.
pub open spec fn count_sat_total(events: Seq<EventV>, sid: int) -> int
    decreases events.len(),
{
    if events.len() == 0 {
        0
    } else {
        count_sat_total(events.drop_last(), sid) + if events.last().satisfactory
            && events.last().student_id == sid {
            1int
        } else {
            0int
        }
    }
}

/// Summary bucketing partitions: with boundaries `t1 <= t2 <= t3`, the
/// three bucket counts of a student sum to the student's count of
/// satisfactory events before `t3`, so each such event is counted in
/// exactly one bucket and an event at or after `t3` in none.
pub proof fn lemma_buckets_partition(events: Seq<EventV>, sid: int, t1: int, t2: int, t3: int)
    requires
        t1 <= t2 <= t3,
    ensures
        count_sat_before(events, sid, t1) + count_sat_in(events, sid, t1, t2) + count_sat_in(
            events,
            sid,
            t2,
            t3,
        ) == count_sat_before(events, sid, t3),
    decreases events.len(),
{
    if events.len() > 0 {
        lemma_buckets_partition(events.drop_last(), sid, t1, t2, t3);
    }
}

/// One row of the three-period summary for each enrolled student, in
/// student order: the username and the three bucket counts.
pub open spec fn summary_rows(
    students: Seq<StudentV>,
    events: Seq<EventV>,
    t1: int,
    t2: int,
    t3: int,
) -> Seq<SummaryRowV>
    decreases students.len(),
{
    if students.len() == 0 {
        Seq::empty()
    } else {
        let prefix = summary_rows(students.drop_last(), events, t1, t2, t3);
        let s = students.last();
        if s.status == Status::Enrolled {
            prefix.push(
                SummaryRowV {
                    username: s.username,
                    p1: count_sat_before(events, s.db_id, t1),
                    p2: count_sat_in(events, s.db_id, t1, t2),
                    p3: count_sat_in(events, s.db_id, t2, t3),
                },
            )
        } else {
            prefix
        }
    }
}

impl EventRecorder {
    /// The three-period summary: for every currently enrolled student, the
    /// counts of their satisfactory events with timestamps in `(-inf, t1)`,
    /// `[t1, t2)`, and `[t2, t3)`. Events at or after `t3` fall in no
    /// bucket: the third boundary closes the grading window.
    pub fn get_summary(&self, t1: i64, t2: i64, t3: i64) -> (r: Result<
        Vec<SummaryRow>,
        PersistenceError,
    >)
        requires
            self@.wf(),
        ensures
            r matches Ok(rows) && row_views(rows@) == summary_rows(
                self@.students,
                self@.events,
                t1 as int,
                t2 as int,
                t3 as int,
            ),
    {
        let ghost students: Seq<StudentV> = self@.students;
        let ghost events: Seq<EventV> = self@.events;
        let mut rows: Vec<SummaryRow> = Vec::new();
        let mut i: usize = 0;
        while i < self.store.students.len()
            invariant
                i <= students.len(),
                self@.wf(),
                students == self@.students,
                events == self@.events,
                row_views(rows@) == summary_rows(
                    students.take(i as int),
                    events,
                    t1 as int,
                    t2 as int,
                    t3 as int,
                ),
            decreases students.len() - i,
        {
            proof {
                assert(students.take(i as int + 1).drop_last() =~= students.take(i as int));
                assert(students.take(i as int + 1).last() == students[i as int]);
            }
            let ghost rows_before = rows@;
            let s = &self.store.students[i];
            if s.status == Status::Enrolled {
                let sid = s.db_id;
                let mut p1: i64 = 0;
                let mut p2: i64 = 0;
                let mut p3: i64 = 0;
                let mut j: usize = 0;
                while j < self.store.events.len()
                    invariant
                        j <= events.len(),
                        events == self@.events,
                        events.len() < 0x7fff_ffff,
                        sid as int == students[i as int].db_id,
                        0 <= i < students.len(),
                        students == self@.students,
                        0 <= p1 <= j,
                        0 <= p2 <= j,
                        0 <= p3 <= j,
                        p1 as int == count_sat_before(events.take(j as int), sid as int, t1 as int),
                        p2 as int == count_sat_in(
                            events.take(j as int),
                            sid as int,
                            t1 as int,
                            t2 as int,
                        ),
                        p3 as int == count_sat_in(
                            events.take(j as int),
                            sid as int,
                            t2 as int,
                            t3 as int,
                        ),
                    decreases events.len() - j,
                {
                    proof {
                        assert(events.take(j as int + 1).drop_last() =~= events.take(j as int));
                        assert(events.take(j as int + 1).last() == events[j as int]);
                    }
                    let e = &self.store.events[j];
                    if e.satisfactory && e.student_id == sid {
                        if e.first_entered < t1 {
                            p1 = p1 + 1;
                        }
                        if t1 <= e.first_entered && e.first_entered < t2 {
                            p2 = p2 + 1;
                        }
                        if t2 <= e.first_entered && e.first_entered < t3 {
                            p3 = p3 + 1;
                        }
                    }
                    j = j + 1;
                }
                proof {
                    assert(events.take(events.len() as int) =~= events);
                }
                let row = SummaryRow { username: s.username.clone(), p1, p2, p3 };
                rows.push(row);
                proof {
                    assert(row_views(rows@) =~= summary_rows(
                        students.take(i as int + 1),
                        events,
                        t1 as int,
                        t2 as int,
                        t3 as int,
                    ));
                }
            } else {
                proof {
                    assert(row_views(rows@) =~= summary_rows(
                        students.take(i as int + 1),
                        events,
                        t1 as int,
                        t2 as int,
                        t3 as int,
                    ));
                }
            }
            i = i + 1;
        }
        proof {
            assert(students.take(students.len() as int) =~= students);
        }
        Ok(rows)
    }
}

/// The rebuilt summary cache: one row per student, in student order, with
/// the student's all-time count of satisfactory events.
pub open spec fn rebuilt_summary(students: Seq<StudentV>, events: Seq<EventV>) -> Seq<
    SummaryEntryV,
> {
    Seq::new(
        students.len(),
        |i: int| SummaryEntryV { student_id: i + 1, points: count_sat_total(events, i + 1) },
    )
}

/// Rebuilds the summary cache wholesale at time `now`: every student's
/// cached points become their all-time count of satisfactory events — no
/// increments, a full overwrite — and the rebuild marker is stamped.
pub fn update_summary_at(store: &mut Store, now: i64)
    requires
        old(store)@.wf(),
    ensures
        final(store)@.wf(),
        final(store)@.summary == rebuilt_summary(old(store)@.students, old(store)@.events),
        final(store)@.summary_last_updated == now as int,
        final(store)@.students == old(store)@.students,
        final(store)@.categories == old(store)@.categories,
        final(store)@.events == old(store)@.events,
{
    let ghost students: Seq<StudentV> = store@.students;
    let ghost events: Seq<EventV> = store@.events;
    let mut summary: Vec<SummaryEntry> = Vec::new();
    let mut i: usize = 0;
    while i < store.students.len()
        invariant
            i <= students.len(),
            store@.wf(),
            students == store@.students,
            events == store@.events,
            summary@.len() == i,
            forall|k: int|
                0 <= k < i ==> (#[trigger] summary@[k])@ == (SummaryEntryV {
                    student_id: k + 1,
                    points: count_sat_total(events, k + 1),
                }),
            forall|k: int| 0 <= k < i ==> 0 <= (#[trigger] summary@[k])@.points < 0x7fff_ffff,
        decreases students.len() - i,
    {
        let sid = store.students[i].db_id;
        proof {
            assert(store@.students[i as int] == store.students@[i as int]@);
            assert(store@.students[i as int].db_id == i + 1);
            assert(sid as int == i + 1);
        }
        let mut points: i64 = 0;
        let mut j: usize = 0;
        while j < store.events.len()
            invariant
                j <= events.len(),
                events == store@.events,
                events.len() < 0x7fff_ffff,
                0 <= points <= j,
                sid as int == i + 1,
                points as int == count_sat_total(events.take(j as int), sid as int),
            decreases events.len() - j,
        {
            proof {
                assert(events.take(j as int + 1).drop_last() =~= events.take(j as int));
                assert(events.take(j as int + 1).last() == events[j as int]);
            }
            let e = &store.events[j];
            if e.satisfactory && e.student_id == sid {
                points = points + 1;
            }
            j = j + 1;
        }
        proof {
            assert(events.take(events.len() as int) =~= events);
        }
        summary.push(SummaryEntry { student_id: sid, points });
        i = i + 1;
    }
    store.summary = summary;
    store.summary_last_updated = now;
    proof {
        assert(store@.summary =~= rebuilt_summary(students, events));
    }
}

/// Rebuilds the summary cache stamped with the current wall-clock time.
/// Safe to repeat: the rebuild is a full overwrite, never an increment.
pub fn update_summary(store: &mut Store) -> (r: Result<(), PersistenceError>)
    requires
        old(store)@.wf(),
    ensures
        final(store)@.wf(),
        r is Ok,
        final(store)@.summary == rebuilt_summary(old(store)@.students, old(store)@.events),
        final(store)@.students == old(store)@.students,
        final(store)@.categories == old(store)@.categories,
        final(store)@.events == old(store)@.events,
{
    let now = now_seconds();
    update_summary_at(store, now);
    Ok(())
}

/// The order `retrieve_events` hands events back in: ascending by
/// timestamp, ties broken by internal id.
pub open spec fn ev_le(a: EventV, b: EventV) -> bool {
    a.first_entered < b.first_entered || (a.first_entered == b.first_entered && a.db_id <= b.db_id)
}

/// Whether an event sequence is sorted in retrieval order.
pub open spec fn sorted_events(evs: Seq<EventV>) -> bool {
    forall|i: int, j: int|
        #![trigger evs[i], evs[j]]
        0 <= i < j < evs.len() ==> ev_le(evs[i], evs[j])
}

/// Whether event `e` belongs to student `sid` and falls within the
/// calendar day `[day_start, day_start + 86400)`.
pub open spec fn day_event(e: EventV, sid: int, day_start: int) -> bool {
    e.student_id == sid && day_start <= e.first_entered < day_start + 86400
}

/// The events of student `sid` within the calendar day starting at
/// `day_start`, in table order.
pub open spec fn day_events(events: Seq<EventV>, sid: int, day_start: int) -> Seq<EventV> {
    events.filter(|e: EventV| day_event(e, sid, day_start))
}

/// What a retrieval selects: the named student's events of the day, or
/// nothing when no student carries the name.
pub open spec fn retrieved_events(s: StoreV, name: Seq<char>, day_start: int) -> Seq<EventV> {
    if has_student_named(s.students, name) {
        day_events(s.events, s.students[first_named_idx(s.students, name)].db_id, day_start)
    } else {
        Seq::empty()
    }
}

/// The row handed out for one selected event: the event's id, its
/// category's name, its timestamp, and its flag.
pub open spec fn present_event(s: StoreV, e: EventV) -> EventViewV {
    EventViewV {
        db_id: e.db_id,
        category_name: s.categories[e.category_id - 1].name,
        first_entered: e.first_entered,
        satisfactory: e.satisfactory,
    }
}

/// Retrieval order on concrete events.
fn ev_le_exec(a: &Event, b: &Event) -> (r: bool)
    ensures
        r == ev_le(a@, b@),
{
    a.first_entered < b.first_entered || (a.first_entered == b.first_entered && a.db_id <= b.db_id)
}

/// Sorts events into retrieval order by insertion, keeping exactly the
/// same collection of events.
fn sort_events(v: &mut Vec<Event>)
    ensures
        event_views(final(v)@).to_multiset() == event_views(old(v)@).to_multiset(),
        sorted_events(event_views(final(v)@)),
{
    broadcast use vstd::seq_lib::group_to_multiset_ensures;

    let ghost evs: Seq<EventV> = event_views(v@);
    let mut out: Vec<Event> = Vec::new();
    let mut i: usize = 0;
    while i < v.len()
        invariant
            i <= v@.len(),
            evs == event_views(v@),
            out@.len() == i,
            event_views(out@).to_multiset() == evs.take(i as int).to_multiset(),
            sorted_events(event_views(out@)),
        decreases v@.len() - i,
    {
        broadcast use vstd::seq_lib::group_to_multiset_ensures;

        let e = v[i];
        let mut j: usize = 0;
        while j < out.len() && ev_le_exec(&out[j], &e)
            invariant
                j <= out@.len(),
                forall|t: int| 0 <= t < j ==> ev_le(#[trigger] event_views(out@)[t], e@),
            decreases out@.len() - j,
        {
            j = j + 1;
        }
        let ghost out_before: Seq<EventV> = event_views(out@);
        out.insert(j, e);
        proof {
            assert(event_views(out@) =~= out_before.insert(j as int, e@));
            assert(event_views(out@).to_multiset() == out_before.to_multiset().insert(e@));
            assert(evs.take(i as int + 1) =~= evs.take(i as int).push(evs[i as int]));
            assert(evs[i as int] == e@);
            assert(evs.take(i as int).push(e@).to_multiset() == evs.take(
                i as int,
            ).to_multiset().insert(e@));
            assert(sorted_events(event_views(out@))) by {
                let n = event_views(out@);
                assert forall|a: int, b: int|
                    #![trigger n[a], n[b]]
                    0 <= a < b < n.len() implies ev_le(n[a], n[b]) by {
                    if b < j as int {
                        assert(ev_le(out_before[a], out_before[b]));
                    } else if a < j as int && b == j as int {
                        assert(ev_le(out_before[a], e@));
                    } else if a < j as int && b > j as int {
                        assert(ev_le(out_before[a], out_before[b - 1]));
                    } else if a == j as int {
                        assert(n[b] == out_before[b - 1]);
                        if j as int <= b - 1 && j < out_before.len() {
                            assert(ev_le(out_before[j as int], out_before[b - 1]) || j as int == b
                                - 1);
                        }
                        assert(!ev_le(out_before[j as int], e@) || j == out_before.len());
                        assert(ev_le(e@, out_before[b - 1]));
                    } else {
                        assert(ev_le(out_before[a - 1], out_before[b - 1]));
                    }
                }
            }
        }
        i = i + 1;
    }
    proof {
        assert(evs.take(v@.len() as int) =~= evs);
    }
    *v = out;
}

impl EventRecorder {
    /// All events of the named student whose timestamp falls within the
    /// calendar day `[day_start, day_start + 86400)`, ordered ascending by
    /// timestamp with ties broken by internal id; a name matching no
    /// student yields no events. Each row carries the event's id, its
    /// category's name, its timestamp, and its current flag.
    pub fn retrieve_events(&self, name: &str, day_start: i64) -> (r: Result<
        Vec<EventView>,
        PersistenceError,
    >)
        requires
            self@.wf(),
            day_start <= i64::MAX - 86400,
        ensures
            r matches Ok(rows) && exists|p: Seq<EventV>|
                {
                    &&& #[trigger] sorted_events(p)
                    &&& p.to_multiset() == retrieved_events(
                        self@,
                        name@,
                        day_start as int,
                    ).to_multiset()
                    &&& rows@.map_values(|row: EventView| row@) == p.map_values(
                        |e: EventV| present_event(self@, e),
                    )
                },
    {
        broadcast use vstd::seq_lib::group_to_multiset_ensures;

        let ghost events: Seq<EventV> = self@.events;
        let si = match find_student_by_name(&self.store.students, name) {
            Some(si) => si,
            None => {
                let rows: Vec<EventView> = Vec::new();
                proof {
                    let p = Seq::<EventV>::empty();
                    assert(sorted_events(p));
                    assert(p.to_multiset() =~= retrieved_events(
                        self@,
                        name@,
                        day_start as int,
                    ).to_multiset());
                    assert(rows@.map_values(|row: EventView| row@) =~= p.map_values(
                        |e: EventV| present_event(self@, e),
                    ));
                }
                return Ok(rows);
            },
        };
        proof {
            lemma_first_named_idx(self@.students, name@, si as int);
        }
        let sid = self.store.students[si].db_id;
        let hi = day_start + 86400;
        let mut picked: Vec<Event> = Vec::new();
        let mut j: usize = 0;
        while j < self.store.events.len()
            invariant
                j <= events.len(),
                events == self@.events,
                self@.wf(),
                sid as int == self@.students[si as int].db_id,
                0 <= si < self@.students.len(),
                hi == day_start + 86400,
                day_start <= i64::MAX - 86400,
                event_views(picked@) == day_events(
                    events.take(j as int),
                    sid as int,
                    day_start as int,
                ),
            decreases events.len() - j,
        {
            proof {
                reveal(Seq::filter);
                assert(events.take(j as int + 1).drop_last() =~= events.take(j as int));
                assert(events.take(j as int + 1).last() == events[j as int]);
            }
            let e = &self.store.events[j];
            if e.student_id == sid && day_start <= e.first_entered && e.first_entered < hi {
                picked.push(*e);
                proof {
                    assert(event_views(picked@) =~= day_events(
                        events.take(j as int + 1),
                        sid as int,
                        day_start as int,
                    ));
                }
            } else {
                proof {
                    assert(event_views(picked@) =~= day_events(
                        events.take(j as int + 1),
                        sid as int,
                        day_start as int,
                    ));
                }
            }
            j = j + 1;
        }
        proof {
            assert(events.take(events.len() as int) =~= events);
        }
        let ghost unsorted: Seq<EventV> = event_views(picked@);
        sort_events(&mut picked);
        let ghost sorted: Seq<EventV> = event_views(picked@);
        proof {
            assert forall|t: int| 0 <= t < sorted.len() implies 1 <= (#[trigger] sorted[t]).category_id
                <= self@.categories.len() by {
                assert(sorted.contains(sorted[t]));
                assert(sorted.to_multiset().count(sorted[t]) > 0);
                assert(unsorted.contains(sorted[t]));
                let w = choose|w: int| 0 <= w < unsorted.len() && unsorted[w] == sorted[t];
                broadcast use vstd::seq_lib::group_filter_ensures;

                assert(day_events(events, sid as int, day_start as int)[w] == unsorted[w]);
                let x = unsorted[w];
                assert(day_events(events, sid as int, day_start as int).contains(x));
                lemma_day_events_member(events, sid as int, day_start as int, x);
            }
        }
        let mut rows: Vec<EventView> = Vec::new();
        let mut t: usize = 0;
        while t < picked.len()
            invariant
                t <= picked@.len(),
                sorted == event_views(picked@),
                self@.wf(),
                forall|u: int|
                    0 <= u < sorted.len() ==> 1 <= (#[trigger] sorted[u]).category_id
                        <= self@.categories.len(),
                rows@.len() == t,
                forall|u: int|
                    0 <= u < t ==> (#[trigger] rows@[u])@ == present_event(self@, sorted[u]),
            decreases picked@.len() - t,
        {
            let e = &picked[t];
            proof {
                assert(sorted[t as int] == picked@[t as int]@);
                assert(1 <= sorted[t as int].category_id <= self@.categories.len());
            }
            let ci = (e.category_id - 1) as usize;
            let row = EventView {
                db_id: e.db_id,
                category_name: self.store.categories[ci].name.clone(),
                first_entered: e.first_entered,
                satisfactory: e.satisfactory,
            };
            rows.push(row);
            t = t + 1;
        }
        proof {
            assert(sorted_events(sorted));
            assert(sorted.to_multiset() == retrieved_events(
                self@,
                name@,
                day_start as int,
            ).to_multiset());
            assert(rows@.map_values(|row: EventView| row@) =~= sorted.map_values(
                |e: EventV| present_event(self@, e),
            ));
        }
        Ok(rows)
    }
}

/// The currently enrolled students, in table order.
pub open spec fn enrolled_students(students: Seq<StudentV>) -> Seq<StudentV>
    decreases students.len(),
{
    if students.len() == 0 {
        Seq::empty()
    } else {
        let prefix = enrolled_students(students.drop_last());
        if students.last().status == Status::Enrolled {
            prefix.push(students.last())
        } else {
            prefix
        }
    }
}

/// The students whose status is `Enrolled`, in table order; only these
/// take part in picking and in summaries.
pub fn get_students(store: &Store) -> (r: Result<Vec<Student>, PersistenceError>)
    ensures
        r matches Ok(v) && views_of(v@) == enrolled_students(store@.students),
{
    let ghost students: Seq<StudentV> = store@.students;
    let mut v: Vec<Student> = Vec::new();
    let mut i: usize = 0;
    while i < store.students.len()
        invariant
            i <= students.len(),
            students == store@.students,
            views_of(v@) == enrolled_students(students.take(i as int)),
        decreases students.len() - i,
    {
        proof {
            assert(students.take(i as int + 1).drop_last() =~= students.take(i as int));
            assert(students.take(i as int + 1).last() == students[i as int]);
        }
        let s = &store.students[i];
        if s.status == Status::Enrolled {
            v.push(s.clone());
            proof {
                assert(views_of(v@) =~= enrolled_students(students.take(i as int + 1)));
            }
        } else {
            proof {
                assert(views_of(v@) =~= enrolled_students(students.take(i as int + 1)));
            }
        }
        i = i + 1;
    }
    proof {
        assert(students.take(students.len() as int) =~= students);
    }
    Ok(v)
}

/// Every category of the store, in table order.
pub fn get_categories(store: &Store) -> (r: Result<Vec<Category>, PersistenceError>)
    ensures
        r matches Ok(v) && cat_views(v@) == store@.categories,
{
    let mut v: Vec<Category> = Vec::new();
    let mut i: usize = 0;
    while i < store.categories.len()
        invariant
            i <= store@.categories.len(),
            v@.len() == i,
            cat_views(v@) == store@.categories.take(i as int),
        decreases store@.categories.len() - i,
    {
        let c = store.categories[i].clone();
        proof {
            assert(c@ == store@.categories[i as int]);
        }
        v.push(c);
        proof {
            assert(cat_views(v@) =~= store@.categories.take(i as int + 1));
        }
        i = i + 1;
    }
    proof {
        assert(store@.categories.take(store@.categories.len() as int) =~= store@.categories);
    }
    Ok(v)
}

/// The larger of two values.
pub open spec fn max_int(a: int, b: int) -> int {
    if a >= b {
        a
    } else {
        b
    }
}

/// The largest first-period count over a set of summary rows, starting the
/// fold from the smallest representable value, so an empty set yields that
/// floor.
pub open spec fn p1_max(rows: Seq<SummaryRowV>) -> int
    decreases rows.len(),
{
    if rows.len() == 0 {
        i64::MIN as int
    } else {
        max_int(p1_max(rows.drop_last()), rows.last().p1)
    }
}

/// The largest second-period count over a set of summary rows.
pub open spec fn p2_max(rows: Seq<SummaryRowV>) -> int
    decreases rows.len(),
{
    if rows.len() == 0 {
        i64::MIN as int
    } else {
        max_int(p2_max(rows.drop_last()), rows.last().p2)
    }
}

/// The largest third-period count over a set of summary rows.
pub open spec fn p3_max(rows: Seq<SummaryRowV>) -> int
    decreases rows.len(),
{
    if rows.len() == 0 {
        i64::MIN as int
    } else {
        max_int(p3_max(rows.drop_last()), rows.last().p3)
    }
}

/// The views of a sequence of summary rows.
pub open spec fn row_views(rows: Seq<SummaryRow>) -> Seq<SummaryRowV> {
    rows.map_values(|r: SummaryRow| r@)
}

/// The maximum point count observed in each of the three periods across
/// all rows — the values a summary export embeds in its column headers.
pub fn period_maxes(rows: &Vec<SummaryRow>) -> (m: (i64, i64, i64))
    ensures
        m.0 as int == p1_max(row_views(rows@)),
        m.1 as int == p2_max(row_views(rows@)),
        m.2 as int == p3_max(row_views(rows@)),
{
    let ghost all: Seq<SummaryRowV> = row_views(rows@);
    let mut m1: i64 = i64::MIN;
    let mut m2: i64 = i64::MIN;
    let mut m3: i64 = i64::MIN;
    let mut i: usize = 0;
    while i < rows.len()
        invariant
            i <= all.len(),
            all == row_views(rows@),
            m1 as int == p1_max(all.take(i as int)),
            m2 as int == p2_max(all.take(i as int)),
            m3 as int == p3_max(all.take(i as int)),
        decreases all.len() - i,
    {
        proof {
            assert(all.take(i as int + 1).drop_last() =~= all.take(i as int));
            assert(all.take(i as int + 1).last() == all[i as int]);
        }
        let r = &rows[i];
        if r.p1 > m1 {
            m1 = r.p1;
        }
        if r.p2 > m2 {
            m2 = r.p2;
        }
        if r.p3 > m3 {
            m3 = r.p3;
        }
        i = i + 1;
    }
    proof {
        assert(all.take(all.len() as int) =~= all);
    }
    (m1, m2, m3)
}

/// A member of one day's selection is a member of the event table.
proof fn lemma_day_events_member(events: Seq<EventV>, sid: int, day_start: int, x: EventV)
    requires
        day_events(events, sid, day_start).contains(x),
    ensures
        events.contains(x),
    decreases events.len(),
{
    reveal(Seq::filter);
    if events.len() > 0 {
        if events.last() == x {
        } else {
            assert(day_events(events.drop_last(), sid, day_start).contains(x)) by {
                let sel = day_events(events, sid, day_start);
                let w = choose|w: int| 0 <= w < sel.len() && sel[w] == x;
                let prev = day_events(events.drop_last(), sid, day_start);
                if day_event(events.last(), sid, day_start) {
                    assert(sel == prev.push(events.last()));
                    assert(w < prev.len());
                    assert(prev[w] == x);
                } else {
                    assert(sel == prev);
                }
            }
            lemma_day_events_member(events.drop_last(), sid, day_start, x);
            let w2 = choose|w2: int|
                0 <= w2 < events.drop_last().len() && events.drop_last()[w2] == x;
            assert(events[w2] == x);
        }
    }
}

} // verus!
