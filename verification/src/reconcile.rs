//! The roster reconciler: maps an incoming roster snapshot onto the
//! persisted student records, writing a row only where something actually
//! differs, and dropping every persisted student the snapshot no longer
//! names. Reconciling an unchanged snapshot twice writes nothing on the
//! second pass.

use vstd::prelude::*;

use crate::model::PersistenceError;
use crate::model::Status;
use crate::model::Student;
use crate::model::StudentV;
use crate::roster::Roster;
use crate::roster::RosterEntryV;
use crate::store::dense_ids;
use crate::store::now_seconds;
use crate::store::unique_ubs;
use crate::store::views_of;
use crate::store::Store;
use crate::store::StoreV;

verus! {

/// Counts of rows written by one reconciliation pass.
#[derive(Clone, Copy, PartialEq, Eq, Structural, Debug)]
pub struct ReconcileStats {
    pub inserted: u64,
    pub updated: u64,
    pub dropped: u64,
}

/// Whether some student record carries external id `ub`.
pub open spec fn has_ub(students: Seq<StudentV>, ub: Seq<char>) -> bool {
    exists|i: int| 0 <= i < students.len() && (#[trigger] students[i]).ub_id == ub
}

/// The index of the student record carrying external id `ub`.
pub open spec fn idx_of_ub(students: Seq<StudentV>, ub: Seq<char>) -> int {
    choose|i: int| 0 <= i < students.len() && (#[trigger] students[i]).ub_id == ub
}

/// Whether the persisted student already agrees with roster entry `e`, in
/// which case the upsert skips the write and `last_updated` is untouched.
pub open spec fn entry_matches(s: StudentV, e: RosterEntryV) -> bool {
    s.name == e.name && s.username == e.username && s.status == Status::Enrolled
}

/// One upsert keyed by the entry's external id: an unseen id gets a fresh
/// row; an existing id gets name, username, and status written, and
/// `last_updated` bumped, only when one of them differs. Returns the new
/// student table and whether a row was inserted or updated.
pub open spec fn upsert_one(students: Seq<StudentV>, e: RosterEntryV, now: int) -> (Seq<
    StudentV,
>, bool, bool) {
    if has_ub(students, e.ub_id) {
        let i = idx_of_ub(students, e.ub_id);
        let s = students[i];
        if entry_matches(s, e) {
            (students, false, false)
        } else {
            (
                students.update(
                    i,
                    StudentV {
                        db_id: s.db_id,
                        ub_id: s.ub_id,
                        name: e.name,
                        username: e.username,
                        status: Status::Enrolled,
                        first_entered: s.first_entered,
                        last_updated: now,
                    },
                ),
                false,
                true,
            )
        }
    } else {
        (
            students.push(
                StudentV {
                    db_id: students.len() as int + 1,
                    ub_id: e.ub_id,
                    name: e.name,
                    username: e.username,
                    status: Status::Enrolled,
                    first_entered: now,
                    last_updated: now,
                },
            ),
            true,
            false,
        )
    }
}

/// All upserts of a snapshot, in input order, so that a later duplicate of
/// an external id overwrites an earlier one. Returns the student table and
/// the counts of inserted and updated rows.
pub open spec fn upsert_all(students: Seq<StudentV>, roster: Seq<RosterEntryV>, now: int) -> (Seq<
    StudentV,
>, int, int)
    decreases roster.len(),
{
    if roster.len() == 0 {
        (students, 0, 0)
    } else {
        let (s1, ins1, upd1) = upsert_all(students, roster.drop_last(), now);
        let (s2, ins2, upd2) = upsert_one(s1, roster.last(), now);
        (
            s2,
            ins1 + if ins2 {
                1int
            } else {
                0int
            },
            upd1 + if upd2 {
                1int
            } else {
                0int
            },
        )
    }
}

/// Whether external id `ub` appears anywhere in the snapshot.
pub open spec fn roster_has(roster: Seq<RosterEntryV>, ub: Seq<char>) -> bool {
    exists|j: int| 0 <= j < roster.len() && (#[trigger] roster[j]).ub_id == ub
}

/// The drop step for one persisted student: a student absent from the
/// snapshot and not already dropped is marked dropped with a bumped
/// `last_updated`; everyone else is left untouched.
pub open spec fn drop_one(s: StudentV, roster: Seq<RosterEntryV>, now: int) -> StudentV {
    if !roster_has(roster, s.ub_id) && s.status != Status::Dropped {
        StudentV {
            db_id: s.db_id,
            ub_id: s.ub_id,
            name: s.name,
            username: s.username,
            status: Status::Dropped,
            first_entered: s.first_entered,
            last_updated: now,
        }
    } else {
        s
    }
}

/// The drop phase applied to the whole student table.
pub open spec fn drop_missing(students: Seq<StudentV>, roster: Seq<RosterEntryV>, now: int) -> Seq<
    StudentV,
> {
    Seq::new(students.len(), |i: int| drop_one(students[i], roster, now))
}

/// The number of rows the drop phase writes.
pub open spec fn drop_count(students: Seq<StudentV>, roster: Seq<RosterEntryV>) -> int
    decreases students.len(),
{
    if students.len() == 0 {
        0
    } else {
        drop_count(students.drop_last(), roster) + if !roster_has(roster, students.last().ub_id)
            && students.last().status != Status::Dropped {
            1int
        } else {
            0int
        }
    }
}

/// The full reconciliation of a student table against a snapshot: upserts
/// in input order, then the drop phase.
pub open spec fn reconcile_students(
    students: Seq<StudentV>,
    roster: Seq<RosterEntryV>,
    now: int,
) -> Seq<StudentV> {
    drop_missing(upsert_all(students, roster, now).0, roster, now)
}

/// With unique external ids, `idx_of_ub` is the one index whose record
/// carries the id.
proof fn lemma_idx_of_ub(students: Seq<StudentV>, ub: Seq<char>, i: int)
    requires
        unique_ubs(students),
        0 <= i < students.len(),
        students[i].ub_id == ub,
    ensures
        has_ub(students, ub),
        idx_of_ub(students, ub) == i,
{
    assert(has_ub(students, ub));
    let j = idx_of_ub(students, ub);
    if i < j {
        assert(students[i].ub_id != students[j].ub_id);
    } else if j < i {
        assert(students[j].ub_id != students[i].ub_id);
    }
}

/// Shape of a full upsert pass: existing rows keep their position, id,
/// external id, and creation time; rows whose id the snapshot never names
/// are untouched; appended rows are for snapshot ids, with dense ids and
/// `now` as creation time; id density and uniqueness are preserved.
proof fn lemma_upsert_all_shape(students: Seq<StudentV>, roster: Seq<RosterEntryV>, now: int)
    requires
        unique_ubs(students),
        dense_ids(students),
    ensures
        ({
            let (s1, ins, upd) = upsert_all(students, roster, now);
            &&& s1.len() == students.len() + ins
            &&& 0 <= ins <= roster.len()
            &&& 0 <= upd <= roster.len()
            &&& unique_ubs(s1)
            &&& dense_ids(s1)
            &&& forall|i: int|
                0 <= i < students.len() ==> (#[trigger] s1[i]).ub_id == students[i].ub_id
                    && s1[i].db_id == students[i].db_id && s1[i].first_entered
                    == students[i].first_entered
            &&& forall|i: int|
                0 <= i < students.len() && !roster_has(roster, students[i].ub_id) ==> (
                #[trigger] s1[i]) == students[i]
            &&& forall|i: int|
                students.len() <= i < s1.len() ==> roster_has(roster, (#[trigger] s1[i]).ub_id)
                    && s1[i].first_entered == now
        }),
    decreases roster.len(),
{
    if roster.len() == 0 {
    } else {
        let prefix = roster.drop_last();
        let e = roster.last();
        lemma_upsert_all_shape(students, prefix, now);
        let (sm, insm, updm) = upsert_all(students, prefix, now);
        let (s1, ins2, upd2) = upsert_one(sm, e, now);
        assert(roster[roster.len() - 1] == e);
        assert(roster_has(roster, e.ub_id));
        assert forall|ub: Seq<char>| roster_has(prefix, ub) implies roster_has(roster, ub) by {
            let j = choose|j: int| 0 <= j < prefix.len() && (#[trigger] prefix[j]).ub_id == ub;
            assert(roster[j].ub_id == ub);
        }
        if has_ub(sm, e.ub_id) {
            let i = idx_of_ub(sm, e.ub_id);
            assert(0 <= i < sm.len() && sm[i].ub_id == e.ub_id);
            if entry_matches(sm[i], e) {
                assert forall|i2: int|
                    0 <= i2 < students.len() && !roster_has(roster, students[i2].ub_id) implies (
                #[trigger] s1[i2]) == students[i2] by {
                    assert(!roster_has(prefix, students[i2].ub_id));
                }
            } else {
                assert(s1 == sm.update(
                    i,
                    StudentV {
                        db_id: sm[i].db_id,
                        ub_id: sm[i].ub_id,
                        name: e.name,
                        username: e.username,
                        status: Status::Enrolled,
                        first_entered: sm[i].first_entered,
                        last_updated: now,
                    },
                ));
                assert(unique_ubs(s1)) by {
                    assert(forall|i2: int|
                        0 <= i2 < s1.len() ==> (#[trigger] s1[i2]).ub_id == sm[i2].ub_id);
                }
                assert forall|i2: int|
                    0 <= i2 < students.len() && !roster_has(roster, students[i2].ub_id) implies (
                #[trigger] s1[i2]) == students[i2] by {
                    assert(!roster_has(prefix, students[i2].ub_id));
                    assert(sm[i2] == students[i2]);
                    assert(students[i2].ub_id != e.ub_id);
                    assert(sm[i2].ub_id != sm[i].ub_id);
                    assert(i2 != i);
                }
            }
        } else {
            assert forall|i2: int|
                0 <= i2 < students.len() && !roster_has(roster, students[i2].ub_id) implies (
            #[trigger] s1[i2]) == students[i2] by {
                assert(!roster_has(prefix, students[i2].ub_id));
            }
            assert(unique_ubs(s1)) by {
                assert forall|i2: int, j2: int|
                    #![trigger s1[i2], s1[j2]]
                    0 <= i2 < j2 < s1.len() implies s1[i2].ub_id != s1[j2].ub_id by {
                    if j2 == s1.len() - 1 {
                        assert(s1[j2].ub_id == e.ub_id);
                        if s1[i2].ub_id == e.ub_id {
                            assert(sm[i2].ub_id == e.ub_id);
                            assert(has_ub(sm, e.ub_id));
                        }
                    }
                }
            }
        }
    }
}

/// All occurrences of one external id within a snapshot agree on name and
/// username. A snapshot whose duplicates disagree writes the same key twice
/// on every pass, so only consistent snapshots reconcile idempotently.
pub open spec fn consistent_roster(roster: Seq<RosterEntryV>) -> bool {
    forall|j1: int, j2: int|
        #![trigger roster[j1], roster[j2]]
        0 <= j1 < roster.len() && 0 <= j2 < roster.len() && roster[j1].ub_id == roster[j2].ub_id
            ==> roster[j1].name == roster[j2].name && roster[j1].username == roster[j2].username
}

/// Some student record carries entry `e`'s external id and already agrees
/// with `e`.
spec fn matched_in(students: Seq<StudentV>, e: RosterEntryV) -> bool {
    exists|i: int|
        0 <= i < students.len() && (#[trigger] students[i]).ub_id == e.ub_id && entry_matches(
            students[i],
            e,
        )
}

/// Every entry of the snapshot already agrees with some student record.
spec fn all_applied(students: Seq<StudentV>, roster: Seq<RosterEntryV>) -> bool {
    forall|j: int| 0 <= j < roster.len() ==> matched_in(students, #[trigger] roster[j])
}

/// An upsert pass whose every entry already agrees with a student record
/// writes nothing.
proof fn lemma_upsert_all_noop(students: Seq<StudentV>, roster: Seq<RosterEntryV>, now: int)
    requires
        unique_ubs(students),
        all_applied(students, roster),
    ensures
        upsert_all(students, roster, now).0 == students,
        upsert_all(students, roster, now).1 == 0,
        upsert_all(students, roster, now).2 == 0,
    decreases roster.len(),
{
    if roster.len() == 0 {
    } else {
        let prefix = roster.drop_last();
        let e = roster.last();
        assert(all_applied(students, prefix)) by {
            assert forall|j: int| 0 <= j < prefix.len() implies matched_in(
                students,
                #[trigger] prefix[j],
            ) by {
                assert(prefix[j] == roster[j]);
                assert(matched_in(students, roster[j]));
            }
        }
        lemma_upsert_all_noop(students, prefix, now);
        assert(roster[roster.len() - 1] == e);
        assert(matched_in(students, e));
        let i = choose|i: int|
            0 <= i < students.len() && (#[trigger] students[i]).ub_id == e.ub_id && entry_matches(
                students[i],
                e,
            );
        lemma_idx_of_ub(students, e.ub_id, i);
        assert(upsert_one(students, e, now) == (students, false, false));
    }
}

/// After an upsert pass over a consistent snapshot, every entry agrees with
/// some student record.
proof fn lemma_upsert_all_applied(students: Seq<StudentV>, roster: Seq<RosterEntryV>, now: int)
    requires
        unique_ubs(students),
        dense_ids(students),
        consistent_roster(roster),
    ensures
        all_applied(upsert_all(students, roster, now).0, roster),
    decreases roster.len(),
{
    if roster.len() == 0 {
    } else {
        let prefix = roster.drop_last();
        let e = roster.last();
        assert(consistent_roster(prefix)) by {
            assert forall|j1: int, j2: int|
                #![trigger prefix[j1], prefix[j2]]
                0 <= j1 < prefix.len() && 0 <= j2 < prefix.len() && prefix[j1].ub_id
                    == prefix[j2].ub_id implies prefix[j1].name == prefix[j2].name
                && prefix[j1].username == prefix[j2].username by {
                assert(prefix[j1] == roster[j1]);
                assert(prefix[j2] == roster[j2]);
            }
        }
        lemma_upsert_all_applied(students, prefix, now);
        lemma_upsert_all_shape(students, prefix, now);
        let sm = upsert_all(students, prefix, now).0;
        let s1 = upsert_one(sm, e, now).0;
        assert(roster[roster.len() - 1] == e);

        // Entry `e` itself agrees with a record of `s1`.
        if has_ub(sm, e.ub_id) {
            let i = idx_of_ub(sm, e.ub_id);
            assert(s1[i].ub_id == e.ub_id && entry_matches(s1[i], e));
            assert(matched_in(s1, e));
        } else {
            assert(s1[sm.len() as int].ub_id == e.ub_id && entry_matches(s1[sm.len() as int], e));
            assert(matched_in(s1, e));
        }

        // Earlier entries keep their agreeing record.
        assert forall|j: int| 0 <= j < roster.len() implies matched_in(s1, #[trigger] roster[j]) by {
            if j == roster.len() - 1 {
                assert(matched_in(s1, e));
            } else {
                assert(prefix[j] == roster[j]);
                assert(matched_in(sm, roster[j]));
                let i = choose|i: int|
                    0 <= i < sm.len() && (#[trigger] sm[i]).ub_id == roster[j].ub_id
                        && entry_matches(sm[i], roster[j]);
                if roster[j].ub_id == e.ub_id {
                    assert(roster[j].name == e.name && roster[j].username == e.username);
                    let w = choose|w: int|
                        0 <= w < s1.len() && (#[trigger] s1[w]).ub_id == e.ub_id && entry_matches(
                            s1[w],
                            e,
                        );
                    assert(s1[w].ub_id == roster[j].ub_id && entry_matches(s1[w], roster[j]));
                } else {
                    if has_ub(sm, e.ub_id) {
                        let iu = idx_of_ub(sm, e.ub_id);
                        assert(sm[iu].ub_id == e.ub_id);
                        assert(i != iu);
                        assert(s1[i] == sm[i]);
                    } else {
                        assert(s1[i] == sm[i]);
                    }
                    assert(matched_in(s1, roster[j]));
                }
            }
        }
    }
}

/// A drop phase in which every student is either still on the snapshot or
/// already dropped writes nothing.
proof fn lemma_drop_missing_noop(students: Seq<StudentV>, roster: Seq<RosterEntryV>, now: int)
    requires
        forall|i: int|
            0 <= i < students.len() ==> roster_has(roster, (#[trigger] students[i]).ub_id)
                || students[i].status == Status::Dropped,
    ensures
        drop_missing(students, roster, now) == students,
        drop_count(students, roster) == 0,
    decreases students.len(),
{
    assert(drop_missing(students, roster, now) =~= students);
    if students.len() > 0 {
        lemma_drop_missing_noop(students.drop_last(), roster, now);
        assert(students[students.len() - 1] == students.last());
    }
}

/// Idempotence of reconciliation: against an unchanged store, a second
/// pass over the same snapshot (whose duplicate entries, if any, agree
/// with each other) inserts nothing, updates nothing, drops nothing, and
/// leaves the student table exactly as the first pass left it, whatever
/// the two passes' timestamps.
pub proof fn lemma_synchronize_idempotent(
    students: Seq<StudentV>,
    roster: Seq<RosterEntryV>,
    now1: int,
    now2: int,
)
    requires
        unique_ubs(students),
        dense_ids(students),
        consistent_roster(roster),
    ensures
        ({
            let s1 = reconcile_students(students, roster, now1);
            &&& reconcile_students(s1, roster, now2) == s1
            &&& upsert_all(s1, roster, now2).1 == 0
            &&& upsert_all(s1, roster, now2).2 == 0
            &&& drop_count(upsert_all(s1, roster, now2).0, roster) == 0
        }),
{
    let m = upsert_all(students, roster, now1).0;
    lemma_upsert_all_shape(students, roster, now1);
    lemma_upsert_all_applied(students, roster, now1);
    let s1 = drop_missing(m, roster, now1);
    assert(s1.len() == m.len());
    assert(forall|i: int|
        0 <= i < s1.len() ==> (#[trigger] s1[i]) == drop_one(m[i], roster, now1));
    assert(unique_ubs(s1)) by {
        assert(forall|i: int| 0 <= i < s1.len() ==> (#[trigger] s1[i]).ub_id == m[i].ub_id);
    }
    assert(all_applied(s1, roster)) by {
        assert forall|j: int| 0 <= j < roster.len() implies matched_in(s1, #[trigger] roster[j]) by {
            let i = choose|i: int|
                0 <= i < m.len() && (#[trigger] m[i]).ub_id == roster[j].ub_id && entry_matches(
                    m[i],
                    roster[j],
                );
            assert(roster_has(roster, m[i].ub_id));
            assert(s1[i] == m[i]);
        }
    }
    lemma_upsert_all_noop(s1, roster, now2);
    assert(forall|i: int|
        0 <= i < s1.len() ==> roster_has(roster, (#[trigger] s1[i]).ub_id) || s1[i].status
            == Status::Dropped) by {
        assert(forall|i: int| 0 <= i < s1.len() ==> (#[trigger] s1[i]) == drop_one(m[i], roster, now1));
    }
    lemma_drop_missing_noop(s1, roster, now2);
}

/// Finds the position of the student record carrying external id `ub`.
fn find_by_ub(students: &Vec<Student>, ub: &String) -> (r: Option<usize>)
    ensures
        match r {
            Some(i) => 0 <= i < students@.len() && views_of(students@)[i as int].ub_id == ub@,
            None => !has_ub(views_of(students@), ub@),
        },
{
    let mut i: usize = 0;
    while i < students.len()
        invariant
            i <= students@.len(),
            forall|j: int| 0 <= j < i ==> (#[trigger] views_of(students@)[j]).ub_id != ub@,
        decreases students@.len() - i,
    {
        if students[i].ub_id == *ub {
            return Some(i);
        }
        i = i + 1;
    }
    proof {
        if has_ub(views_of(students@), ub@) {
            let w = choose|w: int|
                0 <= w < views_of(students@).len() && (#[trigger] views_of(students@)[w]).ub_id
                    == ub@;
            assert(views_of(students@)[w].ub_id != ub@);
        }
    }
    None
}

/// Whether the snapshot carries external id `ub` in any complete entry.
fn roster_contains(roster: &Roster, ub: &String) -> (r: bool)
    ensures
        r == roster_has(roster@, ub@),
{
    let mut n = roster.ub_ids.len();
    if roster.names.len() < n {
        n = roster.names.len();
    }
    if roster.usernames.len() < n {
        n = roster.usernames.len();
    }
    let mut j: usize = 0;
    while j < n
        invariant
            j <= n,
            n as int == roster@.len(),
            forall|t: int| 0 <= t < j ==> (#[trigger] roster@[t]).ub_id != ub@,
        decreases n - j,
    {
        if roster.ub_ids[j] == *ub {
            proof {
                assert(roster@[j as int].ub_id == ub@);
            }
            return true;
        }
        j = j + 1;
    }
    proof {
        if roster_has(roster@, ub@) {
            let w = choose|w: int|
                0 <= w < roster@.len() && (#[trigger] roster@[w]).ub_id == ub@;
            assert(roster@[w].ub_id != ub@);
        }
    }
    false
}

/// One reconciliation pass at time `now`: upserts every complete roster
/// entry in input order, then drops every persisted student the snapshot no
/// longer names. Returns the counts of rows written; a row already in
/// agreement is skipped and its `last_updated` left untouched.
pub fn synchronize_at(store: &mut Store, roster: &Roster, now: i64) -> (stats: ReconcileStats)
    requires
        old(store)@.wf(),
        old(store)@.students.len() + roster@.len() < 0x7fff_ffff,
    ensures
        final(store)@.wf(),
        final(store)@.students == reconcile_students(old(store)@.students, roster@, now as int),
        stats.inserted as int == upsert_all(old(store)@.students, roster@, now as int).1,
        stats.updated as int == upsert_all(old(store)@.students, roster@, now as int).2,
        stats.dropped as int == drop_count(
            upsert_all(old(store)@.students, roster@, now as int).0,
            roster@,
        ),
        final(store)@.categories == old(store)@.categories,
        final(store)@.events == old(store)@.events,
        final(store)@.summary == old(store)@.summary,
        final(store)@.summary_last_updated == old(store)@.summary_last_updated,
{
    let ghost orig: Seq<StudentV> = store@.students;
    let ghost r: Seq<RosterEntryV> = roster@;

    let mut n = roster.ub_ids.len();
    if roster.names.len() < n {
        n = roster.names.len();
    }
    if roster.usernames.len() < n {
        n = roster.usernames.len();
    }
    let mut inserted: u64 = 0;
    let mut updated: u64 = 0;
    let mut k: usize = 0;
    while k < n
        invariant
            k <= n,
            n as int == r.len(),
            r == roster@,
            orig == old(store)@.students,
            unique_ubs(orig),
            dense_ids(orig),
            orig.len() + r.len() < 0x7fff_ffff,
            store@.students == upsert_all(orig, r.take(k as int), now as int).0,
            inserted as int == upsert_all(orig, r.take(k as int), now as int).1,
            updated as int == upsert_all(orig, r.take(k as int), now as int).2,
            store@.categories == old(store)@.categories,
            store@.events == old(store)@.events,
            store@.summary == old(store)@.summary,
            store@.summary_last_updated == old(store)@.summary_last_updated,
        decreases n - k,
    {
        let ghost cur: Seq<StudentV> = store@.students;
        let ghost e: RosterEntryV = r[k as int];
        proof {
            lemma_upsert_all_shape(orig, r.take(k as int), now as int);
            assert(r.take(k as int + 1).drop_last() =~= r.take(k as int));
            assert(r.take(k as int + 1).last() == r[k as int]);
            assert(e.ub_id == roster.ub_ids@[k as int]@);
            assert(e.name == roster.names@[k as int]@);
            assert(e.username == roster.usernames@[k as int]@);
        }
        match find_by_ub(&store.students, &roster.ub_ids[k]) {
            Some(i) => {
                proof {
                    lemma_idx_of_ub(cur, e.ub_id, i as int);
                }
                let matches_entry = store.students[i].name == roster.names[k]
                    && store.students[i].username == roster.usernames[k]
                    && store.students[i].status == Status::Enrolled;
                if matches_entry {
                    proof {
                        assert(entry_matches(cur[i as int], e));
                        assert(upsert_one(cur, e, now as int) == (cur, false, false));
                    }
                } else {
                    let new_name = roster.names[k].clone();
                    let new_username = roster.usernames[k].clone();
                    let st = &mut store.students[i];
                    st.name = new_name;
                    st.username = new_username;
                    st.status = Status::Enrolled;
                    st.last_updated = now;
                    updated = updated + 1;
                    proof {
                        assert(!entry_matches(cur[i as int], e));
                        assert(store@.students =~= upsert_one(cur, e, now as int).0);
                    }
                }
            },
            None => {
                proof {
                    assert(cur.len() == orig.len() + upsert_all(
                        orig,
                        r.take(k as int),
                        now as int,
                    ).1);
                    assert(cur.len() < 0x7fff_ffff);
                }
                let id = store.students.len() as i32 + 1;
                let new_student = Student::new(
                    id,
                    roster.ub_ids[k].clone(),
                    roster.names[k].clone(),
                    roster.usernames[k].clone(),
                    Status::Enrolled,
                    now,
                    now,
                );
                store.students.push(new_student);
                inserted = inserted + 1;
                proof {
                    assert(store@.students =~= upsert_one(cur, e, now as int).0);
                }
            },
        }
        k = k + 1;
    }
    proof {
        assert(r.take(n as int) =~= r);
    }
    let ghost mid: Seq<StudentV> = store@.students;
    proof {
        lemma_upsert_all_shape(orig, r, now as int);
    }
    let mut dropped: u64 = 0;
    let mut i: usize = 0;
    let len = store.students.len();
    while i < len
        invariant
            i <= len,
            len as int == mid.len(),
            mid.len() == store@.students.len(),
            mid.len() < 0x7fff_ffff,
            r == roster@,
            dropped <= i,
            forall|j: int|
                0 <= j < i ==> (#[trigger] store@.students[j]) == drop_one(mid[j], r, now as int),
            forall|j: int| i <= j < mid.len() ==> (#[trigger] store@.students[j]) == mid[j],
            dropped as int == drop_count(mid.take(i as int), r),
            store@.categories == old(store)@.categories,
            store@.events == old(store)@.events,
            store@.summary == old(store)@.summary,
            store@.summary_last_updated == old(store)@.summary_last_updated,
        decreases len - i,
    {
        let ghost before: Seq<StudentV> = store@.students;
        proof {
            assert(mid.take(i as int + 1).drop_last() =~= mid.take(i as int));
            assert(mid.take(i as int + 1).last() == mid[i as int]);
            assert(before[i as int] == mid[i as int]);
        }
        let present = roster_contains(roster, &store.students[i].ub_id);
        let already_dropped = store.students[i].status == Status::Dropped;
        if !present && !already_dropped {
            let st = &mut store.students[i];
            st.status = Status::Dropped;
            st.last_updated = now;
            dropped = dropped + 1;
            proof {
                assert forall|j: int| 0 <= j < mid.len() && j != i as int implies (
                #[trigger] store@.students[j]) == before[j] by {
                    assert(store@.students[j] == views_of(store.students@)[j]);
                }
                assert(store@.students[i as int] == drop_one(mid[i as int], r, now as int));
            }
        } else {
            proof {
                assert(store@.students == before);
                assert(store@.students[i as int] == drop_one(mid[i as int], r, now as int));
            }
        }
        i = i + 1;
    }
    proof {
        assert(mid.take(len as int) =~= mid);
        assert(store@.students =~= drop_missing(mid, r, now as int));
        assert(store@.students_wf()) by {
            assert(forall|j: int|
                0 <= j < store@.students.len() ==> (#[trigger] store@.students[j]) == drop_one(
                    mid[j],
                    r,
                    now as int,
                ));
            assert(forall|j: int|
                0 <= j < store@.students.len() ==> (#[trigger] store@.students[j]).db_id
                    == mid[j].db_id && store@.students[j].ub_id == mid[j].ub_id);
        }
    }
    ReconcileStats { inserted, updated, dropped }
}

/// One reconciliation pass stamped with the current wall-clock time. The
/// in-memory pass is total, so the result is always a success; a gateway
/// that mirrors the pass into a durable backend reports its first failure
/// instead and leaves the remaining writes unapplied.
pub fn synchronize(store: &mut Store, roster: &Roster) -> (r: Result<
    ReconcileStats,
    PersistenceError,
>)
    requires
        old(store)@.wf(),
        old(store)@.students.len() + roster@.len() < 0x7fff_ffff,
    ensures
        final(store)@.wf(),
        r matches Ok(stats) && exists|now: int|
            {
                &&& #[trigger] reconcile_students(old(store)@.students, roster@, now)
                    == final(store)@.students
                &&& stats.inserted as int == upsert_all(old(store)@.students, roster@, now).1
                &&& stats.updated as int == upsert_all(old(store)@.students, roster@, now).2
                &&& stats.dropped as int == drop_count(
                    upsert_all(old(store)@.students, roster@, now).0,
                    roster@,
                )
            },
        final(store)@.categories == old(store)@.categories,
        final(store)@.events == old(store)@.events,
        final(store)@.summary == old(store)@.summary,
        final(store)@.summary_last_updated == old(store)@.summary_last_updated,
{
    let now = now_seconds();
    let stats = synchronize_at(store, roster, now);
    Ok(stats)
}

} // verus!
