//! Roster snapshots: the ordered sequence of externally supplied roster
//! entries that a reconciliation pass consumes, and the assembly of a
//! snapshot from already-decoded tabular records.

use vstd::prelude::*;
use vstd::string::StringExecFns;

verus! {

/// Mathematical view of one roster line: the roster-assigned external id,
/// the display name, and the username.
pub struct RosterEntryV {
    pub ub_id: Seq<char>,
    pub name: Seq<char>,
    pub username: Seq<char>,
}

/// An externally supplied roster snapshot, stored column-wise: entry `i`
/// is `(ub_ids[i], names[i], usernames[i])`. Positions past the shortest
/// column are ignored.
pub struct Roster {
    pub ub_ids: Vec<String>,
    pub names: Vec<String>,
    pub usernames: Vec<String>,
}

impl Roster {
    /// The number of complete entries: the length of the shortest column.
    pub open spec fn entry_count(&self) -> int {
        let a = self.ub_ids@.len() as int;
        let b = self.names@.len() as int;
        let c = self.usernames@.len() as int;
        if a <= b && a <= c {
            a
        } else if b <= c {
            b
        } else {
            c
        }
    }
}

impl View for Roster {
    type V = Seq<RosterEntryV>;

    open spec fn view(&self) -> Seq<RosterEntryV> {
        Seq::new(
            self.entry_count() as nat,
            |i: int|
                RosterEntryV {
                    ub_id: self.ub_ids@[i]@,
                    name: self.names@[i]@,
                    username: self.usernames@[i]@,
                },
        )
    }
}

impl Roster {
    pub fn new(ub_ids: Vec<String>, names: Vec<String>, usernames: Vec<String>) -> (r: Roster)
        ensures
            r.ub_ids == ub_ids,
            r.names == names,
            r.usernames == usernames,
    {
        Roster { ub_ids, names, usernames }
    }

    /// A cursor over the complete entries of this roster, starting at the
    /// first one.
    pub fn iter(&self) -> (it: RosterIterator)
        ensures
            it.inner == self,
            it.pos == 0,
    {
        RosterIterator { inner: self, pos: 0 }
    }
}

/// A cursor over the complete entries of a roster; `next` hands the entries
/// out in order and stops at the end of the shortest column.
pub struct RosterIterator<'a> {
    pub inner: &'a Roster,
    pub pos: usize,
}

impl<'a> RosterIterator<'a> {
    /// The next complete roster entry as an `(external id, name, username)`
    /// triple, or `None` once the entries are exhausted.
    pub fn next(&mut self) -> (r: Option<(String, String, String)>)
        ensures
            final(self).inner == old(self).inner,
            old(self).pos < old(self).inner@.len() ==> {
                &&& final(self).pos == old(self).pos + 1
                &&& r == Some(
                    (
                        old(self).inner.ub_ids@[old(self).pos as int],
                        old(self).inner.names@[old(self).pos as int],
                        old(self).inner.usernames@[old(self).pos as int],
                    ),
                )
            },
            old(self).pos >= old(self).inner@.len() ==> {
                &&& final(self).pos == old(self).pos
                &&& r is None
            },
    {
        if self.pos >= self.inner.ub_ids.len() || self.pos >= self.inner.names.len()
            || self.pos >= self.inner.usernames.len() {
            None
        } else {
            let cur = self.pos;
            self.pos = cur + 1;
            Some(
                (
                    self.inner.ub_ids[cur].clone(),
                    self.inner.names[cur].clone(),
                    self.inner.usernames[cur].clone(),
                ),
            )
        }
    }
}

/// The roster entries carried by a sequence of already-decoded tabular
/// records: a record with at least four fields contributes one entry, with
/// the external id in field 3, the name assembled as "first last" from
/// fields 1 and 0, and the username in field 2; shorter records are
/// skipped.
pub open spec fn roster_of_records(rs: Seq<Seq<Seq<char>>>) -> Seq<RosterEntryV>
    decreases rs.len(),
{
    if rs.len() == 0 {
        Seq::empty()
    } else {
        let prefix = roster_of_records(rs.drop_last());
        let rec = rs.last();
        if rec.len() >= 4 {
            prefix.push(
                RosterEntryV { ub_id: rec[3], name: rec[1] + " "@ + rec[0], username: rec[2] },
            )
        } else {
            prefix
        }
    }
}

/// Assembles a roster snapshot from decoded tab-separated records: last
/// name, first name, username, external id, further fields ignored; records
/// missing any of the four fields are skipped.
pub fn roster_from_records(records: &Vec<Vec<String>>) -> (r: Roster)
    ensures
        r@ == roster_of_records(records.deep_view()),
{
    let ghost all: Seq<Seq<Seq<char>>> = records.deep_view();
    let mut ub_ids: Vec<String> = Vec::new();
    let mut names: Vec<String> = Vec::new();
    let mut usernames: Vec<String> = Vec::new();
    let mut i: usize = 0;
    while i < records.len()
        invariant
            i <= records.len(),
            all == records.deep_view(),
            all.len() == records.len(),
            ub_ids@.len() == names@.len(),
            ub_ids@.len() == usernames@.len(),
            ({
                let m = roster_of_records(all.take(i as int));
                &&& m.len() == ub_ids@.len()
                &&& forall|j: int|
                    0 <= j < m.len() ==> (#[trigger] m[j]) == (RosterEntryV {
                        ub_id: ub_ids@[j]@,
                        name: names@[j]@,
                        username: usernames@[j]@,
                    })
            }),
        decreases records.len() - i,
    {
        proof {
            assert(all.take(i + 1).drop_last() =~= all.take(i as int));
            assert(all.take(i + 1).last() == all[i as int]);
            assert(records.deep_view()[i as int] == records@[i as int].deep_view());
            assert(records@[i as int].deep_view().len() == records@[i as int]@.len());
        }
        let rec = &records[i];
        if rec.len() >= 4 {
            proof {
                assert(records@[i as int].deep_view()[3] == records@[i as int]@[3]@);
                assert(records@[i as int].deep_view()[1] == records@[i as int]@[1]@);
                assert(records@[i as int].deep_view()[0] == records@[i as int]@[0]@);
                assert(records@[i as int].deep_view()[2] == records@[i as int]@[2]@);
            }
            let mut name = rec[1].clone();
            name.append(" ");
            name.append(rec[0].as_str());
            ub_ids.push(rec[3].clone());
            names.push(name);
            usernames.push(rec[2].clone());
        }
        i = i + 1;
    }
    let r = Roster { ub_ids, names, usernames };
    proof {
        assert(all.take(records.len() as int) =~= all);
        assert(r@ =~= roster_of_records(all));
    }
    r
}

} // verus!
