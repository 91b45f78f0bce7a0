//! The fair picker: an unbounded rotation over a pool of students. Each
//! shuffle pass hands out every student of the pool exactly once, in a
//! freshly shuffled order, before the bag is reshuffled for the next pass.
//! The random generator is owned by the picker and injected at
//! construction.

use vstd::prelude::*;

use crate::model::EmptyPoolError;
use crate::model::Student;
use crate::model::StudentV;
use crate::store::views_of;

verus! {

/// Declares rand's `StdRng` so picker fields and wrappers can carry the
/// generator; its state stays opaque to the verifier.
#[verifier::external_type_specification]
#[verifier::external_body]
pub struct ExStdRng(rand::rngs::StdRng);

/// A random generator freshly seeded from operating-system entropy. Relies
/// on rand's `SeedableRng::from_entropy`; nothing is promised of the state.
#[verifier::external_body]
pub(crate) fn fresh_rng() -> rand::rngs::StdRng {
    <rand::rngs::StdRng as rand::SeedableRng>::from_entropy()
}

/// An in-place shuffle. Relies on rand's `SliceRandom::shuffle`, a
/// Fisher-Yates pass that only swaps elements in place, so the result holds
/// exactly the elements of the input, in some order; nothing is promised of
/// that order.
#[verifier::external_body]
fn shuffle_indices(v: &mut Vec<usize>, rng: &mut rand::rngs::StdRng)
    ensures
        final(v)@.len() == old(v)@.len(),
        final(v)@.to_multiset() == old(v)@.to_multiset(),
{
    rand::seq::SliceRandom::shuffle(v.as_mut_slice(), rng);
}

/// The identity index sequence `0, 1, ..., n - 1`.
pub open spec fn ident_indices(n: int) -> Seq<usize> {
    Seq::new(n as nat, |i: int| i as usize)
}

/// Whether `bag` holds each of the indices `0, ..., n - 1` exactly once.
pub open spec fn is_perm_of(bag: Seq<usize>, n: int) -> bool {
    &&& bag.len() == n
    &&& bag.to_multiset() == ident_indices(n).to_multiset()
}

/// Every entry of a permutation bag is in bounds.
proof fn lemma_perm_bounds(bag: Seq<usize>, n: int)
    requires
        is_perm_of(bag, n),
    ensures
        forall|i: int| 0 <= i < bag.len() ==> (#[trigger] bag[i]) < n,
{
    broadcast use vstd::seq_lib::group_to_multiset_ensures;

    assert forall|i: int| 0 <= i < bag.len() implies (#[trigger] bag[i]) < n by {
        assert(bag.contains(bag[i]));
        assert(bag.to_multiset().count(bag[i]) > 0);
        assert(ident_indices(n).contains(bag[i]));
        let j = choose|j: int| 0 <= j < n && (#[trigger] ident_indices(n)[j]) == bag[i];
        assert(ident_indices(n)[j] == j as usize);
    }
}

/// Mathematical view of a `StudentPicker`.
pub struct PickerV {
    pub students: Seq<StudentV>,
    pub bag: Seq<usize>,
    pub cursor: int,
}

/// A stateful, non-restartable rotation over a non-empty pool of students:
/// a shuffled bag of indices and a cursor. Exhausting the bag reshuffles
/// it, so across a pass boundary the last student of one pass may coincide
/// with the first of the next.
pub struct StudentPicker {
    students: Vec<Student>,
    rng: rand::rngs::StdRng,
    shuffled_indices: Vec<usize>,
    cur_ind: usize,
}

impl View for StudentPicker {
    type V = PickerV;

    closed spec fn view(&self) -> PickerV {
        PickerV {
            students: views_of(self.students@),
            bag: self.shuffled_indices@,
            cursor: self.cur_ind as int,
        }
    }
}

impl StudentPicker {
    /// The picker's invariant: a non-empty pool, a bag that permutes the
    /// pool's indices, and a cursor within the bag.
    pub open spec fn wf(&self) -> bool {
        &&& self@.students.len() > 0
        &&& is_perm_of(self@.bag, self@.students.len() as int)
        &&& 0 <= self@.cursor <= self@.bag.len()
    }

    /// Constructs a picker over `students` with generator `rng`; an empty
    /// pool is rejected with `EmptyPoolError`.
    pub fn new(students: Vec<Student>, rng: rand::rngs::StdRng) -> (r: Result<
        StudentPicker,
        EmptyPoolError,
    >)
        ensures
            r is Err <==> students@.len() == 0,
            r matches Ok(p) ==> p.wf() && p@.students == views_of(students@) && p@.cursor == 0,
    {
        if students.len() == 0 {
            return Err(EmptyPoolError);
        }
        let n = students.len();
        let mut indices: Vec<usize> = Vec::new();
        let mut i: usize = 0;
        while i < n
            invariant
                i <= n,
                indices@.len() == i,
                forall|j: int| 0 <= j < i ==> (#[trigger] indices@[j]) == j as usize,
            decreases n - i,
        {
            indices.push(i);
            i = i + 1;
        }
        let p = StudentPicker { students, rng, shuffled_indices: indices, cur_ind: 0 };
        proof {
            assert(p@.bag =~= ident_indices(n as int));
        }
        Ok(p)
    }

    /// Draws the next student of the rotation: reshuffles the bag at a pass
    /// boundary, then returns the student at the cursor and advances it.
    /// Within one pass the bag is fixed, so the pass reads the bag's
    /// positions off in order.
    pub fn next(&mut self) -> (s: Student)
        requires
            old(self).wf(),
        ensures
            final(self).wf(),
            final(self)@.students == old(self)@.students,
            ({
                let boundary = old(self)@.cursor == 0 || old(self)@.cursor == old(self)@.bag.len();
                &&& final(self)@.cursor == if boundary {
                    1int
                } else {
                    old(self)@.cursor + 1
                }
                &&& !boundary ==> final(self)@.bag == old(self)@.bag
                &&& is_perm_of(final(self)@.bag, final(self)@.students.len() as int)
                &&& s@ == final(self)@.students[final(self)@.bag[final(self)@.cursor - 1] as int]
            }),
    {
        if self.cur_ind == self.shuffled_indices.len() {
            self.cur_ind = 0;
        }
        if self.cur_ind == 0 {
            shuffle_indices(&mut self.shuffled_indices, &mut self.rng);
        }
        proof {
            lemma_perm_bounds(self@.bag, self@.students.len() as int);
        }
        let idx = self.shuffled_indices[self.cur_ind];
        self.cur_ind = self.cur_ind + 1;
        let s = self.students[idx].clone();
        s
    }
}

/// Builds a fair picker over `students` with a generator freshly seeded
/// from operating-system entropy; an empty pool is rejected with
/// `EmptyPoolError`.
pub fn get_student_picker(students: Vec<Student>) -> (r: Result<StudentPicker, EmptyPoolError>)
    ensures
        r is Err <==> students@.len() == 0,
        r matches Ok(p) ==> p.wf() && p@.students == views_of(students@) && p@.cursor == 0,
{
    StudentPicker::new(students, fresh_rng())
}

/// The students one pass hands out: the pool read off at the bag's
/// positions, in bag order.
pub open spec fn pass_picks(students: Seq<StudentV>, bag: Seq<usize>) -> Seq<StudentV> {
    Seq::new(bag.len(), |i: int| students[bag[i] as int])
}

/// Reading a pool off at two bags with equal contents yields picks with
/// equal contents.
proof fn lemma_picks_multiset(students: Seq<StudentV>, bag: Seq<usize>, idx: Seq<usize>)
    requires
        bag.to_multiset() == idx.to_multiset(),
    ensures
        pass_picks(students, bag).to_multiset() == pass_picks(students, idx).to_multiset(),
    decreases bag.len(),
{
    broadcast use vstd::seq_lib::group_to_multiset_ensures;
    broadcast use vstd::multiset::group_multiset_axioms;

    if bag.len() == 0 {
        assert(bag.to_multiset().len() == bag.len());
        assert(idx.to_multiset().len() == idx.len());
        assert(pass_picks(students, bag) =~= Seq::<StudentV>::empty());
        assert(pass_picks(students, idx) =~= Seq::<StudentV>::empty());
    } else {
        let b0 = bag[0];
        assert(bag.contains(b0));
        assert(bag.to_multiset().count(b0) > 0);
        assert(idx.contains(b0));
        let j = choose|j: int| 0 <= j < idx.len() && (#[trigger] idx[j]) == b0;
        let bag1 = bag.remove(0);
        let idx1 = idx.remove(j);
        assert(bag1.to_multiset() == bag.to_multiset().remove(b0));
        assert(idx1.to_multiset() == idx.to_multiset().remove(b0));
        lemma_picks_multiset(students, bag1, idx1);

        let s0 = students[b0 as int];
        let pb = pass_picks(students, bag);
        let pi = pass_picks(students, idx);
        assert(pass_picks(students, bag1) =~= pb.remove(0));
        assert(pass_picks(students, idx1) =~= pi.remove(j));
        assert(pb[0] == s0);
        assert(pi[j] == s0);
        assert(pb.remove(0).to_multiset() == pb.to_multiset().remove(s0));
        assert(pi.remove(j).to_multiset() == pi.to_multiset().remove(s0));
        assert(pb.contains(s0));
        assert(pb.to_multiset().count(s0) > 0);
        assert(pi.contains(s0));
        assert(pi.to_multiset().count(s0) > 0);
        assert(pb.to_multiset() =~= pi.to_multiset()) by {
            assert(pb.to_multiset().remove(s0) == pi.to_multiset().remove(s0));
            assert(forall|e: StudentV|
                pb.to_multiset().count(e) == pi.to_multiset().count(e)) by {
                assert forall|e: StudentV|
                    pb.to_multiset().count(e) == pi.to_multiset().count(e) by {
                    assert(pb.to_multiset().remove(s0).count(e) == pi.to_multiset().remove(
                        s0,
                    ).count(e));
                }
            }
        }
    }
}

/// Fairness of one shuffle pass: for a pool of `n` students, the `n` draws
/// of one pass — the pool read off at the bag's positions, in bag order —
/// are a permutation of the whole pool, so every student is returned
/// exactly once within the pass.
pub proof fn lemma_pass_is_fair(students: Seq<StudentV>, bag: Seq<usize>)
    requires
        is_perm_of(bag, students.len() as int),
        students.len() <= usize::MAX,
    ensures
        pass_picks(students, bag).to_multiset() == students.to_multiset(),
{
    let n = students.len() as int;
    lemma_picks_multiset(students, bag, ident_indices(n));
    assert forall|i: int| 0 <= i < n implies pass_picks(students, ident_indices(n))[i]
        == students[i] by {
        assert(ident_indices(n)[i] == i as usize);
    }
    assert(pass_picks(students, ident_indices(n)) =~= students);
}

} // verus!
