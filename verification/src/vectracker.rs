//! The dense tracker: one state per buffer unit.
use crate::borrowstate::{BorrowOp, BorrowState, InvalidTransition};
use crate::borrowtracker::{
    all_wf, apply_range, first_refused, lemma_first_refused, range_permits, unclaimed,
    BorrowTracker,
};
use vstd::prelude::*;

verus! {

/// Keeps the state of every unit in a vector and walks the range on every
/// operation. Simple by design: it is the baseline that the compressed
/// tracker must agree with.
pub struct VecTracker {
    borrows: Vec<BorrowState>,
}

impl VecTracker {
    /// Applies `op` to the units of `[start, end)` from left to right and
    /// stops at the first unit that refuses it. The units before that one
    /// keep the new state.
    fn transform(&mut self, op: BorrowOp, start: usize, end: usize) -> (r: Result<
        (),
        InvalidTransition,
    >)
        requires
            old(self).wf(),
            start <= end <= old(self).borrows@.len(),
        ensures
            final(self).wf(),
            r is Ok <==> range_permits(old(self).borrows@, op, start as int, end as int),
            final(self).borrows@ == apply_range(
                old(self).borrows@,
                op,
                start as int,
                first_refused(old(self).borrows@, op, start as int, end as int),
            ),
    {
        proof {
            lemma_first_refused(self.borrows@, op, start as int, end as int);
        }
        let ghost before = self.borrows@;
        let mut i: usize = start;
        while i < end
            invariant
                start <= i <= end <= before.len(),
                before == old(self).borrows@,
                all_wf(before),
                all_wf(self.borrows@),
                range_permits(before, op, start as int, i as int),
                self.borrows@ == apply_range(before, op, start as int, i as int),
                first_refused(before, op, start as int, end as int) == first_refused(
                    before,
                    op,
                    i as int,
                    end as int,
                ),
            decreases end - i,
        {
            let mut b = self.borrows[i];
            let r = b.apply(op);
            if r.is_err() {
                return r;
            }
            self.borrows.set(i, b);
            i += 1;
        }
        Ok(())
    }
}

impl BorrowTracker for VecTracker {
    closed spec fn wf(&self) -> bool {
        all_wf(self.borrows@)
    }

    closed spec fn units(&self) -> Seq<BorrowState> {
        self.borrows@
    }

    proof fn lemma_units_wf(&self) {
    }

    fn new(len: usize) -> (t: Self) {
        let mut borrows: Vec<BorrowState> = Vec::new();
        let mut i: usize = 0;
        while i < len
            invariant
                i <= len,
                borrows@ =~= unclaimed(i as nat),
            decreases len - i,
        {
            borrows.push(BorrowState::Not);
            i += 1;
        }
        VecTracker { borrows }
    }

    /// Where a unit refuses, the units of the range before it stay claimed.
    fn add_shr(&mut self, start: usize, end: usize) -> (r: Result<(), InvalidTransition>)
        ensures
            final(self).units() == apply_range(
                old(self).units(),
                BorrowOp::AddShr,
                start as int,
                first_refused(old(self).units(), BorrowOp::AddShr, start as int, end as int),
            ),
    {
        proof {
            lemma_first_refused(self.units(), BorrowOp::AddShr, start as int, end as int);
        }
        self.transform(BorrowOp::AddShr, start, end)
    }

    /// Where a unit refuses, the units of the range before it stay claimed.
    fn add_mut(&mut self, start: usize, end: usize) -> (r: Result<(), InvalidTransition>)
        ensures
            final(self).units() == apply_range(
                old(self).units(),
                BorrowOp::AddMut,
                start as int,
                first_refused(old(self).units(), BorrowOp::AddMut, start as int, end as int),
            ),
    {
        proof {
            lemma_first_refused(self.units(), BorrowOp::AddMut, start as int, end as int);
        }
        self.transform(BorrowOp::AddMut, start, end)
    }

    /// Where a unit refuses, the units of the range before it stay released.
    fn rm_shr(&mut self, start: usize, end: usize) -> (r: Result<(), InvalidTransition>)
        ensures
            final(self).units() == apply_range(
                old(self).units(),
                BorrowOp::RmShr,
                start as int,
                first_refused(old(self).units(), BorrowOp::RmShr, start as int, end as int),
            ),
    {
        proof {
            lemma_first_refused(self.units(), BorrowOp::RmShr, start as int, end as int);
        }
        self.transform(BorrowOp::RmShr, start, end)
    }

    /// Where a unit refuses, the units of the range before it stay released.
    fn rm_mut(&mut self, start: usize, end: usize) -> (r: Result<(), InvalidTransition>)
        ensures
            final(self).units() == apply_range(
                old(self).units(),
                BorrowOp::RmMut,
                start as int,
                first_refused(old(self).units(), BorrowOp::RmMut, start as int, end as int),
            ),
    {
        proof {
            lemma_first_refused(self.units(), BorrowOp::RmMut, start as int, end as int);
        }
        self.transform(BorrowOp::RmMut, start, end)
    }

    fn into_state(&self) -> (v: Vec<BorrowState>) {
        let mut v: Vec<BorrowState> = Vec::new();
        let mut i: usize = 0;
        while i < self.borrows.len()
            invariant
                i <= self.borrows@.len(),
                v@ =~= self.borrows@.take(i as int),
            decreases self.borrows@.len() - i,
        {
            v.push(self.borrows[i]);
            i += 1;
        }
        v
    }
}

} // verus!
