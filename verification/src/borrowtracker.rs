//! The per-unit model of a tracker and the interface every tracker offers.
use crate::borrowstate::{BorrowOp, BorrowState, InvalidTransition};
use vstd::prelude::*;

verus! {

/// A buffer of `len` units none of which is claimed.
pub open spec fn unclaimed(len: nat) -> Seq<BorrowState> {
    Seq::new(len, |i: int| BorrowState::Not)
}

/// Every unit holds a well-formed state.
pub open spec fn all_wf(units: Seq<BorrowState>) -> bool {
    forall|i: int| 0 <= i < units.len() ==> (#[trigger] units[i]).wf()
}

/// `op` is allowed on every unit of `[start, end)`.
pub open spec fn range_permits(units: Seq<BorrowState>, op: BorrowOp, start: int, end: int) -> bool {
    forall|i: int| start <= i < end ==> (#[trigger] units[i]).permits(op)
}

/// `units` with `op` applied to each unit of `[start, end)` and every other
/// unit as it was.
pub open spec fn apply_range(units: Seq<BorrowState>, op: BorrowOp, start: int, end: int) -> Seq<
    BorrowState,
> {
    Seq::new(
        units.len(),
        |i: int|
            if start <= i < end {
                units[i].step(op)
            } else {
                units[i]
            },
    )
}

/// The first unit of `[start, end)` on which `op` is not allowed, or `end`
/// where it is allowed on all of them.
pub open spec fn first_refused(units: Seq<BorrowState>, op: BorrowOp, start: int, end: int) -> int
    decreases end - start,
{
    if start >= end {
        end
    } else if !units[start].permits(op) {
        start
    } else {
        first_refused(units, op, start + 1, end)
    }
}

/// `first_refused` lies in `[start, end]`, every unit before it allows `op`,
/// and it allows `op` itself only where it is `end`.
pub proof fn lemma_first_refused(units: Seq<BorrowState>, op: BorrowOp, start: int, end: int)
    requires
        start <= end,
    ensures
        start <= first_refused(units, op, start, end) <= end,
        range_permits(units, op, start, first_refused(units, op, start, end)),
        first_refused(units, op, start, end) < end ==> !units[first_refused(
            units,
            op,
            start,
            end,
        )].permits(op),
        first_refused(units, op, start, end) == end <==> range_permits(units, op, start, end),
    decreases end - start,
{
    if start < end && units[start].permits(op) {
        lemma_first_refused(units, op, start + 1, end);
        let f = first_refused(units, op, start + 1, end);
        assert forall|i: int| start <= i < f implies (#[trigger] units[i]).permits(op) by {}
    }
}

/// Exclusion. Once a claim over `[start, end)` has been accepted, a claim
/// over a range that shares a unit with it is refused if either of the two is
/// exclusive.
pub proof fn lemma_conflicting_claim_refused(
    units: Seq<BorrowState>,
    held: BorrowOp,
    start: int,
    end: int,
    wanted: BorrowOp,
    other_start: int,
    other_end: int,
)
    requires
        held == BorrowOp::AddShr || held == BorrowOp::AddMut,
        wanted == BorrowOp::AddShr || wanted == BorrowOp::AddMut,
        held == BorrowOp::AddMut || wanted == BorrowOp::AddMut,
        0 <= start < end <= units.len(),
        0 <= other_start < other_end <= units.len(),
        other_start < end && start < other_end,
        range_permits(units, held, start, end),
    ensures
        !range_permits(apply_range(units, held, start, end), wanted, other_start, other_end),
{
    let shared_unit = if start >= other_start {
        start
    } else {
        other_start
    };
    assert(units[shared_unit].permits(held));
    assert(!apply_range(units, held, start, end)[shared_unit].permits(wanted));
}

/// What every tracker of range claims over one buffer offers.
///
/// `units` is the tracker's dense expansion: the state of each buffer unit in
/// order. A range operation is accepted exactly when the unit transition is
/// allowed on every unit of the range, and then applies it to each of them.
/// What a refused operation leaves behind is for each tracker to say.
pub trait BorrowTracker: Sized {
    /// The tracker's representation is consistent.
    spec fn wf(&self) -> bool;

    /// The state of every unit of the buffer, in order.
    spec fn units(&self) -> Seq<BorrowState>;

    /// In a consistent tracker every unit holds a well-formed state: free,
    /// shared by at least one holder, or exclusive, and never two of these.
    proof fn lemma_units_wf(&self)
        requires
            self.wf(),
        ensures
            all_wf(self.units()),
    ;

    /// A tracker over `len` units, none of them claimed.
    fn new(len: usize) -> (t: Self)
        ensures
            t.wf(),
            t.units() == unclaimed(len as nat),
    ;

    /// Claims `[start, end)` for one more shared holder.
    fn add_shr(&mut self, start: usize, end: usize) -> (r: Result<(), InvalidTransition>)
        requires
            old(self).wf(),
            start < end <= old(self).units().len(),
        ensures
            final(self).wf(),
            final(self).units().len() == old(self).units().len(),
            r is Ok <==> range_permits(
                old(self).units(),
                BorrowOp::AddShr,
                start as int,
                end as int,
            ),
            r is Ok ==> final(self).units() == apply_range(
                old(self).units(),
                BorrowOp::AddShr,
                start as int,
                end as int,
            ),
    ;

    /// Claims `[start, end)` exclusively.
    fn add_mut(&mut self, start: usize, end: usize) -> (r: Result<(), InvalidTransition>)
        requires
            old(self).wf(),
            start < end <= old(self).units().len(),
        ensures
            final(self).wf(),
            final(self).units().len() == old(self).units().len(),
            r is Ok <==> range_permits(
                old(self).units(),
                BorrowOp::AddMut,
                start as int,
                end as int,
            ),
            r is Ok ==> final(self).units() == apply_range(
                old(self).units(),
                BorrowOp::AddMut,
                start as int,
                end as int,
            ),
    ;

    /// Releases one shared claim on `[start, end)`.
    fn rm_shr(&mut self, start: usize, end: usize) -> (r: Result<(), InvalidTransition>)
        requires
            old(self).wf(),
            start < end <= old(self).units().len(),
        ensures
            final(self).wf(),
            final(self).units().len() == old(self).units().len(),
            r is Ok <==> range_permits(
                old(self).units(),
                BorrowOp::RmShr,
                start as int,
                end as int,
            ),
            r is Ok ==> final(self).units() == apply_range(
                old(self).units(),
                BorrowOp::RmShr,
                start as int,
                end as int,
            ),
    ;

    /// Releases the exclusive claim on `[start, end)`.
    fn rm_mut(&mut self, start: usize, end: usize) -> (r: Result<(), InvalidTransition>)
        requires
            old(self).wf(),
            start < end <= old(self).units().len(),
        ensures
            final(self).wf(),
            final(self).units().len() == old(self).units().len(),
            r is Ok <==> range_permits(
                old(self).units(),
                BorrowOp::RmMut,
                start as int,
                end as int,
            ),
            r is Ok ==> final(self).units() == apply_range(
                old(self).units(),
                BorrowOp::RmMut,
                start as int,
                end as int,
            ),
    ;

    /// The dense expansion: the state of each unit, in order. The tracker
    /// stays as it is.
    fn into_state(&self) -> (v: Vec<BorrowState>)
        requires
            self.wf(),
        ensures
            v@ == self.units(),
            all_wf(v@),
    ;
}

} // verus!
