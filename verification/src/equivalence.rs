//! Replaying sequences of range operations, and the laws that tie the
//! compressed tracker to the dense one.
use crate::borrowstate::{lemma_inverse_undoes, BorrowOp, BorrowState, InvalidTransition};
use crate::borrowtracker::{all_wf, apply_range, range_permits, unclaimed, BorrowTracker};
use crate::btreetracker::{
    breakpoints_wf, coalesced, expand, fresh, lemma_coalesced, lemma_fresh,
    lemma_range_breakpoints, lemma_transformed_expand, lemma_transformed_wf, transformed,
};
use vstd::prelude::*;

verus! {

/// One range operation: what to do, and over which `[start, end)`.
#[derive(Debug, Clone, Copy, PartialEq, Eq, Structural)]
pub enum BorrowAction {
    /// Claim the range for one more shared holder.
    AddShared(usize, usize),
    /// Claim the range exclusively.
    AddMutable(usize, usize),
    /// Release one shared claim on the range.
    RmShared(usize, usize),
    /// Release the exclusive claim on the range.
    RmMutable(usize, usize),
}

impl BorrowAction {
    /// The unit transition this action applies.
    pub open spec fn op(self) -> BorrowOp {
        match self {
            BorrowAction::AddShared(_, _) => BorrowOp::AddShr,
            BorrowAction::AddMutable(_, _) => BorrowOp::AddMut,
            BorrowAction::RmShared(_, _) => BorrowOp::RmShr,
            BorrowAction::RmMutable(_, _) => BorrowOp::RmMut,
        }
    }

    /// The first unit of the range.
    pub open spec fn start(self) -> usize {
        match self {
            BorrowAction::AddShared(s, _) => s,
            BorrowAction::AddMutable(s, _) => s,
            BorrowAction::RmShared(s, _) => s,
            BorrowAction::RmMutable(s, _) => s,
        }
    }

    /// The unit just past the range.
    pub open spec fn end(self) -> usize {
        match self {
            BorrowAction::AddShared(_, e) => e,
            BorrowAction::AddMutable(_, e) => e,
            BorrowAction::RmShared(_, e) => e,
            BorrowAction::RmMutable(_, e) => e,
        }
    }

    /// The range is not empty and lies within a buffer of `len` units.
    pub open spec fn in_range(self, len: nat) -> bool {
        self.start() < self.end() <= len
    }

    /// The unit transition and the two ends of the range.
    pub fn parts(&self) -> (r: (BorrowOp, usize, usize))
        ensures
            r == (self.op(), self.start(), self.end()),
    {
        match *self {
            BorrowAction::AddShared(start, end) => (BorrowOp::AddShr, start, end),
            BorrowAction::AddMutable(start, end) => (BorrowOp::AddMut, start, end),
            BorrowAction::RmShared(start, end) => (BorrowOp::RmShr, start, end),
            BorrowAction::RmMutable(start, end) => (BorrowOp::RmMut, start, end),
        }
    }
}

/// The units after `action`, or `None` where a unit of its range refuses.
pub open spec fn step_units(units: Seq<BorrowState>, action: BorrowAction) -> Option<
    Seq<BorrowState>,
> {
    if range_permits(units, action.op(), action.start() as int, action.end() as int) {
        Some(apply_range(units, action.op(), action.start() as int, action.end() as int))
    } else {
        None
    }
}

/// The units after all of `actions` one after the other, or `None` where one
/// of them is refused.
pub open spec fn replay_units(units: Seq<BorrowState>, actions: Seq<BorrowAction>) -> Option<
    Seq<BorrowState>,
>
    decreases actions.len(),
{
    if actions.len() == 0 {
        Some(units)
    } else {
        match replay_units(units, actions.drop_last()) {
            Some(u) => step_units(u, actions.last()),
            None => None,
        }
    }
}

/// The breakpoints after `action`, or `None` where a unit of its range
/// refuses.
pub open spec fn step_breakpoints(
    m: Map<usize, BorrowState>,
    len: nat,
    action: BorrowAction,
) -> Option<Map<usize, BorrowState>> {
    if range_permits(expand(m, len), action.op(), action.start() as int, action.end() as int) {
        Some(transformed(m, action.op(), action.start(), action.end()))
    } else {
        None
    }
}

/// The breakpoints after all of `actions` one after the other, or `None`
/// where one of them is refused.
pub open spec fn replay_breakpoints(
    m: Map<usize, BorrowState>,
    len: nat,
    actions: Seq<BorrowAction>,
) -> Option<Map<usize, BorrowState>>
    decreases actions.len(),
{
    if actions.len() == 0 {
        Some(m)
    } else {
        match replay_breakpoints(m, len, actions.drop_last()) {
            Some(b) => step_breakpoints(b, len, actions.last()),
            None => None,
        }
    }
}

/// Applies one action to a tracker.
pub fn perform<B: BorrowTracker>(tracker: &mut B, action: BorrowAction) -> (r: Result<
    (),
    InvalidTransition,
>)
    requires
        old(tracker).wf(),
        action.in_range(old(tracker).units().len()),
    ensures
        final(tracker).wf(),
        final(tracker).units().len() == old(tracker).units().len(),
        r is Ok <==> step_units(old(tracker).units(), action) is Some,
        r is Ok ==> step_units(old(tracker).units(), action) == Some(final(tracker).units()),
{
    match action {
        BorrowAction::AddShared(start, end) => tracker.add_shr(start, end),
        BorrowAction::AddMutable(start, end) => tracker.add_mut(start, end),
        BorrowAction::RmShared(start, end) => tracker.rm_shr(start, end),
        BorrowAction::RmMutable(start, end) => tracker.rm_mut(start, end),
    }
}

/// Applies `actions` in order and stops at the first that is refused.
pub fn replay<B: BorrowTracker>(tracker: &mut B, actions: &Vec<BorrowAction>) -> (r: Result<
    (),
    InvalidTransition,
>)
    requires
        old(tracker).wf(),
        forall|i: int|
            0 <= i < actions@.len() ==> (#[trigger] actions@[i]).in_range(
                old(tracker).units().len(),
            ),
    ensures
        final(tracker).wf(),
        final(tracker).units().len() == old(tracker).units().len(),
        r is Ok <==> replay_units(old(tracker).units(), actions@) is Some,
        r is Ok ==> replay_units(old(tracker).units(), actions@) == Some(final(tracker).units()),
{
    let ghost before = tracker.units();
    let mut i: usize = 0;
    while i < actions.len()
        invariant
            i <= actions@.len(),
            before == old(tracker).units(),
            tracker.wf(),
            tracker.units().len() == before.len(),
            forall|j: int| 0 <= j < actions@.len() ==> (#[trigger] actions@[j]).in_range(before.len()),
            replay_units(before, actions@.take(i as int)) == Some(tracker.units()),
        decreases actions@.len() - i,
    {
        proof {
            assert(actions@.take(i + 1).drop_last() =~= actions@.take(i as int));
        }
        let r = perform(tracker, actions[i]);
        if r.is_err() {
            proof {
                if replay_units(before, actions@) is Some {
                    lemma_replay_units_prefix(before, actions@, i + 1);
                }
            }
            return r;
        }
        i += 1;
    }
    proof {
        assert(actions@.take(i as int) =~= actions@);
    }
    Ok(())
}

/// Where a sequence is accepted, so is each of its prefixes.
pub proof fn lemma_replay_units_prefix(units: Seq<BorrowState>, actions: Seq<BorrowAction>, n: int)
    requires
        0 <= n <= actions.len(),
        replay_units(units, actions) is Some,
    ensures
        replay_units(units, actions.take(n)) is Some,
    decreases actions.len(),
{
    if n < actions.len() {
        lemma_replay_units_prefix(units, actions.drop_last(), n);
        assert(actions.drop_last().take(n) =~= actions.take(n));
    } else {
        assert(actions.take(n) =~= actions);
    }
}

/// Replaying a sequence is applying its first action and replaying the rest.
pub proof fn lemma_replay_units_prepend(
    units: Seq<BorrowState>,
    first: BorrowAction,
    rest: Seq<BorrowAction>,
)
    ensures
        replay_units(units, seq![first] + rest) == match step_units(units, first) {
            Some(u) => replay_units(u, rest),
            None => None,
        },
    decreases rest.len(),
{
    let all = seq![first] + rest;
    if rest.len() == 0 {
        assert(all.drop_last() =~= Seq::<BorrowAction>::empty());
    } else {
        assert(all.drop_last() =~= seq![first] + rest.drop_last());
        lemma_replay_units_prepend(units, first, rest.drop_last());
    }
}

/// One action has the same outcome on a breakpoint map as on its expansion:
/// it is accepted on both or on neither, and where it is accepted the new
/// breakpoints are well-formed and expand to the new units.
pub proof fn lemma_step_equivalent(m: Map<usize, BorrowState>, len: nat, action: BorrowAction)
    requires
        breakpoints_wf(m, len),
        action.in_range(len),
    ensures
        step_breakpoints(m, len, action) is Some <==> step_units(expand(m, len), action) is Some,
        step_breakpoints(m, len, action) matches Some(b) ==> breakpoints_wf(b, len)
            && step_units(expand(m, len), action) == Some(expand(b, len)),
{
    lemma_transformed_expand(m, len, action.op(), action.start(), action.end());
    lemma_transformed_wf(m, len, action.op(), action.start(), action.end());
}

/// A sequence of actions has the same outcome on a breakpoint map as on its
/// expansion: it is accepted on both or on neither, and where it is accepted
/// the breakpoints it leaves expand to the units it leaves.
pub proof fn lemma_replay_equivalent(
    m: Map<usize, BorrowState>,
    len: nat,
    actions: Seq<BorrowAction>,
)
    requires
        breakpoints_wf(m, len),
        forall|i: int| 0 <= i < actions.len() ==> (#[trigger] actions[i]).in_range(len),
    ensures
        replay_breakpoints(m, len, actions) is Some <==> replay_units(expand(m, len), actions)
            is Some,
        replay_breakpoints(m, len, actions) matches Some(b) ==> breakpoints_wf(b, len)
            && replay_units(expand(m, len), actions) == Some(expand(b, len)),
    decreases actions.len(),
{
    if actions.len() > 0 {
        lemma_replay_equivalent(m, len, actions.drop_last());
        if let Some(b) = replay_breakpoints(m, len, actions.drop_last()) {
            lemma_step_equivalent(b, len, actions.last());
        }
    }
}

/// Equivalence of the two trackers. Started on `len` unclaimed units and
/// given the same actions, after each prefix of the sequence the compressed
/// tracker has accepted every action exactly if the dense tracker has, and
/// where they have, the compressed tracker expands to the dense tracker's
/// units.
pub proof fn lemma_trackers_equivalent(len: usize, actions: Seq<BorrowAction>, n: int)
    requires
        0 <= n <= actions.len(),
        forall|i: int| 0 <= i < actions.len() ==> (#[trigger] actions[i]).in_range(len as nat),
    ensures
        replay_breakpoints(fresh(len), len as nat, actions.take(n)) is Some <==> replay_units(
            unclaimed(len as nat),
            actions.take(n),
        ) is Some,
        replay_breakpoints(fresh(len), len as nat, actions.take(n)) matches Some(b)
            ==> replay_units(unclaimed(len as nat), actions.take(n)) == Some(
            expand(b, len as nat),
        ),
{
    lemma_fresh(len);
    lemma_replay_equivalent(fresh(len), len as nat, actions.take(n));
}

/// Coalescing cannot be observed. Whatever actions follow, they are accepted
/// after coalescing exactly if they are accepted without it, and the units
/// they lead to are the same.
pub proof fn lemma_coalescing_unobservable(
    m: Map<usize, BorrowState>,
    len: nat,
    actions: Seq<BorrowAction>,
)
    requires
        breakpoints_wf(m, len),
        forall|i: int| 0 <= i < actions.len() ==> (#[trigger] actions[i]).in_range(len),
    ensures
        expand(coalesced(m, len), len) == expand(m, len),
        replay_breakpoints(coalesced(m, len), len, actions) is Some <==> replay_breakpoints(
            m,
            len,
            actions,
        ) is Some,
        replay_breakpoints(coalesced(m, len), len, actions) matches Some(packed)
            ==> replay_breakpoints(m, len, actions) matches Some(plain) && expand(packed, len)
            == expand(plain, len),
{
    lemma_coalesced(m, len);
    lemma_replay_equivalent(m, len, actions);
    lemma_replay_equivalent(coalesced(m, len), len, actions);
}

/// Applying `op` and then its inverse over the same range restores units
/// that allowed `op`.
pub proof fn lemma_inverse_restores(
    units: Seq<BorrowState>,
    op: BorrowOp,
    start: int,
    end: int,
)
    requires
        all_wf(units),
        0 <= start <= end <= units.len(),
        range_permits(units, op, start, end),
    ensures
        range_permits(apply_range(units, op, start, end), op.inverse(), start, end),
        apply_range(apply_range(units, op, start, end), op.inverse(), start, end) == units,
{
    let mid = apply_range(units, op, start, end);
    assert forall|i: int| start <= i < end implies (#[trigger] mid[i]).permits(op.inverse()) by {
        lemma_inverse_undoes(units[i], op);
    }
    assert forall|i: int| 0 <= i < units.len() implies apply_range(
        mid,
        op.inverse(),
        start,
        end,
    )[i] == units[i] by {
        if start <= i < end {
            lemma_inverse_undoes(units[i], op);
        }
    }
}

/// Round trip. On a buffer in which nothing is claimed, a shared claim over
/// `[start, end)` is accepted, the release of the same range is accepted
/// after it, and the two together leave every unit unclaimed again. On the
/// compressed tracker the release adds no breakpoint to those of the claim.
pub proof fn lemma_shared_round_trip(len: usize, start: usize, end: usize)
    requires
        start < end <= len,
    ensures
        replay_units(
            unclaimed(len as nat),
            seq![BorrowAction::AddShared(start, end), BorrowAction::RmShared(start, end)],
        ) == Some(unclaimed(len as nat)),
        replay_breakpoints(
            fresh(len),
            len as nat,
            seq![BorrowAction::AddShared(start, end), BorrowAction::RmShared(start, end)],
        ) matches Some(b) && expand(b, len as nat) == unclaimed(len as nat) && b.dom()
            == transformed(fresh(len), BorrowOp::AddShr, start, end).dom(),
{
    let add = BorrowAction::AddShared(start, end);
    let rm = BorrowAction::RmShared(start, end);
    let both = seq![add, rm];
    let free = unclaimed(len as nat);
    assert(both.drop_last() =~= seq![add]);
    assert(seq![add].drop_last() =~= Seq::<BorrowAction>::empty());
    assert(replay_units(free, Seq::<BorrowAction>::empty()) == Some(free));
    assert(replay_units(free, seq![add]) == step_units(free, add));
    lemma_inverse_restores(free, BorrowOp::AddShr, start as int, end as int);
    lemma_fresh(len);
    lemma_replay_equivalent(fresh(len), len as nat, both);
    assert(replay_breakpoints(fresh(len), len as nat, Seq::<BorrowAction>::empty()) == Some(
        fresh(len),
    ));
    assert(replay_breakpoints(fresh(len), len as nat, seq![add]) == step_breakpoints(
        fresh(len),
        len as nat,
        add,
    ));
    let claimed = transformed(fresh(len), BorrowOp::AddShr, start, end);
    lemma_range_breakpoints(fresh(len), BorrowOp::AddShr, start, end);
    lemma_range_breakpoints(claimed, BorrowOp::RmShr, start, end);
}

} // verus!
