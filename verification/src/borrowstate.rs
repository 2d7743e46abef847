//! The access state of a single buffer unit and its transitions.
use vstd::prelude::*;

verus! {

/// Returned when a transition is not allowed from the current state.
#[derive(Debug, Clone, Copy, PartialEq, Eq, Structural)]
pub struct InvalidTransition;

/// The four operations that can be applied to a unit's state.
#[derive(Debug, Clone, Copy, PartialEq, Eq, Structural)]
pub enum BorrowOp {
    /// Register one more shared claim.
    AddShr,
    /// Register the exclusive claim.
    AddMut,
    /// Release one shared claim.
    RmShr,
    /// Release the exclusive claim.
    RmMut,
}

/// The access state of one unit.
#[derive(Debug, Clone, Copy, PartialEq, Eq, Structural, PartialOrd, Ord)]
pub enum BorrowState {
    /// No outstanding claim.
    Not,
    /// This many concurrent shared claims; the count is at least one.
    Shared(usize),
    /// Exactly one exclusive claim.
    Mutable,
}

impl BorrowOp {
    /// The operation that releases what `self` claims, and the other way round.
    pub open spec fn inverse(self) -> BorrowOp {
        match self {
            BorrowOp::AddShr => BorrowOp::RmShr,
            BorrowOp::AddMut => BorrowOp::RmMut,
            BorrowOp::RmShr => BorrowOp::AddShr,
            BorrowOp::RmMut => BorrowOp::AddMut,
        }
    }
}

impl BorrowState {
    /// A shared state always counts at least one holder.
    pub open spec fn wf(self) -> bool {
        self matches BorrowState::Shared(n) ==> n >= 1
    }

    /// The number of shared claims this state records.
    pub open spec fn shared_count(self) -> nat {
        match self {
            BorrowState::Shared(n) => n as nat,
            _ => 0,
        }
    }

    /// The transition table: the state that follows `self` under `op`, or
    /// `None` where the table has no entry. A shared count that cannot be
    /// incremented in a `usize` has no successor under `AddShr`.
    pub open spec fn after(self, op: BorrowOp) -> Option<BorrowState> {
        match (op, self) {
            (BorrowOp::AddShr, BorrowState::Not) => Some(BorrowState::Shared(1)),
            (BorrowOp::AddShr, BorrowState::Shared(n)) => if n < usize::MAX {
                Some(BorrowState::Shared((n + 1) as usize))
            } else {
                None
            },
            (BorrowOp::AddMut, BorrowState::Not) => Some(BorrowState::Mutable),
            (BorrowOp::RmShr, BorrowState::Shared(n)) => if n == 1 {
                Some(BorrowState::Not)
            } else {
                Some(BorrowState::Shared((n - 1) as usize))
            },
            (BorrowOp::RmMut, BorrowState::Mutable) => Some(BorrowState::Not),
            _ => None,
        }
    }

    /// Whether `op` is allowed from `self`.
    pub open spec fn permits(self, op: BorrowOp) -> bool {
        self.after(op) is Some
    }

    /// The state after `op` where it is allowed; `self` otherwise.
    pub open spec fn step(self, op: BorrowOp) -> BorrowState {
        match self.after(op) {
            Some(s) => s,
            None => self,
        }
    }

    /// Whether `op` is allowed from this state.
    pub fn allows(&self, op: BorrowOp) -> (ok: bool)
        requires
            self.wf(),
        ensures
            ok == self.permits(op),
    {
        match (op, *self) {
            (BorrowOp::AddShr, BorrowState::Not) => true,
            (BorrowOp::AddShr, BorrowState::Shared(n)) => n < usize::MAX,
            (BorrowOp::AddMut, BorrowState::Not) => true,
            (BorrowOp::RmShr, BorrowState::Shared(_)) => true,
            (BorrowOp::RmMut, BorrowState::Mutable) => true,
            _ => false,
        }
    }

    /// Applies `op` in place. Where the table has no entry for the pair the
    /// state is left as it was and the error is returned.
    pub fn apply(&mut self, op: BorrowOp) -> (r: Result<(), InvalidTransition>)
        requires
            old(self).wf(),
        ensures
            final(self).wf(),
            r is Ok <==> old(self).permits(op),
            *final(self) == old(self).step(op),
    {
        match op {
            BorrowOp::AddShr => self.add_shr(),
            BorrowOp::AddMut => self.add_mut(),
            BorrowOp::RmShr => self.rm_shr(),
            BorrowOp::RmMut => self.rm_mut(),
        }
    }

    /// `Not` becomes `Shared(1)`, `Shared(n)` becomes `Shared(n + 1)`;
    /// `Mutable` and a saturated count are refused.
    pub fn add_shr(&mut self) -> (r: Result<(), InvalidTransition>)
        requires
            old(self).wf(),
        ensures
            final(self).wf(),
            r is Ok <==> old(self).permits(BorrowOp::AddShr),
            *final(self) == old(self).step(BorrowOp::AddShr),
    {
        match *self {
            BorrowState::Not => {
                *self = BorrowState::Shared(1);
                Ok(())
            },
            BorrowState::Shared(n) => {
                if n < usize::MAX {
                    *self = BorrowState::Shared(n + 1);
                    Ok(())
                } else {
                    Err(InvalidTransition)
                }
            },
            BorrowState::Mutable => Err(InvalidTransition),
        }
    }

    /// `Shared(1)` becomes `Not`, `Shared(n)` with `n > 1` becomes
    /// `Shared(n - 1)`; `Not` and `Mutable` are refused.
    pub fn rm_shr(&mut self) -> (r: Result<(), InvalidTransition>)
        requires
            old(self).wf(),
        ensures
            final(self).wf(),
            r is Ok <==> old(self).permits(BorrowOp::RmShr),
            *final(self) == old(self).step(BorrowOp::RmShr),
    {
        match *self {
            BorrowState::Not => Err(InvalidTransition),
            BorrowState::Shared(n) => {
                if n == 1 {
                    *self = BorrowState::Not;
                } else {
                    *self = BorrowState::Shared(n - 1);
                }
                Ok(())
            },
            BorrowState::Mutable => Err(InvalidTransition),
        }
    }

    /// `Not` becomes `Mutable`; every other state is refused.
    pub fn add_mut(&mut self) -> (r: Result<(), InvalidTransition>)
        requires
            old(self).wf(),
        ensures
            final(self).wf(),
            r is Ok <==> old(self).permits(BorrowOp::AddMut),
            *final(self) == old(self).step(BorrowOp::AddMut),
    {
        match *self {
            BorrowState::Not => {
                *self = BorrowState::Mutable;
                Ok(())
            },
            BorrowState::Shared(_) => Err(InvalidTransition),
            BorrowState::Mutable => Err(InvalidTransition),
        }
    }

    /// `Mutable` becomes `Not`; every other state is refused.
    pub fn rm_mut(&mut self) -> (r: Result<(), InvalidTransition>)
        requires
            old(self).wf(),
        ensures
            final(self).wf(),
            r is Ok <==> old(self).permits(BorrowOp::RmMut),
            *final(self) == old(self).step(BorrowOp::RmMut),
    {
        match *self {
            BorrowState::Not => Err(InvalidTransition),
            BorrowState::Shared(_) => Err(InvalidTransition),
            BorrowState::Mutable => {
                *self = BorrowState::Not;
                Ok(())
            },
        }
    }
}

/// The transition table, row by row. From `Not` a shared claim gives
/// `Shared(1)` and an exclusive claim gives `Mutable`. From `Shared(n)` a
/// shared claim gives `Shared(n + 1)` and a shared release gives
/// `Shared(n - 1)`, or `Not` where `n` is one. From `Mutable` an exclusive
/// release gives `Not`. No other pair has an entry.
pub proof fn lemma_transition_table(s: BorrowState, op: BorrowOp)
    requires
        s.wf(),
    ensures
        s.after(op) == match s {
            BorrowState::Not => match op {
                BorrowOp::AddShr => Some(BorrowState::Shared(1)),
                BorrowOp::AddMut => Some(BorrowState::Mutable),
                BorrowOp::RmShr => None,
                BorrowOp::RmMut => None,
            },
            BorrowState::Shared(n) => match op {
                BorrowOp::AddShr => if n + 1 <= usize::MAX {
                    Some(BorrowState::Shared((n + 1) as usize))
                } else {
                    None
                },
                BorrowOp::AddMut => None,
                BorrowOp::RmShr => if n == 1 {
                    Some(BorrowState::Not)
                } else {
                    Some(BorrowState::Shared((n - 1) as usize))
                },
                BorrowOp::RmMut => None,
            },
            BorrowState::Mutable => match op {
                BorrowOp::RmMut => Some(BorrowState::Not),
                _ => None,
            },
        },
{
}

/// No state records a shared holder and the exclusive claim at once, and a
/// well-formed state is shared exactly when it counts a holder.
pub proof fn lemma_shared_excludes_exclusive(s: BorrowState)
    ensures
        !(s.shared_count() > 0 && s is Mutable),
        s.wf() ==> (s is Shared <==> s.shared_count() > 0),
{
}

/// A transition takes a well-formed state to a well-formed state.
pub proof fn lemma_step_wf(s: BorrowState, op: BorrowOp)
    requires
        s.wf(),
    ensures
        s.step(op).wf(),
{
}

/// After an allowed transition the inverse is allowed and leads back.
pub proof fn lemma_inverse_undoes(s: BorrowState, op: BorrowOp)
    requires
        s.wf(),
        s.permits(op),
    ensures
        s.step(op).permits(op.inverse()),
        s.step(op).step(op.inverse()) == s,
{
}

} // verus!
