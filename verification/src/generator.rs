//! Generation of action sequences that every tracker accepts.
//!
//! The generator keeps books of its own, a count of shared claims and an
//! exclusive flag per unit, and decides from them alone which actions to
//! offer. It never looks at a tracker. The laws below show that what it
//! offers is what a tracker in the matching state accepts.
use crate::borrowstate::{BorrowOp, BorrowState};
use crate::borrowtracker::{apply_range, range_permits, unclaimed};
use crate::equivalence::{lemma_replay_units_prepend, replay_units, step_units, BorrowAction};
use vstd::prelude::*;

verus! {

/// The state that the books of one unit stand for.
pub open spec fn ledger_state(shared: u32, mutable: bool) -> BorrowState {
    if mutable {
        BorrowState::Mutable
    } else if shared > 0 {
        BorrowState::Shared(shared as usize)
    } else {
        BorrowState::Not
    }
}

/// The units that the books stand for.
pub open spec fn ledger_units(shared: Seq<u32>, mutable: Seq<bool>) -> Seq<BorrowState> {
    Seq::new(shared.len(), |i: int| ledger_state(shared[i], mutable[i]))
}

/// The books cover `len` units and no unit is entered as both shared and
/// exclusive.
pub open spec fn ledger_wf(shared: Seq<u32>, mutable: Seq<bool>, len: nat) -> bool {
    &&& shared.len() == len
    &&& mutable.len() == len
    &&& forall|i: int| 0 <= i < len ==> !(#[trigger] mutable[i] && shared[i] > 0)
}

/// Whether the books of one unit allow `op`: a shared claim where the unit
/// is not exclusive and the count has room, an exclusive claim where nobody
/// holds the unit, a release where a claim of that kind is entered.
pub open spec fn unit_offers(shared: u32, mutable: bool, op: BorrowOp) -> bool {
    match op {
        BorrowOp::AddShr => !mutable && shared < u32::MAX,
        BorrowOp::AddMut => !mutable && shared == 0,
        BorrowOp::RmShr => shared > 0,
        BorrowOp::RmMut => mutable,
    }
}

/// Whether the books allow `action` on every unit of its range.
pub open spec fn ledger_offers(shared: Seq<u32>, mutable: Seq<bool>, action: BorrowAction) -> bool {
    forall|i: int|
        action.start() <= i < action.end() ==> unit_offers(
            #[trigger] shared[i],
            mutable[i],
            action.op(),
        )
}

/// The shared counts once `action` is entered.
pub open spec fn recorded_shared(shared: Seq<u32>, action: BorrowAction) -> Seq<u32> {
    Seq::new(
        shared.len(),
        |i: int|
            if action.start() <= i < action.end() {
                match action.op() {
                    BorrowOp::AddShr => (shared[i] + 1) as u32,
                    BorrowOp::RmShr => (shared[i] - 1) as u32,
                    _ => shared[i],
                }
            } else {
                shared[i]
            },
    )
}

/// The exclusive flags once `action` is entered.
pub open spec fn recorded_mutable(mutable: Seq<bool>, action: BorrowAction) -> Seq<bool> {
    Seq::new(
        mutable.len(),
        |i: int|
            if action.start() <= i < action.end() {
                match action.op() {
                    BorrowOp::AddMut => true,
                    BorrowOp::RmMut => false,
                    _ => mutable[i],
                }
            } else {
                mutable[i]
            },
    )
}

/// `action` where the books offer it, nothing otherwise.
pub open spec fn offered_one(shared: Seq<u32>, mutable: Seq<bool>, action: BorrowAction) -> Seq<
    BorrowAction,
> {
    if ledger_offers(shared, mutable, action) {
        seq![action]
    } else {
        Seq::empty()
    }
}

/// The actions over `[start, end)` that the books offer: the exclusive
/// claim, the shared claim, the exclusive release, the shared release, in
/// this order.
pub open spec fn offered_at(shared: Seq<u32>, mutable: Seq<bool>, start: usize, end: usize) -> Seq<
    BorrowAction,
> {
    offered_one(shared, mutable, BorrowAction::AddMutable(start, end)) + offered_one(
        shared,
        mutable,
        BorrowAction::AddShared(start, end),
    ) + offered_one(shared, mutable, BorrowAction::RmMutable(start, end)) + offered_one(
        shared,
        mutable,
        BorrowAction::RmShared(start, end),
    )
}

/// The offered actions over the ranges of a buffer of `len` units from
/// `[start, end)` on, the ranges taken by ascending start and, for one
/// start, by ascending end.
pub open spec fn offered_from(
    shared: Seq<u32>,
    mutable: Seq<bool>,
    len: usize,
    start: usize,
    end: int,
) -> Seq<BorrowAction>
    recommends
        start < end,
    decreases len - start, len + 1 - end,
{
    if start >= len {
        Seq::empty()
    } else if end > len {
        offered_from(shared, mutable, len, (start + 1) as usize, start + 2)
    } else {
        offered_at(shared, mutable, start, end as usize) + offered_from(
            shared,
            mutable,
            len,
            start,
            end + 1,
        )
    }
}

/// Every action that the books offer on a buffer of `len` units.
pub open spec fn offered(shared: Seq<u32>, mutable: Seq<bool>, len: usize) -> Seq<BorrowAction> {
    offered_from(shared, mutable, len, 0, 1)
}

/// The entry of `list` that `pick` selects: the one at `pick` modulo the
/// length, and none from an empty list.
pub open spec fn picked(list: Seq<BorrowAction>, pick: usize) -> Option<BorrowAction> {
    if list.len() == 0 {
        None
    } else {
        Some(list[pick as int % list.len() as int])
    }
}

/// The sequence generated from the books by `picks`: each pick selects one
/// of the actions offered at that point, which is entered before the next.
pub open spec fn generated(
    shared: Seq<u32>,
    mutable: Seq<bool>,
    len: usize,
    picks: Seq<usize>,
) -> Seq<BorrowAction>
    decreases picks.len(),
{
    if picks.len() == 0 {
        Seq::empty()
    } else {
        match picked(offered(shared, mutable, len), picks[0]) {
            None => generated(shared, mutable, len, picks.drop_first()),
            Some(a) => seq![a] + generated(
                recorded_shared(shared, a),
                recorded_mutable(mutable, a),
                len,
                picks.drop_first(),
            ),
        }
    }
}

/// What the books offer, a tracker in the matching state accepts, and
/// entering the action keeps the books matching.
pub proof fn lemma_ledger_sound(
    shared: Seq<u32>,
    mutable: Seq<bool>,
    len: nat,
    action: BorrowAction,
)
    requires
        ledger_wf(shared, mutable, len),
        action.in_range(len),
        ledger_offers(shared, mutable, action),
    ensures
        ledger_wf(recorded_shared(shared, action), recorded_mutable(mutable, action), len),
        step_units(ledger_units(shared, mutable), action) == Some(
            ledger_units(recorded_shared(shared, action), recorded_mutable(mutable, action)),
        ),
{
    let units = ledger_units(shared, mutable);
    let s2 = recorded_shared(shared, action);
    let m2 = recorded_mutable(mutable, action);
    let after = apply_range(units, action.op(), action.start() as int, action.end() as int);
    assert(range_permits(units, action.op(), action.start() as int, action.end() as int));
    assert forall|i: int| 0 <= i < len implies !(#[trigger] m2[i] && s2[i] > 0) by {}
    assert forall|i: int| 0 <= i < len implies after[i] == ledger_units(s2, m2)[i] by {}
}

/// What a tracker in the matching state accepts, the books offer, but for a
/// shared claim on a unit whose count has no room in the books.
pub proof fn lemma_ledger_complete(
    shared: Seq<u32>,
    mutable: Seq<bool>,
    len: nat,
    action: BorrowAction,
)
    requires
        ledger_wf(shared, mutable, len),
        action.in_range(len),
        step_units(ledger_units(shared, mutable), action) is Some,
        action.op() == BorrowOp::AddShr ==> forall|i: int|
            action.start() <= i < action.end() ==> #[trigger] shared[i] < u32::MAX,
    ensures
        ledger_offers(shared, mutable, action),
{
    let units = ledger_units(shared, mutable);
    assert forall|i: int| action.start() <= i < action.end() implies unit_offers(
        #[trigger] shared[i],
        mutable[i],
        action.op(),
    ) by {
        assert(units[i].permits(action.op()));
    }
}

/// Books in which no claim is entered: every count is zero.
pub open spec fn empty_counts(len: nat) -> Seq<u32> {
    Seq::new(len, |i: int| 0u32)
}

/// Books in which no claim is entered: no flag is set.
pub open spec fn empty_flags(len: nat) -> Seq<bool> {
    Seq::new(len, |i: int| false)
}

/// The actions over `[start, end)` that the books offer are those over
/// exactly this range that the books allow.
pub proof fn lemma_offered_at(
    shared: Seq<u32>,
    mutable: Seq<bool>,
    start: usize,
    end: usize,
    action: BorrowAction,
)
    ensures
        offered_at(shared, mutable, start, end).contains(action) <==> action.start() == start
            && action.end() == end && ledger_offers(shared, mutable, action),
{
    broadcast use
        vstd::seq_lib::lemma_seq_concat_contains_all_elements,
        vstd::seq_lib::lemma_seq_empty_contains_nothing,
    ;

    assert forall|a: BorrowAction| #[trigger]
        offered_one(shared, mutable, a).contains(action) <==> a == action && ledger_offers(
            shared,
            mutable,
            a,
        ) by {
        if ledger_offers(shared, mutable, a) {
            assert(seq![a][0] == a);
        }
    }
}

/// From `[start, end)` on, the books offer exactly the actions that lie
/// within the buffer, that they allow, and whose range comes at or after
/// `[start, end)` in the order of enumeration.
pub proof fn lemma_offered_from(
    shared: Seq<u32>,
    mutable: Seq<bool>,
    len: usize,
    start: usize,
    end: int,
    action: BorrowAction,
)
    requires
        start < end,
    ensures
        offered_from(shared, mutable, len, start, end).contains(action) <==> action.in_range(
            len as nat,
        ) && ledger_offers(shared, mutable, action) && (action.start() > start || (action.start()
            == start && action.end() >= end)),
    decreases len - start, len + 1 - end,
{
    broadcast use
        vstd::seq_lib::lemma_seq_concat_contains_all_elements,
        vstd::seq_lib::lemma_seq_empty_contains_nothing,
    ;

    if start >= len {
    } else if end > len {
        lemma_offered_from(shared, mutable, len, (start + 1) as usize, start + 2, action);
    } else {
        lemma_offered_at(shared, mutable, start, end as usize, action);
        lemma_offered_from(shared, mutable, len, start, end + 1, action);
    }
}

/// The books offer exactly the actions that lie within the buffer and that
/// they allow.
pub proof fn lemma_offered(shared: Seq<u32>, mutable: Seq<bool>, len: usize, action: BorrowAction)
    ensures
        offered(shared, mutable, len).contains(action) <==> action.in_range(len as nat)
            && ledger_offers(shared, mutable, action),
{
    lemma_offered_from(shared, mutable, len, 0, 1, action);
}

/// Every generated sequence lies within the buffer and is accepted in full by
/// a tracker that starts in the state the books stand for.
pub proof fn lemma_generated_accepted(
    shared: Seq<u32>,
    mutable: Seq<bool>,
    len: usize,
    picks: Seq<usize>,
)
    requires
        ledger_wf(shared, mutable, len as nat),
    ensures
        forall|i: int|
            0 <= i < generated(shared, mutable, len, picks).len() ==> (#[trigger] generated(
                shared,
                mutable,
                len,
                picks,
            )[i]).in_range(len as nat),
        replay_units(ledger_units(shared, mutable), generated(shared, mutable, len, picks))
            is Some,
    decreases picks.len(),
{
    if picks.len() > 0 {
        let list = offered(shared, mutable, len);
        match picked(list, picks[0]) {
            None => {
                lemma_generated_accepted(shared, mutable, len, picks.drop_first());
            },
            Some(a) => {
                assert(list.contains(a));
                lemma_offered(shared, mutable, len, a);
                lemma_ledger_sound(shared, mutable, len as nat, a);
                let s2 = recorded_shared(shared, a);
                let m2 = recorded_mutable(mutable, a);
                let rest = generated(s2, m2, len, picks.drop_first());
                lemma_generated_accepted(s2, m2, len, picks.drop_first());
                lemma_replay_units_prepend(ledger_units(shared, mutable), a, rest);
                let g = generated(shared, mutable, len, picks);
                assert forall|i: int| 0 <= i < g.len() implies (#[trigger] g[i]).in_range(
                    len as nat,
                ) by {
                    if i > 0 {
                        assert(g[i] == rest[i - 1]);
                    }
                }
            },
        }
    }
}

/// Whether the books of one unit allow `op`.
fn unit_allows(shared: u32, mutable: bool, op: BorrowOp) -> (ok: bool)
    ensures
        ok == unit_offers(shared, mutable, op),
{
    match op {
        BorrowOp::AddShr => !mutable && shared < u32::MAX,
        BorrowOp::AddMut => !mutable && shared == 0,
        BorrowOp::RmShr => shared > 0,
        BorrowOp::RmMut => mutable,
    }
}

/// Whether the books allow `action` on every unit of its range.
pub fn allows(active_shared: &Vec<u32>, active_mutable: &Vec<bool>, action: BorrowAction) -> (ok:
    bool)
    requires
        active_shared@.len() == active_mutable@.len(),
        action.in_range(active_shared@.len()),
    ensures
        ok == ledger_offers(active_shared@, active_mutable@, action),
{
    let (op, start, end) = action.parts();
    let mut i: usize = start;
    while i < end
        invariant
            start <= i <= end <= active_shared@.len(),
            active_shared@.len() == active_mutable@.len(),
            op == action.op(),
            start == action.start(),
            end == action.end(),
            forall|k: int|
                start <= k < i ==> unit_offers(#[trigger] active_shared@[k], active_mutable@[k], op),
        decreases end - i,
    {
        if !unit_allows(active_shared[i], active_mutable[i], op) {
            return false;
        }
        i += 1;
    }
    true
}

/// Enters `action` in the books: a claim raises the count or sets the flag
/// of each unit of its range, a release lowers or clears it.
pub fn record(active_shared: &mut Vec<u32>, active_mutable: &mut Vec<bool>, action: BorrowAction)
    requires
        old(active_shared)@.len() == old(active_mutable)@.len(),
        action.in_range(old(active_shared)@.len()),
        ledger_offers(old(active_shared)@, old(active_mutable)@, action),
    ensures
        final(active_shared)@ == recorded_shared(old(active_shared)@, action),
        final(active_mutable)@ == recorded_mutable(old(active_mutable)@, action),
{
    let ghost s0 = active_shared@;
    let ghost m0 = active_mutable@;
    let (op, start, end) = action.parts();
    let mut i: usize = start;
    while i < end
        invariant
            start <= i <= end <= s0.len(),
            s0.len() == m0.len(),
            op == action.op(),
            start == action.start(),
            end == action.end(),
            ledger_offers(s0, m0, action),
            active_shared@.len() == s0.len(),
            active_mutable@.len() == m0.len(),
            forall|k: int|
                0 <= k < s0.len() ==> #[trigger] active_shared@[k] == if start <= k < i {
                    recorded_shared(s0, action)[k]
                } else {
                    s0[k]
                },
            forall|k: int|
                0 <= k < m0.len() ==> #[trigger] active_mutable@[k] == if start <= k < i {
                    recorded_mutable(m0, action)[k]
                } else {
                    m0[k]
                },
        decreases end - i,
    {
        match op {
            BorrowOp::AddShr => {
                let n = active_shared[i];
                active_shared.set(i, n + 1);
            },
            BorrowOp::AddMut => {
                active_mutable.set(i, true);
            },
            BorrowOp::RmShr => {
                let n = active_shared[i];
                active_shared.set(i, n - 1);
            },
            BorrowOp::RmMut => {
                active_mutable.set(i, false);
            },
        }
        i += 1;
    }
}

/// Proposes actions over a buffer of `len` units, `num_actions` to a
/// sequence at most.
pub struct ActionGenerator {
    /// The number of units of the buffer.
    pub len: usize,
    /// The number of picks that one sequence is generated from.
    pub num_actions: usize,
}

impl ActionGenerator {
    /// Adds `action` to `list` where the books allow it.
    fn offer(
        &self,
        list: &mut Vec<BorrowAction>,
        active_shared: &Vec<u32>,
        active_mutable: &Vec<bool>,
        action: BorrowAction,
    )
        requires
            active_shared@.len() == self.len,
            active_mutable@.len() == self.len,
            action.in_range(self.len as nat),
        ensures
            final(list)@ == old(list)@ + offered_one(active_shared@, active_mutable@, action),
    {
        if allows(active_shared, active_mutable, action) {
            list.push(action);
        }
    }

    /// Every action within the buffer that the books allow, the ranges by
    /// ascending start and then ascending end, and for one range the
    /// exclusive claim, the shared claim, the exclusive release and the
    /// shared release in this order.
    pub fn possible_actions(&self, active_shared: &Vec<u32>, active_mutable: &Vec<bool>) -> (list:
        Vec<BorrowAction>)
        requires
            active_shared@.len() == self.len,
            active_mutable@.len() == self.len,
        ensures
            list@ == offered(active_shared@, active_mutable@, self.len),
            forall|a: BorrowAction|
                list@.contains(a) <==> a.in_range(self.len as nat) && ledger_offers(
                    active_shared@,
                    active_mutable@,
                    a,
                ),
    {
        let ghost sh = active_shared@;
        let ghost mu = active_mutable@;
        let len = self.len;
        let mut list: Vec<BorrowAction> = Vec::new();
        let mut i: usize = 0;
        while i < len
            invariant
                i <= len,
                len == self.len,
                sh == active_shared@,
                mu == active_mutable@,
                sh.len() == len,
                mu.len() == len,
                list@ + offered_from(sh, mu, len, i, i + 1) == offered(sh, mu, len),
            decreases len - i,
        {
            let mut j: usize = i;
            while j < len
                invariant
                    i <= j <= len,
                    i < len,
                    len == self.len,
                    sh == active_shared@,
                    mu == active_mutable@,
                    sh.len() == len,
                    mu.len() == len,
                    list@ + offered_from(sh, mu, len, i, j + 1) == offered(sh, mu, len),
                decreases len - j,
            {
                let end = j + 1;
                self.offer(&mut list, active_shared, active_mutable, BorrowAction::AddMutable(i, end));
                self.offer(&mut list, active_shared, active_mutable, BorrowAction::AddShared(i, end));
                self.offer(&mut list, active_shared, active_mutable, BorrowAction::RmMutable(i, end));
                self.offer(&mut list, active_shared, active_mutable, BorrowAction::RmShared(i, end));
                j = end;
            }
            i += 1;
        }
        proof {
            assert forall|a: BorrowAction|
                list@.contains(a) <==> a.in_range(self.len as nat) && ledger_offers(sh, mu, a) by {
                lemma_offered(sh, mu, len, a);
            }
        }
        list
    }

    /// Selects by `pick` one of the actions that the books allow, enters it
    /// and returns it. Where the books allow none, they stay as they are.
    pub fn generate_action(
        &self,
        pick: usize,
        active_shared: &mut Vec<u32>,
        active_mutable: &mut Vec<bool>,
    ) -> (r: Option<BorrowAction>)
        requires
            ledger_wf(old(active_shared)@, old(active_mutable)@, self.len as nat),
        ensures
            r == picked(offered(old(active_shared)@, old(active_mutable)@, self.len), pick),
            ledger_wf(final(active_shared)@, final(active_mutable)@, self.len as nat),
            match r {
                Some(a) => {
                    &&& a.in_range(self.len as nat)
                    &&& ledger_offers(old(active_shared)@, old(active_mutable)@, a)
                    &&& final(active_shared)@ == recorded_shared(old(active_shared)@, a)
                    &&& final(active_mutable)@ == recorded_mutable(old(active_mutable)@, a)
                },
                None => {
                    &&& final(active_shared)@ == old(active_shared)@
                    &&& final(active_mutable)@ == old(active_mutable)@
                },
            },
    {
        let possible = self.possible_actions(active_shared, active_mutable);
        if possible.len() == 0 {
            return None;
        }
        let act = possible[pick % possible.len()];
        proof {
            lemma_ledger_sound(active_shared@, active_mutable@, self.len as nat, act);
        }
        record(active_shared, active_mutable, act);
        Some(act)
    }

    /// Generates a sequence from the first `num_actions` of `picks`, or from
    /// all of them where they are fewer, starting from books in which no
    /// claim is entered. Both trackers accept the sequence in full.
    pub fn generate(&self, picks: &Vec<usize>) -> (actions: Vec<BorrowAction>)
        ensures
            actions@ == generated(
                empty_counts(self.len as nat),
                empty_flags(self.len as nat),
                self.len,
                picks@.take(
                    if self.num_actions <= picks@.len() {
                        self.num_actions as int
                    } else {
                        picks@.len() as int
                    },
                ),
            ),
            forall|i: int|
                0 <= i < actions@.len() ==> (#[trigger] actions@[i]).in_range(self.len as nat),
            replay_units(unclaimed(self.len as nat), actions@) is Some,
    {
        let len = self.len;
        let mut active_shared: Vec<u32> = Vec::new();
        let mut active_mutable: Vec<bool> = Vec::new();
        let mut i: usize = 0;
        while i < len
            invariant
                i <= len,
                active_shared@ =~= empty_counts(i as nat),
                active_mutable@ =~= empty_flags(i as nat),
            decreases len - i,
        {
            active_shared.push(0);
            active_mutable.push(false);
            i += 1;
        }
        let n = if self.num_actions <= picks.len() {
            self.num_actions
        } else {
            picks.len()
        };
        let ghost s0 = active_shared@;
        let ghost m0 = active_mutable@;
        let ghost used = picks@.take(n as int);
        let mut actions: Vec<BorrowAction> = Vec::new();
        let mut k: usize = 0;
        proof {
            assert(used.subrange(0, n as int) =~= used);
        }
        while k < n
            invariant
                k <= n <= picks@.len(),
                len == self.len,
                used == picks@.take(n as int),
                ledger_wf(active_shared@, active_mutable@, len as nat),
                actions@ + generated(active_shared@, active_mutable@, len, used.subrange(k as int, n as int))
                    == generated(s0, m0, len, used),
            decreases n - k,
        {
            proof {
                let tail = used.subrange(k as int, n as int);
                assert(tail.drop_first() =~= used.subrange(k + 1, n as int));
            }
            if let Some(a) = self.generate_action(picks[k], &mut active_shared, &mut active_mutable) {
                actions.push(a);
            }
            k += 1;
        }
        proof {
            lemma_generated_accepted(s0, m0, len, used);
            assert(ledger_units(s0, m0) =~= unclaimed(len as nat));
        }
        actions
    }
}

} // verus!
