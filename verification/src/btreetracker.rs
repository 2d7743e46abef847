//! The compressed tracker: a step function over sparse breakpoints.
use crate::borrowstate::{BorrowOp, BorrowState, InvalidTransition};
use crate::borrowtracker::{apply_range, range_permits, unclaimed, BorrowTracker};
use std::collections::BTreeMap;
use vstd::prelude::*;

verus! {

/// The state in effect at position `p`: the value of the greatest breakpoint
/// at or before `p`. Before the first breakpoint nothing is claimed.
pub open spec fn state_at(m: Map<usize, BorrowState>, p: int) -> BorrowState
    recommends
        p <= usize::MAX,
    decreases p + 1,
{
    if p < 0 {
        BorrowState::Not
    } else if m.contains_key(p as usize) {
        m[p as usize]
    } else {
        state_at(m, p - 1)
    }
}

/// The dense expansion of a breakpoint map over `len` units.
pub open spec fn expand(m: Map<usize, BorrowState>, len: nat) -> Seq<BorrowState> {
    Seq::new(len, |i: int| state_at(m, i))
}

/// What a breakpoint map over `len` units must satisfy: both sentinels `0`
/// and `len` are present, no breakpoint lies beyond `len`, every stored
/// state is well-formed, and the closing sentinel is unclaimed.
pub open spec fn breakpoints_wf(m: Map<usize, BorrowState>, len: nat) -> bool {
    &&& len <= usize::MAX
    &&& m.contains_key(0)
    &&& m.contains_key(len as usize)
    &&& m[len as usize] == BorrowState::Not
    &&& forall|k: usize| #[trigger] m.contains_key(k) ==> k <= len && m[k].wf()
}

/// The breakpoints of a tracker over `len` units none of which is claimed:
/// the two sentinels.
pub open spec fn fresh(len: usize) -> Map<usize, BorrowState> {
    map![0usize => BorrowState::Not, len => BorrowState::Not]
}

/// `k` is the greatest breakpoint of `m` at or before `at`.
pub open spec fn is_floor(m: Map<usize, BorrowState>, k: usize, at: usize) -> bool {
    &&& m.contains_key(k)
    &&& k <= at
    &&& forall|j: usize| m.contains_key(j) && j <= at ==> j <= k
}

/// The greatest entry of `m` whose key is at most `at`.
///
/// Calls `BTreeMap::range` with the bounds `..=at` and takes the last item
/// of the iterator it returns. The contract claims what the documentation of
/// `range` gives: the iterator runs over exactly the entries whose keys lie
/// within the bounds, in ascending key order, so its last item is the entry
/// with the greatest key at most `at`, and there is none where no key is.
#[verifier::external_body]
fn floor_entry(m: &BTreeMap<usize, BorrowState>, at: usize) -> (r: Option<(usize, BorrowState)>)
    ensures
        match r {
            Some((k, b)) => is_floor(m@, k, at) && m@[k] == b,
            None => forall|j: usize| m@.contains_key(j) ==> j > at,
        },
{
    m.range(..=at).next_back().map(|(k, b)| (*k, *b))
}

/// Where `k` is the greatest breakpoint at or before `p`, the state in
/// effect at `p` is the one stored at `k`.
pub proof fn lemma_state_at_floor(m: Map<usize, BorrowState>, k: usize, p: int)
    requires
        m.contains_key(k),
        k <= p <= usize::MAX,
        forall|j: usize| m.contains_key(j) && j <= p ==> j <= k,
    ensures
        state_at(m, p) == m[k],
    decreases p - k,
{
    if p > k {
        lemma_state_at_floor(m, k, p - 1);
    }
}

/// The breakpoint map after `op` has been applied over `[start, end)`:
/// `start` and `end` are breakpoints beside those of `m`, each breakpoint of
/// `[start, end)` holds the state that was in effect there with `op`
/// applied, and every other one the state that was in effect there.
pub open spec fn transformed(m: Map<usize, BorrowState>, op: BorrowOp, start: usize, end: usize) -> Map<
    usize,
    BorrowState,
> {
    Map::new(
        |k: usize| m.contains_key(k) || k == start || k == end,
        |k: usize|
            if start <= k < end {
                state_at(m, k as int).step(op)
            } else {
                state_at(m, k as int)
            },
    )
}

/// Every state that a well-formed breakpoint map puts in effect is
/// well-formed.
pub proof fn lemma_state_at_wf(m: Map<usize, BorrowState>, len: nat, p: int)
    requires
        breakpoints_wf(m, len),
        p <= usize::MAX,
    ensures
        state_at(m, p).wf(),
    decreases p + 1,
{
    if p >= 0 && !m.contains_key(p as usize) {
        lemma_state_at_wf(m, len, p - 1);
    }
}

/// The state in effect at `p` after a transformation is the one that was in
/// effect there before, with `op` applied where `p` lies in `[start, end)`.
pub proof fn lemma_transformed_state_at(
    m: Map<usize, BorrowState>,
    op: BorrowOp,
    start: usize,
    end: usize,
    p: int,
)
    requires
        m.contains_key(0),
        0 <= p <= usize::MAX,
    ensures
        state_at(transformed(m, op, start, end), p) == if start <= p < end {
            state_at(m, p).step(op)
        } else {
            state_at(m, p)
        },
    decreases p,
{
    let t = transformed(m, op, start, end);
    if !t.contains_key(p as usize) {
        lemma_transformed_state_at(m, op, start, end, p - 1);
    }
}

/// Transforming the breakpoints applies `op` to each unit of `[start, end)`
/// of the expansion and leaves every other unit as it was.
pub proof fn lemma_transformed_expand(
    m: Map<usize, BorrowState>,
    len: nat,
    op: BorrowOp,
    start: usize,
    end: usize,
)
    requires
        m.contains_key(0),
        len <= usize::MAX,
    ensures
        expand(transformed(m, op, start, end), len) == apply_range(
            expand(m, len),
            op,
            start as int,
            end as int,
        ),
{
    let a = expand(transformed(m, op, start, end), len);
    let b = apply_range(expand(m, len), op, start as int, end as int);
    assert forall|i: int| 0 <= i < len implies a[i] == b[i] by {
        lemma_transformed_state_at(m, op, start, end, i);
    }
}

/// A transformation over a range within the buffer keeps a breakpoint map
/// well-formed.
pub proof fn lemma_transformed_wf(
    m: Map<usize, BorrowState>,
    len: nat,
    op: BorrowOp,
    start: usize,
    end: usize,
)
    requires
        breakpoints_wf(m, len),
        start < end <= len,
    ensures
        breakpoints_wf(transformed(m, op, start, end), len),
{
    let t = transformed(m, op, start, end);
    assert forall|k: usize| #[trigger] t.contains_key(k) implies k <= len && t[k].wf() by {
        lemma_state_at_wf(m, len, k as int);
    }
}

/// A breakpoint of `m` is redundant where it lies strictly between the
/// sentinels and repeats the state already in effect just before it.
pub open spec fn redundant(m: Map<usize, BorrowState>, len: nat, k: usize) -> bool {
    &&& m.contains_key(k)
    &&& 0 < k < len
    &&& m[k] == state_at(m, k - 1)
}

/// `m` without its redundant breakpoints.
pub open spec fn coalesced(m: Map<usize, BorrowState>, len: nat) -> Map<usize, BorrowState> {
    Map::new(|k: usize| m.contains_key(k) && !redundant(m, len, k), |k: usize| m[k])
}

/// Dropping redundant breakpoints, all of them or only some, leaves the
/// state in effect at every position as it was.
pub proof fn lemma_drop_redundant(
    m: Map<usize, BorrowState>,
    c: Map<usize, BorrowState>,
    len: nat,
    p: int,
)
    requires
        c.contains_key(0),
        p <= usize::MAX,
        forall|k: usize| #[trigger] c.contains_key(k) ==> m.contains_key(k) && c[k] == m[k],
        forall|k: usize| #[trigger] m.contains_key(k) && !c.contains_key(k) ==> redundant(m, len, k),
    ensures
        state_at(c, p) == state_at(m, p),
    decreases p + 1,
{
    if p >= 0 && !c.contains_key(p as usize) {
        lemma_drop_redundant(m, c, len, p - 1);
    }
}

/// Without its redundant breakpoints a well-formed map is still
/// well-formed and expands to the same units.
pub proof fn lemma_coalesced(m: Map<usize, BorrowState>, len: nat)
    requires
        breakpoints_wf(m, len),
    ensures
        breakpoints_wf(coalesced(m, len), len),
        expand(coalesced(m, len), len) == expand(m, len),
{
    let c = coalesced(m, len);
    assert forall|i: int| 0 <= i < len implies state_at(c, i) == state_at(m, i) by {
        lemma_drop_redundant(m, c, len, i);
    }
}

/// Where every breakpoint is unclaimed, so is every position.
pub proof fn lemma_all_free(m: Map<usize, BorrowState>, p: int)
    requires
        forall|k: usize| m.contains_key(k) ==> #[trigger] m[k] == BorrowState::Not,
    ensures
        state_at(m, p) == BorrowState::Not,
    decreases p + 1,
{
    if p >= 0 && !m.contains_key(p as usize) {
        lemma_all_free(m, p - 1);
    }
}

/// The sentinels alone are a well-formed breakpoint map, and they expand to
/// a buffer in which nothing is claimed.
pub proof fn lemma_fresh(len: usize)
    ensures
        breakpoints_wf(fresh(len), len as nat),
        expand(fresh(len), len as nat) == unclaimed(len as nat),
{
    let m = fresh(len);
    assert forall|i: int| 0 <= i < len implies state_at(m, i) == BorrowState::Not by {
        lemma_all_free(m, i);
    }
}

/// A range operation makes both ends of its range breakpoints and removes
/// none. So it adds none where both ends are breakpoints already, as they
/// are once any operation over the same range has been applied.
pub proof fn lemma_range_breakpoints(
    m: Map<usize, BorrowState>,
    op: BorrowOp,
    start: usize,
    end: usize,
)
    ensures
        transformed(m, op, start, end).dom() == m.dom().insert(start).insert(end),
        m.contains_key(start) && m.contains_key(end) ==> transformed(m, op, start, end).dom()
            == m.dom(),
{
}

/// Keeps the state of the buffer as a step function: an ordered map from
/// each breakpoint to the state that holds from there up to the next one.
#[derive(Debug)]
pub struct BTreeTracker {
    len: usize,
    borrows: BTreeMap<usize, BorrowState>,
}

impl BTreeTracker {
    /// The number of units tracked.
    pub closed spec fn span(&self) -> nat {
        self.len as nat
    }

    /// The breakpoints: each position at which a run begins, with the state
    /// that holds from there up to the next breakpoint.
    pub closed spec fn breakpoints(&self) -> Map<usize, BorrowState> {
        self.borrows@
    }

    /// Whether `op` is allowed on every unit of `[start, end)`. Looks at one
    /// breakpoint per run that meets the range, from the last run down.
    fn range_allows(&self, op: BorrowOp, start: usize, end: usize) -> (ok: bool)
        requires
            self.wf(),
            start < end <= self.span(),
        ensures
            ok == range_permits(self.units(), op, start as int, end as int),
    {
        let ghost m = self.borrows@;
        let mut hi: usize = end;
        loop
            invariant
                m == self.borrows@,
                self.wf(),
                start < hi <= end <= self.len,
                forall|i: int| hi <= i < end ==> state_at(m, i).permits(op),
            decreases hi,
        {
            let (k, b) = floor_entry(&self.borrows, hi - 1).unwrap();
            proof {
                assert forall|i: int| k <= i < hi implies state_at(m, i) == b by {
                    lemma_state_at_floor(m, k, i);
                }
            }
            if !b.allows(op) {
                proof {
                    assert(self.units()[hi - 1] == b);
                }
                return false;
            }
            if k <= start {
                proof {
                    assert forall|i: int| start <= i < end implies (#[trigger] self.units()[i]).permits(
                        op,
                    ) by {
                        assert(self.units()[i] == state_at(m, i));
                    }
                }
                return true;
            }
            hi = k;
        }
    }

    /// Applies `op` over `[start, end)`, or changes nothing where a unit of
    /// the range refuses it.
    ///
    /// A missing breakpoint at `end` is first created with the state in
    /// effect there. Then the breakpoints of the range are rewritten from the
    /// last one down; where none stands at `start`, one is created there from
    /// the state of the run that `start` falls in.
    fn transform(&mut self, op: BorrowOp, start: usize, end: usize) -> (r: Result<
        (),
        InvalidTransition,
    >)
        requires
            old(self).wf(),
            start < end <= old(self).span(),
        ensures
            final(self).wf(),
            final(self).span() == old(self).span(),
            r is Ok <==> range_permits(old(self).units(), op, start as int, end as int),
            r is Ok ==> final(self).breakpoints() == transformed(
                old(self).breakpoints(),
                op,
                start,
                end,
            ),
            r is Ok ==> final(self).units() == apply_range(
                old(self).units(),
                op,
                start as int,
                end as int,
            ),
            r is Err ==> final(self).breakpoints() == old(self).breakpoints(),
            old(self).breakpoints().contains_key(start) && old(self).breakpoints().contains_key(end)
                ==> final(self).breakpoints().dom() == old(self).breakpoints().dom(),
    {
        proof {
            lemma_range_breakpoints(self.borrows@, op, start, end);
        }
        if !self.range_allows(op, start, end) {
            return Err(InvalidTransition);
        }
        let ghost m = self.borrows@;
        let ghost len = self.len as nat;
        proof {
            assert forall|i: int| start <= i < end implies state_at(m, i).permits(op) by {
                assert(self.units()[i] == state_at(m, i));
            }
        }
        let (e, at_end) = floor_entry(&self.borrows, end).unwrap();
        if e != end {
            proof {
                lemma_state_at_floor(m, e, end as int);
            }
            self.borrows.insert(end, at_end);
        }
        let mut hi: usize = end;
        loop
            invariant_except_break
                forall|k: usize| self.borrows@.contains_key(k) <==> m.contains_key(k) || k == end,
                forall|k: usize|
                    self.borrows@.contains_key(k) ==> #[trigger] self.borrows@[k] == if hi <= k
                        < end {
                        state_at(m, k as int).step(op)
                    } else {
                        state_at(m, k as int)
                    },
            invariant
                breakpoints_wf(m, len),
                self.len == len,
                start < hi <= end <= len,
                forall|i: int| start <= i < end ==> state_at(m, i).permits(op),
            ensures
                self.len == len,
                self.borrows@ == transformed(m, op, start, end),
            decreases hi,
        {
            let ghost cur = self.borrows@;
            let (k, b) = floor_entry(&self.borrows, hi - 1).unwrap();
            let mut nb = b;
            proof {
                assert(cur[k] == state_at(m, k as int));
                if k < start {
                    lemma_state_at_floor(m, k, start as int);
                }
                lemma_state_at_wf(m, len, k as int);
            }
            let _ = nb.apply(op);
            if k <= start {
                self.borrows.insert(start, nb);
                assert(self.borrows@ =~= transformed(m, op, start, end));
                break;
            }
            self.borrows.insert(k, nb);
            assert(self.borrows@.dom() =~= cur.dom());
            hi = k;
        }
        proof {
            lemma_transformed_wf(m, len, op, start, end);
            lemma_transformed_expand(m, len, op, start, end);
        }
        Ok(())
    }

    /// Drops every redundant breakpoint. The state of no unit changes, and
    /// afterwards each breakpoint strictly between the sentinels starts a run
    /// whose state differs from the run before it.
    pub fn coalesce(&mut self)
        requires
            old(self).wf(),
        ensures
            final(self).wf(),
            final(self).span() == old(self).span(),
            final(self).breakpoints() == coalesced(old(self).breakpoints(), old(self).span()),
            final(self).units() == old(self).units(),
            forall|k: usize| !redundant(final(self).breakpoints(), final(self).span(), k),
    {
        let ghost m = self.borrows@;
        let ghost len = self.len as nat;
        let mut hi: usize = self.len;
        while hi > 0
            invariant
                breakpoints_wf(m, len),
                self.len == len,
                hi <= len,
                forall|k: usize|
                    #[trigger] self.borrows@.contains_key(k) <==> m.contains_key(k) && (k < hi
                        || !redundant(m, len, k)),
                forall|k: usize| #[trigger] self.borrows@.contains_key(k) ==> self.borrows@[k] == m[k],
            decreases hi,
        {
            let ghost cur = self.borrows@;
            assert(cur.contains_key(0));
            let (k, b) = floor_entry(&self.borrows, hi - 1).unwrap();
            if k > 0 {
                let (j, before) = floor_entry(&self.borrows, k - 1).unwrap();
                proof {
                    lemma_state_at_floor(cur, j, k - 1);
                    lemma_drop_redundant(m, cur, len, k - 1);
                }
                if b == before {
                    self.borrows.remove(&k);
                }
            }
            hi = k;
        }
        proof {
            assert(self.borrows@ =~= coalesced(m, len));
            let c = self.borrows@;
            assert forall|i: int| 0 <= i < len implies state_at(c, i) == state_at(m, i) by {
                lemma_drop_redundant(m, c, len, i);
            }
            assert forall|k: usize| !redundant(c, len, k) by {
                if c.contains_key(k) && 0 < k < len {
                    lemma_drop_redundant(m, c, len, k - 1);
                }
            }
        }
    }
}

impl BorrowTracker for BTreeTracker {
    open spec fn wf(&self) -> bool {
        breakpoints_wf(self.breakpoints(), self.span())
    }

    open spec fn units(&self) -> Seq<BorrowState> {
        expand(self.breakpoints(), self.span())
    }

    proof fn lemma_units_wf(&self) {
        assert forall|i: int| 0 <= i < self.units().len() implies (#[trigger] self.units()[i]).wf() by {
            lemma_state_at_wf(self.breakpoints(), self.span(), i);
        }
    }

    fn new(len: usize) -> (t: Self)
        ensures
            t.span() == len,
            t.breakpoints() == fresh(len),
    {
        let mut b: BTreeMap<usize, BorrowState> = BTreeMap::new();
        b.insert(0, BorrowState::Not);
        b.insert(len, BorrowState::Not);
        let t = BTreeTracker { len, borrows: b };
        proof {
            lemma_fresh(len);
        }
        t
    }

    /// A refused claim leaves every breakpoint as it was.
    fn add_shr(&mut self, start: usize, end: usize) -> (r: Result<(), InvalidTransition>)
        ensures
            final(self).span() == old(self).span(),
            r is Ok ==> final(self).breakpoints() == transformed(
                old(self).breakpoints(),
                BorrowOp::AddShr,
                start,
                end,
            ),
            r is Err ==> final(self).breakpoints() == old(self).breakpoints(),
    {
        self.transform(BorrowOp::AddShr, start, end)
    }

    /// A refused claim leaves every breakpoint as it was.
    fn add_mut(&mut self, start: usize, end: usize) -> (r: Result<(), InvalidTransition>)
        ensures
            final(self).span() == old(self).span(),
            r is Ok ==> final(self).breakpoints() == transformed(
                old(self).breakpoints(),
                BorrowOp::AddMut,
                start,
                end,
            ),
            r is Err ==> final(self).breakpoints() == old(self).breakpoints(),
    {
        self.transform(BorrowOp::AddMut, start, end)
    }

    /// A refused release leaves every breakpoint as it was. An accepted one
    /// adds no breakpoint where both ends of the range are breakpoints, as
    /// they are since the claim that is being released.
    fn rm_shr(&mut self, start: usize, end: usize) -> (r: Result<(), InvalidTransition>)
        ensures
            final(self).span() == old(self).span(),
            r is Ok ==> final(self).breakpoints() == transformed(
                old(self).breakpoints(),
                BorrowOp::RmShr,
                start,
                end,
            ),
            r is Err ==> final(self).breakpoints() == old(self).breakpoints(),
            old(self).breakpoints().contains_key(start) && old(self).breakpoints().contains_key(end)
                ==> final(self).breakpoints().dom() == old(self).breakpoints().dom(),
    {
        self.transform(BorrowOp::RmShr, start, end)
    }

    /// A refused release leaves every breakpoint as it was. An accepted one
    /// adds no breakpoint where both ends of the range are breakpoints, as
    /// they are since the claim that is being released.
    fn rm_mut(&mut self, start: usize, end: usize) -> (r: Result<(), InvalidTransition>)
        ensures
            final(self).span() == old(self).span(),
            r is Ok ==> final(self).breakpoints() == transformed(
                old(self).breakpoints(),
                BorrowOp::RmMut,
                start,
                end,
            ),
            r is Err ==> final(self).breakpoints() == old(self).breakpoints(),
            old(self).breakpoints().contains_key(start) && old(self).breakpoints().contains_key(end)
                ==> final(self).breakpoints().dom() == old(self).breakpoints().dom(),
    {
        self.transform(BorrowOp::RmMut, start, end)
    }

    fn into_state(&self) -> (v: Vec<BorrowState>) {
        proof {
            self.lemma_units_wf();
        }
        let mut v: Vec<BorrowState> = Vec::new();
        let mut cur = BorrowState::Not;
        let mut i: usize = 0;
        while i < self.len
            invariant
                i <= self.len,
                v@.len() == i,
                forall|j: int| 0 <= j < i ==> v@[j] == state_at(self.borrows@, j),
                cur == state_at(self.borrows@, i - 1),
            decreases self.len - i,
        {
            match self.borrows.get(&i) {
                Some(b) => {
                    cur = *b;
                },
                None => {},
            }
            v.push(cur);
            i += 1;
        }
        v
    }
}

} // verus!
