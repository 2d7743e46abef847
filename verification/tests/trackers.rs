use subslice::borrowstate::BorrowState::{Mutable, Not, Shared};
use subslice::borrowstate::{BorrowOp, BorrowState, InvalidTransition};
use subslice::borrowtracker::BorrowTracker;
use subslice::btreetracker::BTreeTracker;
use subslice::vectracker::VecTracker;

#[test]
fn state_add_shr_follows_the_table() {
    let mut s = Not;
    assert_eq!(s.add_shr(), Ok(()));
    assert_eq!(s, Shared(1));
    assert_eq!(s.add_shr(), Ok(()));
    assert_eq!(s, Shared(2));
    let mut m = Mutable;
    assert_eq!(m.add_shr(), Err(InvalidTransition));
    assert_eq!(m, Mutable);
}

#[test]
fn state_add_shr_refuses_a_saturated_count() {
    let mut s = Shared(usize::MAX);
    assert_eq!(s.add_shr(), Err(InvalidTransition));
    assert_eq!(s, Shared(usize::MAX));
    let mut t = Shared(usize::MAX - 1);
    assert_eq!(t.add_shr(), Ok(()));
    assert_eq!(t, Shared(usize::MAX));
}

#[test]
fn state_rm_shr_follows_the_table() {
    let mut s = Shared(3);
    assert_eq!(s.rm_shr(), Ok(()));
    assert_eq!(s, Shared(2));
    assert_eq!(s.rm_shr(), Ok(()));
    assert_eq!(s, Shared(1));
    assert_eq!(s.rm_shr(), Ok(()));
    assert_eq!(s, Not);
    assert_eq!(s.rm_shr(), Err(InvalidTransition));
    assert_eq!(s, Not);
    let mut m = Mutable;
    assert_eq!(m.rm_shr(), Err(InvalidTransition));
    assert_eq!(m, Mutable);
}

#[test]
fn state_add_mut_follows_the_table() {
    let mut s = Not;
    assert_eq!(s.add_mut(), Ok(()));
    assert_eq!(s, Mutable);
    assert_eq!(s.add_mut(), Err(InvalidTransition));
    assert_eq!(s, Mutable);
    let mut t = Shared(1);
    assert_eq!(t.add_mut(), Err(InvalidTransition));
    assert_eq!(t, Shared(1));
}

#[test]
fn state_rm_mut_follows_the_table() {
    let mut s = Mutable;
    assert_eq!(s.rm_mut(), Ok(()));
    assert_eq!(s, Not);
    assert_eq!(s.rm_mut(), Err(InvalidTransition));
    assert_eq!(s, Not);
    let mut t = Shared(4);
    assert_eq!(t.rm_mut(), Err(InvalidTransition));
    assert_eq!(t, Shared(4));
}

#[test]
fn state_apply_and_allows_agree_on_every_pair() {
    let states = [Not, Shared(1), Shared(2), Shared(usize::MAX), Mutable];
    let ops = [BorrowOp::AddShr, BorrowOp::AddMut, BorrowOp::RmShr, BorrowOp::RmMut];
    let expected: [[Option<BorrowState>; 4]; 5] = [
        [Some(Shared(1)), Some(Mutable), None, None],
        [Some(Shared(2)), None, Some(Not), None],
        [Some(Shared(3)), None, Some(Shared(1)), None],
        [None, None, Some(Shared(usize::MAX - 1)), None],
        [None, None, None, Some(Not)],
    ];
    for (i, s) in states.iter().enumerate() {
        for (j, op) in ops.iter().enumerate() {
            let mut t = *s;
            let r = t.apply(*op);
            assert_eq!(s.allows(*op), expected[i][j].is_some());
            match expected[i][j] {
                Some(next) => {
                    assert_eq!(r, Ok(()));
                    assert_eq!(t, next);
                }
                None => {
                    assert_eq!(r, Err(InvalidTransition));
                    assert_eq!(t, *s);
                }
            }
        }
    }
}

#[test]
fn state_keeps_the_order_of_its_variants() {
    assert!(Not < Shared(1));
    assert!(Shared(1) < Shared(2));
    assert!(Shared(usize::MAX) < Mutable);
}

fn shared_claims_in_sequence<B: BorrowTracker>() {
    let mut t = B::new(5);
    assert_eq!(t.into_state(), vec![Not, Not, Not, Not, Not]);
    assert_eq!(t.add_shr(0, 2), Ok(()));
    assert_eq!(t.into_state(), vec![Shared(1), Shared(1), Not, Not, Not]);
    assert_eq!(t.add_shr(1, 3), Ok(()));
    assert_eq!(t.into_state(), vec![Shared(1), Shared(2), Shared(1), Not, Not]);
    assert_eq!(t.rm_shr(0, 2), Ok(()));
    assert_eq!(t.into_state(), vec![Not, Shared(1), Shared(1), Not, Not]);
    assert_eq!(t.rm_shr(1, 3), Ok(()));
    assert_eq!(t.into_state(), vec![Not, Not, Not, Not, Not]);
}

#[test]
fn compressed_shared_claims_in_sequence() {
    shared_claims_in_sequence::<BTreeTracker>();
}

#[test]
fn dense_shared_claims_in_sequence() {
    shared_claims_in_sequence::<VecTracker>();
}

#[test]
fn compressed_refused_claim_changes_nothing() {
    let mut t = BTreeTracker::new(4);
    assert_eq!(t.add_mut(1, 3), Ok(()));
    let before = t.into_state();
    assert_eq!(before, vec![Not, Mutable, Mutable, Not]);
    assert_eq!(t.add_shr(0, 2), Err(InvalidTransition));
    assert_eq!(t.into_state(), before);
    assert_eq!(t.add_shr(0, 1), Ok(()));
    assert_eq!(t.into_state(), vec![Shared(1), Mutable, Mutable, Not]);
}

#[test]
fn dense_refused_claim_keeps_the_units_before_the_conflict() {
    let mut t = VecTracker::new(4);
    assert_eq!(t.add_mut(1, 3), Ok(()));
    assert_eq!(t.add_shr(0, 2), Err(InvalidTransition));
    assert_eq!(t.into_state(), vec![Shared(1), Mutable, Mutable, Not]);
}

#[test]
fn dense_refused_at_first_unit_changes_nothing() {
    let mut t = VecTracker::new(3);
    assert_eq!(t.add_mut(0, 3), Ok(()));
    assert_eq!(t.add_mut(0, 2), Err(InvalidTransition));
    assert_eq!(t.into_state(), vec![Mutable, Mutable, Mutable]);
}

fn every_error_variant<B: BorrowTracker>() {
    let mut t = B::new(3);
    assert_eq!(t.rm_shr(0, 1), Err(InvalidTransition));
    assert_eq!(t.rm_mut(0, 1), Err(InvalidTransition));
    assert_eq!(t.add_mut(0, 1), Ok(()));
    assert_eq!(t.add_mut(0, 1), Err(InvalidTransition));
    assert_eq!(t.add_shr(0, 1), Err(InvalidTransition));
    assert_eq!(t.rm_shr(0, 1), Err(InvalidTransition));
    assert_eq!(t.add_shr(1, 3), Ok(()));
    assert_eq!(t.add_mut(1, 2), Err(InvalidTransition));
    assert_eq!(t.rm_mut(1, 2), Err(InvalidTransition));
    assert_eq!(t.into_state(), vec![Mutable, Shared(1), Shared(1)]);
}

#[test]
fn compressed_every_error_variant() {
    every_error_variant::<BTreeTracker>();
}

#[test]
fn dense_every_error_variant() {
    every_error_variant::<VecTracker>();
}

fn split_inside_a_claimed_run<B: BorrowTracker>() {
    let mut t = B::new(8);
    assert_eq!(t.add_shr(1, 7), Ok(()));
    assert_eq!(t.add_shr(3, 5), Ok(()));
    assert_eq!(
        t.into_state(),
        vec![Not, Shared(1), Shared(1), Shared(2), Shared(2), Shared(1), Shared(1), Not]
    );
    assert_eq!(t.add_shr(0, 4), Ok(()));
    assert_eq!(
        t.into_state(),
        vec![Shared(1), Shared(2), Shared(2), Shared(3), Shared(2), Shared(1), Shared(1), Not]
    );
    assert_eq!(t.add_shr(6, 8), Ok(()));
    assert_eq!(
        t.into_state(),
        vec![Shared(1), Shared(2), Shared(2), Shared(3), Shared(2), Shared(1), Shared(2), Shared(1)]
    );
}

#[test]
fn compressed_split_inside_a_claimed_run() {
    split_inside_a_claimed_run::<BTreeTracker>();
}

#[test]
fn dense_split_inside_a_claimed_run() {
    split_inside_a_claimed_run::<VecTracker>();
}

fn release_of_a_part_of_a_claim<B: BorrowTracker>() {
    let mut t = B::new(5);
    assert_eq!(t.add_mut(0, 4), Ok(()));
    assert_eq!(t.rm_mut(1, 3), Ok(()));
    assert_eq!(t.into_state(), vec![Mutable, Not, Not, Mutable, Not]);
    assert_eq!(t.add_shr(1, 3), Ok(()));
    assert_eq!(t.rm_shr(2, 3), Ok(()));
    assert_eq!(t.into_state(), vec![Mutable, Shared(1), Not, Mutable, Not]);
}

#[test]
fn compressed_release_of_a_part_of_a_claim() {
    release_of_a_part_of_a_claim::<BTreeTracker>();
}

#[test]
fn dense_release_of_a_part_of_a_claim() {
    release_of_a_part_of_a_claim::<VecTracker>();
}

fn whole_buffer_and_single_units<B: BorrowTracker>() {
    let mut t = B::new(3);
    assert_eq!(t.add_mut(0, 3), Ok(()));
    assert_eq!(t.into_state(), vec![Mutable, Mutable, Mutable]);
    assert_eq!(t.rm_mut(0, 3), Ok(()));
    assert_eq!(t.add_shr(2, 3), Ok(()));
    assert_eq!(t.add_mut(1, 2), Ok(()));
    assert_eq!(t.into_state(), vec![Not, Mutable, Shared(1)]);
    let empty = B::new(0);
    assert_eq!(empty.into_state(), Vec::<BorrowState>::new());
}

#[test]
fn compressed_whole_buffer_and_single_units() {
    whole_buffer_and_single_units::<BTreeTracker>();
}

#[test]
fn dense_whole_buffer_and_single_units() {
    whole_buffer_and_single_units::<VecTracker>();
}

#[test]
fn round_trip_restores_unclaimed_buffer() {
    for len in 1..7usize {
        for i in 0..len {
            for j in (i + 1)..=len {
                let mut c = BTreeTracker::new(len);
                let mut d = VecTracker::new(len);
                assert_eq!(c.add_shr(i, j), Ok(()));
                assert_eq!(d.add_shr(i, j), Ok(()));
                assert_eq!(c.into_state(), d.into_state());
                assert_eq!(c.rm_shr(i, j), Ok(()));
                assert_eq!(d.rm_shr(i, j), Ok(()));
                assert_eq!(c.into_state(), vec![Not; len]);
                assert_eq!(d.into_state(), vec![Not; len]);
            }
        }
    }
}

#[test]
fn coalesce_changes_no_unit() {
    let mut t = BTreeTracker::new(6);
    assert_eq!(t.add_shr(0, 2), Ok(()));
    assert_eq!(t.add_shr(2, 4), Ok(()));
    assert_eq!(t.add_mut(4, 5), Ok(()));
    assert_eq!(t.rm_mut(4, 5), Ok(()));
    let before = t.into_state();
    assert_eq!(before, vec![Shared(1), Shared(1), Shared(1), Shared(1), Not, Not]);
    t.coalesce();
    assert_eq!(t.into_state(), before);
}

#[test]
fn operations_after_coalesce_match_those_without() {
    let mut plain = BTreeTracker::new(6);
    let mut packed = BTreeTracker::new(6);
    for t in [&mut plain, &mut packed] {
        assert_eq!(t.add_shr(0, 2), Ok(()));
        assert_eq!(t.add_shr(2, 4), Ok(()));
    }
    packed.coalesce();
    assert_eq!(plain.rm_shr(0, 2), Ok(()));
    assert_eq!(packed.rm_shr(0, 2), Ok(()));
    assert_eq!(packed.into_state(), vec![Not, Not, Shared(1), Shared(1), Not, Not]);
    assert_eq!(plain.into_state(), packed.into_state());
    packed.coalesce();
    assert_eq!(plain.rm_shr(2, 4), Ok(()));
    assert_eq!(packed.rm_shr(2, 4), Ok(()));
    packed.coalesce();
    assert_eq!(plain.into_state(), vec![Not; 6]);
    assert_eq!(packed.into_state(), vec![Not; 6]);
}

#[test]
fn compressed_tracks_a_buffer_of_the_greatest_length() {
    let len = usize::MAX;
    let mut t = BTreeTracker::new(len);
    assert_eq!(t.add_shr(len - 2, len), Ok(()));
    assert_eq!(t.add_mut(len - 1, len), Err(InvalidTransition));
    assert_eq!(t.add_mut(len - 3, len - 2), Ok(()));
    assert_eq!(t.add_shr(0, len), Err(InvalidTransition));
    assert_eq!(t.rm_mut(len - 3, len - 2), Ok(()));
    assert_eq!(t.add_shr(0, len), Ok(()));
    assert_eq!(t.rm_shr(len - 2, len), Ok(()));
    assert_eq!(t.rm_shr(0, len), Ok(()));
    assert_eq!(t.rm_shr(0, 1), Err(InvalidTransition));
    t.coalesce();
    assert_eq!(t.add_mut(0, len), Ok(()));
}

#[test]
fn compressed_claim_takes_over_the_state_of_the_run_it_splits() {
    let mut t = BTreeTracker::new(10);
    assert_eq!(t.add_shr(2, 8), Ok(()));
    assert_eq!(t.add_shr(4, 6), Ok(()));
    assert_eq!(t.rm_shr(2, 8), Ok(()));
    assert_eq!(
        t.into_state(),
        vec![Not, Not, Not, Not, Shared(1), Shared(1), Not, Not, Not, Not]
    );
    assert_eq!(t.add_mut(6, 9), Ok(()));
    assert_eq!(t.add_mut(5, 7), Err(InvalidTransition));
    assert_eq!(t.add_shr(3, 5), Ok(()));
    assert_eq!(
        t.into_state(),
        vec![Not, Not, Not, Shared(1), Shared(2), Shared(1), Mutable, Mutable, Mutable, Not]
    );
}

#[test]
fn every_unit_is_free_or_shared_or_exclusive() {
    let mut t = BTreeTracker::new(6);
    assert_eq!(t.add_shr(0, 4), Ok(()));
    assert_eq!(t.add_shr(2, 5), Ok(()));
    assert_eq!(t.add_mut(5, 6), Ok(()));
    assert_eq!(t.rm_shr(0, 4), Ok(()));
    for unit in t.into_state() {
        match unit {
            Not | Mutable => {}
            Shared(n) => assert!(n >= 1),
        }
    }
}
