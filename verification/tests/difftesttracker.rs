use subslice::borrowtracker::BorrowTracker;
use subslice::btreetracker::BTreeTracker;
use subslice::equivalence::{perform, replay, BorrowAction};
use subslice::generator::ActionGenerator;
use subslice::vectracker::VecTracker;

struct Picks {
    state: u64,
}

impl Picks {
    fn next(&mut self) -> usize {
        self.state = self
            .state
            .wrapping_mul(6364136223846793005)
            .wrapping_add(1442695040888963407);
        (self.state >> 33) as usize
    }

    fn take(&mut self, n: usize) -> Vec<usize> {
        (0..n).map(|_| self.next()).collect()
    }
}

fn run_lockstep(len: usize, actions: &[BorrowAction]) {
    let mut reference = VecTracker::new(len);
    let mut btree = BTreeTracker::new(len);
    for (n, action) in actions.iter().enumerate() {
        let r = perform(&mut reference, *action);
        let b = perform(&mut btree, *action);
        assert!(r.is_ok(), "dense tracker refused step {} of {:?}", n, actions);
        assert!(b.is_ok(), "compressed tracker refused step {} of {:?}", n, actions);
        assert!(
            reference.into_state() == btree.into_state(),
            "trackers differ after step {} of {:?}",
            n,
            actions
        );
    }
    let refrresult = reference.into_state();
    let btreeresult = btree.into_state();
    assert!(refrresult == btreeresult);
}

#[test]
fn difftest() {
    let len = 5;
    let num_actions = 4;
    let g = ActionGenerator { len, num_actions };
    let mut picks = Picks { state: 0x5eed };
    for _ in 0..100 {
        let actions = g.generate(&picks.take(num_actions));
        assert_eq!(actions.len(), num_actions);
        let mut reference = VecTracker::new(len);
        let mut btree = BTreeTracker::new(len);
        for action in actions.iter() {
            match action {
                BorrowAction::AddShared(start, end) => {
                    reference.add_shr(*start, *end).unwrap();
                    btree.add_shr(*start, *end).unwrap();
                }
                BorrowAction::AddMutable(start, end) => {
                    reference.add_mut(*start, *end).unwrap();
                    btree.add_mut(*start, *end).unwrap();
                }
                BorrowAction::RmShared(start, end) => {
                    reference.rm_shr(*start, *end).unwrap();
                    btree.rm_shr(*start, *end).unwrap();
                }
                BorrowAction::RmMutable(start, end) => {
                    reference.rm_mut(*start, *end).unwrap();
                    btree.rm_mut(*start, *end).unwrap();
                }
            }
        }

        let refrresult = reference.into_state();
        let btreeresult = btree.into_state();

        assert!(refrresult == btreeresult)
    }
}

#[test]
fn difftest_every_prefix_of_long_sequences() {
    let mut picks = Picks { state: 42 };
    for len in 1..9usize {
        let g = ActionGenerator { len, num_actions: 40 };
        for _ in 0..40 {
            let actions = g.generate(&picks.take(40));
            assert_eq!(actions.len(), 40);
            run_lockstep(len, &actions);
        }
    }
}

#[test]
fn difftest_with_coalescing_after_every_action() {
    let mut picks = Picks { state: 7 };
    for len in 1..9usize {
        let g = ActionGenerator { len, num_actions: 40 };
        for _ in 0..40 {
            let actions = g.generate(&picks.take(40));
            let mut reference = VecTracker::new(len);
            let mut btree = BTreeTracker::new(len);
            for action in actions.iter() {
                assert!(perform(&mut reference, *action).is_ok());
                assert!(perform(&mut btree, *action).is_ok());
                btree.coalesce();
                assert!(reference.into_state() == btree.into_state());
            }
        }
    }
}

#[test]
fn generated_sequences_use_every_kind_of_action() {
    let mut picks = Picks { state: 99 };
    let g = ActionGenerator { len: 5, num_actions: 4 };
    let mut seen = [false; 4];
    for _ in 0..100 {
        for action in g.generate(&picks.take(4)) {
            match action {
                BorrowAction::AddShared(..) => seen[0] = true,
                BorrowAction::AddMutable(..) => seen[1] = true,
                BorrowAction::RmShared(..) => seen[2] = true,
                BorrowAction::RmMutable(..) => seen[3] = true,
            }
        }
    }
    assert_eq!(seen, [true; 4]);
}

#[test]
fn replay_stops_at_the_first_refused_action() {
    let actions = vec![
        BorrowAction::AddMutable(1, 3),
        BorrowAction::AddShared(3, 4),
        BorrowAction::AddShared(0, 2),
        BorrowAction::AddShared(0, 1),
    ];
    let mut btree = BTreeTracker::new(4);
    assert!(replay(&mut btree, &actions).is_err());
    let mut expected = BTreeTracker::new(4);
    assert!(replay(&mut expected, &actions[..2].to_vec()).is_ok());
    assert!(btree.into_state() == expected.into_state());
}

#[test]
fn replay_of_accepted_actions_matches_on_both_trackers() {
    let actions = vec![
        BorrowAction::AddShared(0, 3),
        BorrowAction::AddShared(2, 5),
        BorrowAction::AddMutable(5, 6),
        BorrowAction::RmShared(0, 3),
        BorrowAction::RmMutable(5, 6),
    ];
    let mut reference = VecTracker::new(6);
    let mut btree = BTreeTracker::new(6);
    assert!(replay(&mut reference, &actions).is_ok());
    assert!(replay(&mut btree, &actions).is_ok());
    assert!(reference.into_state() == btree.into_state());
}
