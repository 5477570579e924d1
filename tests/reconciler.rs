use collatz::frontier::ReportError;
use collatz::pending::Strategy;
use collatz::reconciler::Reconciler;

const STRATEGIES: [Strategy; 4] = [
    Strategy::FixedSlots,
    Strategy::Hashed,
    Strategy::List,
    Strategy::MinOrdered,
];

fn trajectory(strategy: Strategy, start: u128, batch: u128, events: &[u128]) -> Vec<Option<u128>> {
    let mut r = Reconciler::new(strategy, start, batch, 4);
    let mut out = Vec::new();
    for &e in events {
        assert_eq!(r.report(e), Ok(()));
        out.push(r.highest_contiguous_proven());
    }
    out
}

#[test]
fn scenario_out_of_order_events() {
    for strategy in STRATEGIES {
        let mut r = Reconciler::new(strategy, 0, 10, 4);
        assert_eq!(r.report(20), Ok(()));
        assert_eq!(r.highest_contiguous_proven(), None);
        assert!(r.is_pending(20));
        assert_eq!(r.pending_size(), 1);

        assert_eq!(r.report(0), Ok(()));
        assert_eq!(r.highest_contiguous_proven(), Some(0));
        assert_eq!(r.pending_size(), 1);

        assert_eq!(r.report(10), Ok(()));
        assert_eq!(r.highest_contiguous_proven(), Some(20));
        assert_eq!(r.pending_size(), 0);

        assert_eq!(r.report(10), Err(ReportError::AlreadyProven));
        assert_eq!(r.highest_contiguous_proven(), Some(20));

        assert_eq!(r.report(40), Ok(()));
        assert_eq!(r.highest_contiguous_proven(), Some(20));
        assert!(r.is_pending(40));
        assert_eq!(r.pending_size(), 1);

        assert_eq!(r.report(30), Ok(()));
        assert_eq!(r.highest_contiguous_proven(), Some(40));
        assert_eq!(r.pending_size(), 0);
        assert_eq!(r.next_expected(), 50);
    }
}

#[test]
fn absorbed_batch_reported_again_is_flagged() {
    for strategy in STRATEGIES {
        let mut r = Reconciler::new(strategy, 0, 10, 2);
        assert_eq!(r.report(20), Ok(()));
        assert_eq!(r.report(0), Ok(()));
        assert_eq!(r.report(10), Ok(()));
        assert_eq!(r.report(20), Err(ReportError::AlreadyProven));
        assert_eq!(r.report(0), Err(ReportError::AlreadyProven));
        assert_eq!(r.highest_contiguous_proven(), Some(20));
    }
}

#[test]
fn pending_batch_reported_again_is_flagged() {
    for strategy in STRATEGIES {
        let mut r = Reconciler::new(strategy, 100, 5, 2);
        assert_eq!(r.report(115), Ok(()));
        assert_eq!(r.report(115), Err(ReportError::AlreadyPending));
        assert_eq!(r.pending_size(), 1);
        assert_eq!(r.highest_contiguous_proven(), None);
    }
}

#[test]
fn stray_values_are_misaligned() {
    for strategy in STRATEGIES {
        let mut r = Reconciler::new(strategy, 100, 5, 2);
        assert_eq!(r.report(95), Err(ReportError::Misaligned));
        assert_eq!(r.report(101), Err(ReportError::Misaligned));
        assert_eq!(r.report(0), Err(ReportError::Misaligned));
        assert_eq!(r.pending_size(), 0);
        assert_eq!(r.next_expected(), 100);
    }
}

#[test]
fn batch_past_the_top_overflows() {
    for strategy in STRATEGIES {
        let mut r = Reconciler::new(strategy, 0, 1u128 << 126, 2);
        assert_eq!(r.report(3u128 << 126), Err(ReportError::Overflow));
        assert_eq!(r.report(2u128 << 126), Ok(()));
        assert_eq!(r.pending_size(), 1);
    }
}

#[test]
fn first_batch_advances_immediately() {
    for strategy in STRATEGIES {
        let start: u128 = 1u128 << 64;
        let mut r = Reconciler::new(strategy, start, 1000, 8);
        assert_eq!(r.highest_contiguous_proven(), None);
        assert_eq!(r.report(start), Ok(()));
        assert_eq!(r.highest_contiguous_proven(), Some(start));
        assert_eq!(r.pending_size(), 0);
        assert_eq!(r.start_boundary(), start);
        assert_eq!(r.batch_size(), 1000);
    }
}

#[test]
fn any_permutation_reaches_last() {
    let orders: [[u128; 6]; 4] = [
        [0, 1, 2, 3, 4, 5],
        [5, 4, 3, 2, 1, 0],
        [3, 1, 5, 0, 4, 2],
        [1, 2, 3, 4, 5, 0],
    ];
    for strategy in STRATEGIES {
        for order in orders.iter() {
            let events: Vec<u128> = order.iter().map(|k| 7 + k * 3).collect();
            let mut r = Reconciler::new(strategy, 7, 3, 2);
            for &e in events.iter() {
                assert_eq!(r.report(e), Ok(()));
            }
            assert_eq!(r.highest_contiguous_proven(), Some(7 + 5 * 3));
            assert_eq!(r.pending_size(), 0);
        }
    }
}

#[test]
fn frontier_never_decreases() {
    for strategy in STRATEGIES {
        let mut r = Reconciler::new(strategy, 0, 1, 3);
        let events: [u128; 10] = [4, 0, 0, 2, 1, 9, 3, 1, 5, 6];
        let mut last: Option<u128> = None;
        for e in events {
            let _ = r.report(e);
            let now = r.highest_contiguous_proven();
            assert!(now >= last);
            last = now;
        }
        assert_eq!(last, Some(6));
    }
}

#[test]
fn pending_never_exceeds_in_flight() {
    for strategy in STRATEGIES {
        let mut r = Reconciler::new(strategy, 0, 10, 2);
        let events: [u128; 8] = [70, 50, 30, 10, 60, 0, 20, 40];
        let mut highest_claimed_end: u128 = 0;
        for e in events {
            highest_claimed_end = highest_claimed_end.max(e + 10);
            assert_eq!(r.report(e), Ok(()));
            let in_flight = (highest_claimed_end - r.next_expected()) / 10;
            assert!((r.pending_size() as u128) <= in_flight);
        }
        assert_eq!(r.highest_contiguous_proven(), Some(70));
    }
}

#[test]
fn fixed_slots_grow_past_their_size() {
    let mut r = Reconciler::new(Strategy::FixedSlots, 0, 1, 1);
    for e in [5u128, 4, 3, 2, 1] {
        assert_eq!(r.report(e), Ok(()));
    }
    assert_eq!(r.pending_size(), 5);
    assert_eq!(r.report(0), Ok(()));
    assert_eq!(r.highest_contiguous_proven(), Some(5));
    assert_eq!(r.pending_size(), 0);
}

#[test]
fn strategies_agree_on_trajectory() {
    let events: [u128; 9] = [16, 4, 8, 0, 28, 12, 24, 20, 32];
    let expected = trajectory(Strategy::List, 0, 4, &events);
    assert_eq!(
        expected,
        vec![None, None, None, Some(8), Some(8), Some(16), Some(16), Some(28), Some(32)]
    );
    for strategy in STRATEGIES {
        assert_eq!(trajectory(strategy, 0, 4, &events), expected);
    }
}
