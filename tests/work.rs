use collatz::work::{batch_start, WorkSource};

#[test]
fn sequential_claims_are_distinct_and_spaced() {
    let source = WorkSource::new(1u128 << 64, 100);
    let claims: Vec<u128> = (0..1000).map(|_| source.claim_batch().unwrap()).collect();
    for (k, &c) in claims.iter().enumerate() {
        assert_eq!(c, (1u128 << 64) + 100 * k as u128);
    }
    let mut sorted = claims.clone();
    sorted.dedup();
    assert_eq!(sorted.len(), 1000);
}

#[test]
fn batch_start_values() {
    assert_eq!(batch_start(0, 10, 0), Some(0));
    assert_eq!(batch_start(0, 10, 7), Some(70));
    assert_eq!(batch_start(5, 3, 4), Some(17));
    assert_eq!(batch_start(u128::MAX - 10, 10, 0), Some(u128::MAX - 10));
    assert_eq!(batch_start(u128::MAX - 10, 10, 1), None);
    assert_eq!(batch_start(0, 1u128 << 100, 1u128 << 30), None);
}

#[test]
fn claims_stop_at_the_top() {
    let source = WorkSource::new(u128::MAX - 25, 10);
    assert_eq!(source.claim_batch(), Some(u128::MAX - 25));
    assert_eq!(source.claim_batch(), Some(u128::MAX - 15));
    assert_eq!(source.claim_batch(), None);
}

