use collatz::predicate::{check_batch, find_circle, Trajectory, Unsettled, DEFAULT_MAX_PROVEN_NUMBER};

const B: u128 = DEFAULT_MAX_PROVEN_NUMBER;

#[test]
fn small_numbers_descend_at_once() {
    assert_eq!(find_circle(5, 0), Trajectory::Descended);
    assert_eq!(find_circle(B, 0), Trajectory::Descended);
}

#[test]
fn odd_number_halves_below_bound() {
    assert_eq!(find_circle(B + 1, 1), Trajectory::Descended);
    assert_eq!(find_circle(B + 1, 0), Trajectory::StepLimit);
}

#[test]
fn even_number_needs_two_steps() {
    assert_eq!(find_circle(B + 2, 1), Trajectory::StepLimit);
    assert_eq!(find_circle(B + 2, 2), Trajectory::Descended);
    assert_eq!(find_circle(B + 4, 79), Trajectory::StepLimit);
    assert_eq!(find_circle(B + 4, 80), Trajectory::Descended);
}

#[test]
fn large_even_number_overflows() {
    assert_eq!(find_circle(u128::MAX - 1, 1000), Trajectory::Overflow);
    assert_eq!(find_circle(u128::MAX, 3), Trajectory::StepLimit);
}

#[test]
fn batch_without_circles() {
    assert_eq!(check_batch(B, 10, 1000), Ok(vec![]));
    assert_eq!(check_batch(0, 0, 0), Ok(vec![]));
}

#[test]
fn batch_reports_first_unsettled() {
    assert_eq!(
        check_batch(B, 5, 1),
        Err(Unsettled { number: B + 2, outcome: Trajectory::StepLimit })
    );
    assert_eq!(
        check_batch(u128::MAX - 3, 2, 1000),
        Err(Unsettled { number: u128::MAX - 3, outcome: Trajectory::Overflow })
    );
}
