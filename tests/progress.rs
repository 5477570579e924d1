use collatz::progress::{should_report, status_line};

#[test]
fn status_line_groups_digits() {
    assert_eq!(
        status_line(1234567, 5000, Some(18446744073709551616), 3, 12),
        "Batch: 1,234,567, Time: 5,000ms, Max number: 18,446,744,073,709,551,616, Channel size: 3, Backlog size: 12"
    );
}

#[test]
fn status_line_before_first_batch() {
    assert_eq!(
        status_line(0, 999, None, 1000, 0),
        "Batch: 0, Time: 999ms, Max number: none, Channel size: 1,000, Backlog size: 0"
    );
}

#[test]
fn report_cadence() {
    assert!(should_report(0, 100));
    assert!(!should_report(99, 100));
    assert!(should_report(200, 100));
    assert!(should_report(7, 1));
}
