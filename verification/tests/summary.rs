use hourus::summary::{sums_fit, total_of};
use hourus::time::MAX_DELTA;

fn row(name: &str, d: i128) -> (String, i128) {
    (name.to_string(), d)
}

#[test]
fn total_of_adds_rows_in_order() {
    assert_eq!(total_of(&[]), Some(0));
    assert_eq!(total_of(&[row("a", 30), row("b", -10), row("c", 5)]), Some(25));
}

#[test]
fn total_of_refuses_a_running_sum_beyond_a_duration() {
    // the sum comes back in range, but the first running sum already left it
    assert_eq!(total_of(&[row("a", MAX_DELTA), row("b", 1), row("c", -5)]), None);
    assert_eq!(total_of(&[row("a", -MAX_DELTA), row("b", -1)]), None);
    assert_eq!(total_of(&[row("a", MAX_DELTA), row("b", -1), row("c", 1)]), Some(MAX_DELTA));
}

#[test]
fn sums_fit_bounds_positive_parts_and_whole_sum() {
    assert!(sums_fit(&[row("a", MAX_DELTA), row("b", -MAX_DELTA)]));
    assert!(!sums_fit(&[row("a", MAX_DELTA), row("b", 1), row("c", -5)]));
    assert!(!sums_fit(&[row("a", -MAX_DELTA), row("b", -1)]));
}
