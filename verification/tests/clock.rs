use alacritty::clock::{millis_from, now_millis};

#[test]
fn millis_before_the_epoch_are_zero() {
    assert_eq!(millis_from(None), 0);
}

#[test]
fn millis_truncate_the_nanoseconds() {
    assert_eq!(millis_from(Some((0, 0))), 0);
    assert_eq!(millis_from(Some((2, 5_999_999))), 2005);
    assert_eq!(millis_from(Some((1, 999_999_999))), 1999);
    assert_eq!(
        millis_from(Some((u64::MAX, 999_999_999))),
        u64::MAX as u128 * 1000 + 999
    );
}

#[test]
fn now_reads_the_clock() {
    // Any clock after 2001-09-09 reads above 10^12 milliseconds.
    let a = now_millis();
    assert!(a > 1_000_000_000_000);
    assert!(now_millis() >= a);
}
