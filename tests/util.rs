use sandfall::util::wrap;

#[test]
fn test_negative_wrap() {
    assert_eq!(wrap(-1, 0, 100), 99);
}

#[test]
fn test_positive_wrap() {
    assert_eq!(wrap(100, 0, 100), 0);
}

#[test]
fn test_no_wrap() {
    assert_eq!(wrap(10, 0, 100), 10);
}

#[test]
fn wrap_stays_in_range_for_extremes() {
    for i in [i32::MIN, -201, -200, -101, -100, -99, -1, 0, 1, 99, 100, 101, 250, i32::MAX] {
        let r = wrap(i, 0, 100);
        assert!((0..100).contains(&r), "wrap({}) = {}", i, r);
        assert_eq!(r as i64, (i as i64).rem_euclid(100));
    }
}

#[test]
fn wrap_with_nonzero_lower_bound() {
    assert_eq!(wrap(-3, -2, 3), 2);
    assert_eq!(wrap(3, -2, 3), -2);
    assert_eq!(wrap(i32::MIN, i32::MIN, i32::MAX), i32::MIN);
    assert_eq!(wrap(i32::MAX, i32::MIN, i32::MAX), i32::MIN);
}
