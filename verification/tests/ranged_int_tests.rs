use dose_response::ranged_int::RangedInt;
use std::i32::{MAX, MIN};

#[test]
fn new() {
    assert_eq!(RangedInt::new(1, 1, 1).value(), 1);
    assert_eq!(RangedInt::new(3, -3, 3).value(), 3);
    assert_eq!(RangedInt::new(-3, -3, 3).value(), -3);
}

#[test]
fn adding_positive() {
    assert_eq!(RangedInt::new(1, -5, 5) + 3, RangedInt::new(4, -5, 5));
    assert_eq!(RangedInt::new(1, -5, 5) + 4, RangedInt::new(5, -5, 5));
    assert_eq!(RangedInt::new(1, -5, 5) + 5, RangedInt::new(5, -5, 5));
    assert_eq!(RangedInt::new(1, -5, 5) + 6, RangedInt::new(5, -5, 5));
    assert_eq!(RangedInt::new(1, -5, 5) + 2938, RangedInt::new(5, -5, 5));
    assert_eq!(RangedInt::new(1, -5, 5) + MAX, RangedInt::new(5, -5, 5));
}

#[test]
fn adding_negative() {
    assert_eq!(RangedInt::new(1, -5, 5) + (-1), RangedInt::new(0, -5, 5));
    assert_eq!(RangedInt::new(1, -5, 5) + (-5), RangedInt::new(-4, -5, 5));
    assert_eq!(RangedInt::new(1, -5, 5) + (-6), RangedInt::new(-5, -5, 5));
    assert_eq!(RangedInt::new(1, -5, 5) + (-7), RangedInt::new(-5, -5, 5));
    assert_eq!(RangedInt::new(1, -5, 5) + (-9328), RangedInt::new(-5, -5, 5));
    assert_eq!(RangedInt::new(1, -5, 5) + MIN, RangedInt::new(-5, -5, 5));
}

#[test]
fn subtracting_positive() {
    assert_eq!(RangedInt::new(1, -5, 5) - 1, RangedInt::new(0, -5, 5));
    assert_eq!(RangedInt::new(1, -5, 5) - 5, RangedInt::new(-4, -5, 5));
    assert_eq!(RangedInt::new(1, -5, 5) - 6, RangedInt::new(-5, -5, 5));
    assert_eq!(RangedInt::new(1, -5, 5) - 7, RangedInt::new(-5, -5, 5));
    assert_eq!(RangedInt::new(1, -5, 5) - 9328, RangedInt::new(-5, -5, 5));
    assert_eq!(RangedInt::new(1, -5, 5) - MAX, RangedInt::new(-5, -5, 5));
}

#[test]
fn subtracting_negative() {
    assert_eq!(RangedInt::new(1, -5, 5) - (-3), RangedInt::new(4, -5, 5));
    assert_eq!(RangedInt::new(1, -5, 5) - (-4), RangedInt::new(5, -5, 5));
    assert_eq!(RangedInt::new(1, -5, 5) - (-5), RangedInt::new(5, -5, 5));
    assert_eq!(RangedInt::new(1, -5, 5) - (-6), RangedInt::new(5, -5, 5));
    assert_eq!(RangedInt::new(1, -5, 5) - (-2938), RangedInt::new(5, -5, 5));
    assert_eq!(RangedInt::new(1, -5, 5) - MIN, RangedInt::new(5, -5, 5));
}

#[test]
fn add_assign_positive() {
    let mut a = RangedInt::new(1, -5, 5);
    a += 3;
    assert_eq!(a, RangedInt::new(4, -5, 5));
    a += 1;
    assert_eq!(a, RangedInt::new(5, -5, 5));
    a += 1;
    assert_eq!(a, RangedInt::new(5, -5, 5));
    a += 23898923;
    assert_eq!(a, RangedInt::new(5, -5, 5));
    a += MAX;
    assert_eq!(a, RangedInt::new(5, -5, 5));
}

#[test]
fn add_assign_negative() {
    let mut b = RangedInt::new(1, -5, 5);
    b += -5;
    assert_eq!(b, RangedInt::new(-4, -5, 5));
    b += -1;
    assert_eq!(b, RangedInt::new(-5, -5, 5));
    b += -1;
    assert_eq!(b, RangedInt::new(-5, -5, 5));
    b += -23898923;
    assert_eq!(b, RangedInt::new(-5, -5, 5));
    b += MIN;
    assert_eq!(b, RangedInt::new(-5, -5, 5));
}

#[test]
fn sub_assign_positive() {
    let mut a = RangedInt::new(1, -5, 5);
    a -= 5;
    assert_eq!(a, RangedInt::new(-4, -5, 5));
    a -= 1;
    assert_eq!(a, RangedInt::new(-5, -5, 5));
    a -= 1;
    assert_eq!(a, RangedInt::new(-5, -5, 5));
    a -= 389832;
    assert_eq!(a, RangedInt::new(-5, -5, 5));
    a -= MAX;
    assert_eq!(a, RangedInt::new(-5, -5, 5));
}

#[test]
fn sub_assign_negative() {
    let mut b = RangedInt::new(1, -5, 5);
    b -= -3;
    assert_eq!(b, RangedInt::new(4, -5, 5));
    b -= -1;
    assert_eq!(b, RangedInt::new(5, -5, 5));
    b -= -1;
    assert_eq!(b, RangedInt::new(5, -5, 5));
    b -= -389832;
    assert_eq!(b, RangedInt::new(5, -5, 5));
    b -= MIN;
    assert_eq!(b, RangedInt::new(5, -5, 5));
}

#[test]
fn setters_and_ends_of_the_range() {
    let mut r = RangedInt::new_min(2, 9);
    assert!(r.is_min());
    assert!(!r.is_max());
    r.set(9);
    assert!(r.is_max());
    r.set_to_min();
    assert_eq!(r.value(), 2);
    r.set_to_max();
    assert_eq!(r.value(), 9);
    assert_eq!(r.min(), 2);
    assert_eq!(r.max(), 9);
    assert_eq!(RangedInt::new_max(2, 9).value(), 9);
}

#[test]
fn middle_rounds_towards_zero() {
    assert_eq!(RangedInt::new(0, 0, 10).middle(), 5);
    assert_eq!(RangedInt::new(0, 0, 11).middle(), 5);
    assert_eq!(RangedInt::new(0, -11, 0).middle(), -5);
    assert_eq!(RangedInt::new(0, MIN, MAX).middle(), 0);
    assert_eq!(RangedInt::new(MAX, MAX, MAX).middle(), MAX);
}
