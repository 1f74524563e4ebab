use autodiff::Scalar;

#[test]
fn zero_is_the_additive_identity() {
    assert_eq!(<i32 as Scalar>::zero(), 0);
    assert_eq!(<i64 as Scalar>::zero(), 0);
    assert_eq!(17i32.plus(Scalar::zero()), 17);
    assert_eq!(<i64 as Scalar>::zero().plus(-9), -9);
}

#[test]
fn one_is_the_multiplicative_identity() {
    assert_eq!(<i32 as Scalar>::one(), 1);
    assert_eq!(<i64 as Scalar>::one(), 1);
    assert_eq!(17i32.times(Scalar::one()), 17);
    assert_eq!(<i64 as Scalar>::one().times(-9), -9);
}

#[test]
fn plus_adds() {
    assert_eq!(2i32.plus(3), 5);
    assert_eq!((-2i64).plus(-3), -5);
}

#[test]
fn times_multiplies() {
    assert_eq!(2i32.times(3), 6);
    assert_eq!((-4i64).times(5), -20);
}

#[test]
fn plus_wraps_at_the_ends_of_the_range() {
    assert_eq!(i32::MAX.plus(1), i32::MIN);
    assert_eq!(i32::MIN.plus(-1), i32::MAX);
    assert_eq!(i64::MAX.plus(1), i64::MIN);
    assert_eq!(i64::MIN.plus(-1), i64::MAX);
    assert_eq!(i64::MIN.plus(i64::MIN), 0);
}

#[test]
fn times_wraps_at_the_ends_of_the_range() {
    assert_eq!(i32::MAX.times(2), -2);
    assert_eq!(i32::MIN.times(-1), i32::MIN);
    assert_eq!(65_536i32.times(65_536), 0);
    assert_eq!(i64::MAX.times(i64::MAX), 1);
    assert_eq!(4_294_967_296i64.times(4_294_967_296), 0);
}
