use uinfinite::math::Decimal;
use uinfinite::math::MathError;
use uinfinite::math::TryAdd;
use uinfinite::math::TryDiv;
use uinfinite::math::TryMul;
use uinfinite::math::TrySub;
use uinfinite::math::SCALE;

#[test]
fn try_add_basic_and_overflow() {
    assert!(Decimal(2).try_add(Decimal(3)).unwrap() == Decimal(5));
    assert!(matches!(Decimal(u128::MAX).try_add(Decimal(1)), Err(MathError::Overflow)));
    assert!(Decimal(u128::MAX).try_add(Decimal(0)).unwrap() == Decimal(u128::MAX));
}

#[test]
fn try_sub_basic_and_underflow() {
    assert!(Decimal(5).try_sub(Decimal(3)).unwrap() == Decimal(2));
    assert!(matches!(Decimal(3).try_sub(Decimal(5)), Err(MathError::Underflow)));
    assert!(Decimal(5).try_sub(Decimal(5)).unwrap() == Decimal(0));
}

#[test]
fn try_mul_scales_down() {
    let two = Decimal(2 * SCALE);
    let three = Decimal(3 * SCALE);
    assert!(two.try_mul(three).unwrap() == Decimal(6 * SCALE));
    assert!(Decimal(0).try_mul(three).unwrap() == Decimal(0));
}

#[test]
fn try_mul_overflow() {
    assert!(matches!(Decimal(u128::MAX).try_mul(Decimal(2)), Err(MathError::Overflow)));
}

#[test]
fn try_div_scales_up() {
    let six = Decimal(6 * SCALE);
    let three = Decimal(3 * SCALE);
    assert!(six.try_div(three).unwrap() == Decimal(2 * SCALE));
    // truncation towards zero
    assert!(Decimal(7).try_div(Decimal(2 * SCALE)).unwrap() == Decimal(3));
}

#[test]
fn try_div_by_zero() {
    assert!(matches!(Decimal(1).try_div(Decimal(0)), Err(MathError::DivisionByZero)));
}

#[test]
fn try_div_overflow() {
    assert!(matches!(Decimal(u128::MAX).try_div(Decimal(1)), Err(MathError::Overflow)));
}
