//! Error taxonomy and the checked-arithmetic layer over a single scaled
//! 128-bit integer (18-decimal fixed point).

use vstd::prelude::*;

verus! {

/// Scale constant: `1.0` in 18-decimal fixed point.
pub const WAD: u128 = 1_000_000_000_000_000_000;

/// Half of [`WAD`].
pub const HALF_WAD: u128 = WAD / 2;

/// Scale used by the checked-decimal operations.
pub const SCALE: u128 = 1_000_000_000_000_000_000;

/// Basis-point scaler: one unit is a hundredth of a percent.
pub const BIPS_SCALER: u128 = 10_000;

/// Percent scaler.
pub const PERCENT_SCALER: u128 = 100;

/// Every failure the library's fallible operations can report.
#[derive(Debug, Clone, Copy, PartialEq, Eq)]
pub enum MathError {
    /// A checked operation exceeded the representable range.
    Overflow,
    /// A checked subtraction went below zero.
    Underflow,
    /// A divisor was zero.
    DivisionByZero,
    /// A parsed character was not an ASCII decimal digit.
    InvalidDigit,
    /// An arbitrary-precision subtrahend exceeded its minuend.
    SubtractionUnderflow,
}

/// 18-decimal fixed-point value over a `u128`.
#[derive(Clone, Copy, PartialEq, Eq)]
pub struct Decimal(pub u128);

/// 18-decimal fixed-point rate over a `u128`.
#[derive(Clone, Copy, PartialEq, Eq)]
pub struct Rate(pub u128);

/// A 128-bit little-endian byte pattern.
#[derive(Clone, Copy, PartialEq, Eq)]
pub struct U128(pub [u8; 16]);

/// A 192-bit little-endian byte pattern.
#[derive(Clone, Copy, PartialEq, Eq)]
pub struct U192(pub [u8; 24]);

/// Checked addition returning a typed error instead of wrapping or panicking.
pub trait TryAdd: Sized {
    /// What [`TryAdd::try_add`] returns.
    spec fn try_add_spec(self, rhs: Self) -> Result<Self, MathError>;

    fn try_add(self, rhs: Self) -> (r: Result<Self, MathError>)
        ensures
            r == self.try_add_spec(rhs),
    ;
}

/// Checked subtraction returning a typed error instead of wrapping or panicking.
pub trait TrySub: Sized {
    /// What [`TrySub::try_sub`] returns.
    spec fn try_sub_spec(self, rhs: Self) -> Result<Self, MathError>;

    fn try_sub(self, rhs: Self) -> (r: Result<Self, MathError>)
        ensures
            r == self.try_sub_spec(rhs),
    ;
}

/// Checked scaled multiplication returning a typed error on overflow.
pub trait TryMul: Sized {
    /// What [`TryMul::try_mul`] returns.
    spec fn try_mul_spec(self, rhs: Self) -> Result<Self, MathError>;

    fn try_mul(self, rhs: Self) -> (r: Result<Self, MathError>)
        ensures
            r == self.try_mul_spec(rhs),
    ;
}

/// Checked scaled division returning a typed error on overflow or zero divisor.
pub trait TryDiv: Sized {
    /// What [`TryDiv::try_div`] returns.
    spec fn try_div_spec(self, rhs: Self) -> Result<Self, MathError>;

    fn try_div(self, rhs: Self) -> (r: Result<Self, MathError>)
        ensures
            r == self.try_div_spec(rhs),
    ;
}

impl TryAdd for Decimal {
    open spec fn try_add_spec(self, rhs: Self) -> Result<Self, MathError> {
        if self.0 + rhs.0 <= u128::MAX {
            Ok(Decimal((self.0 + rhs.0) as u128))
        } else {
            Err(MathError::Overflow)
        }
    }

    fn try_add(self, rhs: Self) -> (r: Result<Self, MathError>) {
        match self.0.checked_add(rhs.0) {
            Some(x) => Ok(Decimal(x)),
            None => Err(MathError::Overflow),
        }
    }
}

impl TrySub for Decimal {
    open spec fn try_sub_spec(self, rhs: Self) -> Result<Self, MathError> {
        if self.0 >= rhs.0 {
            Ok(Decimal((self.0 - rhs.0) as u128))
        } else {
            Err(MathError::Underflow)
        }
    }

    fn try_sub(self, rhs: Self) -> (r: Result<Self, MathError>) {
        match self.0.checked_sub(rhs.0) {
            Some(x) => Ok(Decimal(x)),
            None => Err(MathError::Underflow),
        }
    }
}

impl TryMul for Decimal {
    open spec fn try_mul_spec(self, rhs: Self) -> Result<Self, MathError> {
        if self.0 * rhs.0 <= u128::MAX {
            Ok(Decimal(((self.0 * rhs.0) / (SCALE as int)) as u128))
        } else {
            Err(MathError::Overflow)
        }
    }

    fn try_mul(self, rhs: Self) -> (r: Result<Self, MathError>) {
        match self.0.checked_mul(rhs.0) {
            Some(x) => Ok(Decimal(x / SCALE)),
            None => Err(MathError::Overflow),
        }
    }
}

impl TryDiv for Decimal {
    open spec fn try_div_spec(self, rhs: Self) -> Result<Self, MathError> {
        if rhs.0 == 0 {
            Err(MathError::DivisionByZero)
        } else if self.0 * SCALE <= u128::MAX {
            Ok(Decimal(((self.0 * SCALE) / (rhs.0 as int)) as u128))
        } else {
            Err(MathError::Overflow)
        }
    }

    fn try_div(self, rhs: Self) -> (r: Result<Self, MathError>) {
        if rhs.0 == 0 {
            Err(MathError::DivisionByZero)
        } else {
            match self.0.checked_mul(SCALE) {
                Some(x) => Ok(Decimal(x / rhs.0)),
                None => Err(MathError::Overflow),
            }
        }
    }
}

} // verus!
