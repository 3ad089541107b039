//! Pure-integer Q64.64 fixed-point arithmetic over a raw `u128`: 64 integer
//! bits followed by 64 fractional bits. Any raw pattern is a legal value;
//! bounding the operands is the caller's concern.

use vstd::arithmetic::div_mod::lemma_fundamental_div_mod;
use vstd::arithmetic::div_mod::lemma_fundamental_div_mod_converse;
use vstd::prelude::*;

verus! {

/// The weight of one integer unit: two to the sixty-fourth power.
pub const FRAC_UNIT: u128 = 0x1_0000_0000_0000_0000;

/// One more than `u128::MAX`: the modulus of raw 128-bit arithmetic.
pub open spec fn raw_modulus() -> int {
    0x1_0000_0000_0000_0000_0000_0000_0000_0000int
}

/// Q64.64 fixed-point value over a raw `u128`; the value stood for is the
/// raw integer divided by two to the sixty-fourth power.
#[derive(Debug, Clone, Copy)]
pub struct U64F64(pub u128);

/// Adding modulo a positive `m` on the left operand of a sum does not change
/// the sum's residue.
proof fn lemma_mod_add_left(x: int, y: int, m: int)
    requires
        m > 0,
        x >= 0,
        y >= 0,
    ensures
        (x % m + y) % m == (x + y) % m,
{
    lemma_fundamental_div_mod(x, m);
    let rx = x % m;
    let qx = x / m;
    lemma_fundamental_div_mod(rx + y, m);
    let r2 = (rx + y) % m;
    let q2 = (rx + y) / m;
    assert(0 <= r2 < m) by (nonlinear_arith)
        requires
            m > 0,
            rx + y >= 0,
            r2 == (rx + y) % m,
    ;
    assert(x + y == m * (qx + q2) + r2) by (nonlinear_arith)
        requires
            x == m * qx + rx,
            rx + y == m * q2 + r2,
    ;
    lemma_fundamental_div_mod_converse(x + y, m, qx + q2, r2);
}

/// A multiple of a positive `m` added to `y` does not change the residue.
proof fn lemma_mod_multiple_vanish(k: int, y: int, m: int)
    requires
        m > 0,
        y >= 0,
        k >= 0,
    ensures
        (k * m + y) % m == y % m,
{
    lemma_fundamental_div_mod(y, m);
    let r = y % m;
    let q = y / m;
    assert(0 <= r < m) by (nonlinear_arith)
        requires
            m > 0,
            y >= 0,
            r == y % m,
    ;
    assert(k * m + y == m * (k + q) + r) by (nonlinear_arith)
        requires
            y == m * q + r,
    ;
    lemma_fundamental_div_mod_converse(k * m + y, m, k + q, r);
}

/// Addition modulo two to the one-hundred-twenty-eighth power.
fn wrap_add(x: u128, y: u128) -> (r: u128)
    ensures
        r as int == (x + y) % raw_modulus(),
{
    if y <= u128::MAX - x {
        proof {
            lemma_fundamental_div_mod_converse((x + y) as int, raw_modulus(), 0, (x + y) as int);
        }
        x + y
    } else {
        proof {
            lemma_fundamental_div_mod_converse(
                (x + y) as int,
                raw_modulus(),
                1,
                x + y - raw_modulus(),
            );
        }
        (x - (u128::MAX - y)) - 1
    }
}

impl U64F64 {
    /// The number of fractional bits.
    pub const FRACTIONAL_BITS: u32 = 64;

    /// The raw pattern that stands for the integer one.
    pub const ONE: u128 = FRAC_UNIT;

    /// Creates a value from an integer by shifting it into the integer bits.
    pub fn from_integer(x: u64) -> (r: Self)
        ensures
            r.0 == (x as int) * (FRAC_UNIT as int),
    {
        proof {
            assert(((x as u128) << 64) == (x as u128) * 0x1_0000_0000_0000_0000u128)
                by (bit_vector);
        }
        U64F64((x as u128) << 64)
    }

    /// Truncates the fractional bits and returns the integer part.
    pub fn to_integer(self) -> (r: u64)
        ensures
            r == self.0 / (FRAC_UNIT as u128),
    {
        proof {
            let v = self.0;
            assert(v == ((v >> 64) * 0x1_0000_0000_0000_0000u128) + (v
                & 0xFFFF_FFFF_FFFF_FFFFu128) && (v & 0xFFFF_FFFF_FFFF_FFFFu128)
                < 0x1_0000_0000_0000_0000u128 && (v >> 64) < 0x1_0000_0000_0000_0000u128)
                by (bit_vector);
            lemma_fundamental_div_mod_converse(
                v as int,
                FRAC_UNIT as int,
                (v >> 64) as int,
                (v & 0xFFFF_FFFF_FFFF_FFFFu128) as int,
            );
        }
        (self.0 >> 64) as u64
    }

    /// Direct addition on the raw integers; the caller bounds the inputs.
    pub fn add(self, other: U64F64) -> (r: U64F64)
        requires
            self.0 + other.0 <= u128::MAX,
        ensures
            r.0 == self.0 + other.0,
    {
        U64F64(self.0 + other.0)
    }

    /// Direct subtraction on the raw integers; the caller bounds the inputs.
    pub fn sub(self, other: U64F64) -> (r: U64F64)
        requires
            other.0 <= self.0,
        ensures
            r.0 == self.0 - other.0,
    {
        U64F64(self.0 - other.0)
    }

    /// True double-width multiplication via four partial products, recombined
    /// into the full product, shifted right by the fractional width, and
    /// truncated to the low one hundred twenty-eight bits.
    pub fn mul(self, other: U64F64) -> (r: U64F64)
        ensures
            r.0 as int == ((self.0 * other.0) / (FRAC_UNIT as int)) % raw_modulus(),
    {
        let a = self.0;
        let b = other.0;
        let ghost p = FRAC_UNIT as int;
        let ghost m = raw_modulus();
        proof {
            assert(a == ((a >> 64) * 0x1_0000_0000_0000_0000u128) + (a
                & 0xFFFF_FFFF_FFFF_FFFFu128) && (a & 0xFFFF_FFFF_FFFF_FFFFu128)
                < 0x1_0000_0000_0000_0000u128 && (a >> 64) < 0x1_0000_0000_0000_0000u128)
                by (bit_vector);
            assert(b == ((b >> 64) * 0x1_0000_0000_0000_0000u128) + (b
                & 0xFFFF_FFFF_FFFF_FFFFu128) && (b & 0xFFFF_FFFF_FFFF_FFFFu128)
                < 0x1_0000_0000_0000_0000u128 && (b >> 64) < 0x1_0000_0000_0000_0000u128)
                by (bit_vector);
        }
        let a_lo = a & 0xFFFF_FFFF_FFFF_FFFF;
        let a_hi = a >> 64;
        let b_lo = b & 0xFFFF_FFFF_FFFF_FFFF;
        let b_hi = b >> 64;
        proof {
            assert(a_lo * b_lo <= u128::MAX && a_lo * b_hi <= u128::MAX && a_hi * b_lo
                <= u128::MAX && a_hi * b_hi <= u128::MAX) by (nonlinear_arith)
                requires
                    a_lo < 0x1_0000_0000_0000_0000,
                    a_hi < 0x1_0000_0000_0000_0000,
                    b_lo < 0x1_0000_0000_0000_0000,
                    b_hi < 0x1_0000_0000_0000_0000,
                    u128::MAX == 0xFFFF_FFFF_FFFF_FFFF_FFFF_FFFF_FFFF_FFFFu128,
            ;
        }
        let lo_lo = a_lo * b_lo;
        let lo_hi = a_lo * b_hi;
        let hi_lo = a_hi * b_lo;
        let hi_hi = a_hi * b_hi;
        proof {
            assert(((hi_hi & 0xFFFF_FFFF_FFFF_FFFFu128) << 64) == (hi_hi
                & 0xFFFF_FFFF_FFFF_FFFFu128) * 0x1_0000_0000_0000_0000u128 && hi_hi == ((hi_hi
                >> 64) * 0x1_0000_0000_0000_0000u128) + (hi_hi & 0xFFFF_FFFF_FFFF_FFFFu128) && (
            hi_hi & 0xFFFF_FFFF_FFFF_FFFFu128) < 0x1_0000_0000_0000_0000u128) by (bit_vector);
            assert(lo_lo == ((lo_lo >> 64) * 0x1_0000_0000_0000_0000u128) + (lo_lo
                & 0xFFFF_FFFF_FFFF_FFFFu128) && (lo_lo & 0xFFFF_FFFF_FFFF_FFFFu128)
                < 0x1_0000_0000_0000_0000u128 && (lo_lo >> 64) < 0x1_0000_0000_0000_0000u128)
                by (bit_vector);
        }
        let mid_lo = (hi_hi & 0xFFFF_FFFF_FFFF_FFFF) << 64;
        let low_carry = lo_lo >> 64;
        let r1 = wrap_add(mid_lo, lo_hi);
        let r2 = wrap_add(r1, hi_lo);
        let r3 = wrap_add(r2, low_carry);
        proof {
            let full = (a as int) * (b as int);
            let hh = hi_hi as int;
            let s = (hh % p) * p + lo_hi + hi_lo + low_carry;
            // the full product, decomposed by the four partial products
            assert(full == hh * (p * p) + (lo_hi + hi_lo) * p + lo_lo) by (nonlinear_arith)
                requires
                    full == a * b,
                    a == a_hi * p + a_lo,
                    b == b_hi * p + b_lo,
                    lo_lo == a_lo * b_lo,
                    lo_hi == a_lo * b_hi,
                    hi_lo == a_hi * b_lo,
                    hh == a_hi * b_hi,
            ;
            // shifting right by the fractional width
            assert(full == (hh * p + lo_hi + hi_lo + low_carry) * p + (lo_lo
                & 0xFFFF_FFFF_FFFF_FFFFu128)) by (nonlinear_arith)
                requires
                    full == hh * (p * p) + (lo_hi + hi_lo) * p + lo_lo,
                    lo_lo == low_carry * p + (lo_lo & 0xFFFF_FFFF_FFFF_FFFFu128),
            ;
            lemma_fundamental_div_mod_converse(
                full,
                p,
                hh * p + lo_hi + hi_lo + low_carry,
                (lo_lo & 0xFFFF_FFFF_FFFF_FFFFu128) as int,
            );
            // the retained low bits: a multiple of the modulus vanishes
            lemma_fundamental_div_mod(hh, p);
            assert(hh * p == (hh / p) * m + (hh % p) * p) by (nonlinear_arith)
                requires
                    hh == p * (hh / p) + hh % p,
                    m == p * p,
            ;
            assert(0 <= hh % p) by (nonlinear_arith)
                requires
                    hh >= 0,
                    p > 0,
            ;
            assert((hh % p) * p >= 0) by (nonlinear_arith)
                requires
                    hh % p >= 0,
                    p > 0,
            ;
            lemma_mod_multiple_vanish(hh / p, s, m);
            assert(hh / p >= 0) by (nonlinear_arith)
                requires
                    hh >= 0,
                    p > 0,
            ;
            assert((full / p) % m == s % m);
            // the chain of wrapping additions computes the same residue
            assert(mid_lo == (hh % p) * p);
            lemma_mod_add_left(mid_lo + lo_hi, hi_lo as int, m);
            lemma_mod_add_left(mid_lo + lo_hi + hi_lo, low_carry as int, m);
            assert(r3 as int == s % m);
        }
        U64F64(r3)
    }

    /// Round trip: any integer shifted into the integer bits and truncated
    /// back is itself.
    pub proof fn lemma_from_to_integer(n: u64)
        ensures
            ((n as int) * (FRAC_UNIT as int)) / (FRAC_UNIT as int) == n,
    {
        lemma_fundamental_div_mod_converse(
            (n as int) * (FRAC_UNIT as int),
            FRAC_UNIT as int,
            n as int,
            0,
        );
    }

    /// Multiplying the fixed-point forms of two integers whose product fits
    /// the integer bits gives the fixed-point form of their product, and its
    /// integer part is that product.
    pub proof fn lemma_mul_integers(m: u64, n: u64)
        requires
            (m as int) * (n as int) < FRAC_UNIT as int,
        ensures
            ((((m as int) * (FRAC_UNIT as int)) * ((n as int) * (FRAC_UNIT as int))) / (
            FRAC_UNIT as int)) % raw_modulus() == ((m as int) * (n as int)) * (FRAC_UNIT as int),
            (((m as int) * (n as int)) * (FRAC_UNIT as int)) / (FRAC_UNIT as int) == (m as int) * (
            n as int),
    {
        let p = FRAC_UNIT as int;
        let mn = (m as int) * (n as int);
        assert(((m as int) * p) * ((n as int) * p) == (mn * p) * p) by (nonlinear_arith)
            requires
                mn == (m as int) * (n as int),
        ;
        assert(mn >= 0) by (nonlinear_arith)
            requires
                mn == (m as int) * (n as int),
                m >= 0,
                n >= 0,
        ;
        lemma_fundamental_div_mod_converse((mn * p) * p, p, mn * p, 0);
        assert(mn * p >= 0 && mn * p < raw_modulus()) by (nonlinear_arith)
            requires
                0 <= mn < p,
                p == FRAC_UNIT as int,
                raw_modulus() == p * p,
        ;
        lemma_fundamental_div_mod_converse(mn * p, raw_modulus(), 0, mn * p);
        lemma_fundamental_div_mod_converse(mn * p, p, mn, 0);
    }

    /// Shift-first division: the raw dividend is shifted left by the
    /// fractional width (bits shifted out are discarded), then divided by the
    /// raw divisor.
    pub fn div(self, other: U64F64) -> (r: U64F64)
        requires
            other.0 != 0,
        ensures
            r.0 == ((self.0 % (FRAC_UNIT as u128)) * (FRAC_UNIT as int)) / (other.0 as int),
    {
        let a = self.0;
        proof {
            assert((a << 64) == (a & 0xFFFF_FFFF_FFFF_FFFFu128) * 0x1_0000_0000_0000_0000u128 && a
                == ((a >> 64) * 0x1_0000_0000_0000_0000u128) + (a & 0xFFFF_FFFF_FFFF_FFFFu128) && (
            a & 0xFFFF_FFFF_FFFF_FFFFu128) < 0x1_0000_0000_0000_0000u128) by (bit_vector);
            lemma_fundamental_div_mod_converse(
                a as int,
                FRAC_UNIT as int,
                (a >> 64) as int,
                (a & 0xFFFF_FFFF_FFFF_FFFFu128) as int,
            );
        }
        let numerator = a << 64;
        U64F64(numerator / other.0)
    }
}

} // verus!
