//! Arbitrary-precision non-negative decimal integer stored as a
//! least-significant-first digit sequence, together with a raw character-code
//! overlay over the same storage.

use vstd::prelude::*;

use crate::digits::dig_at;
use crate::digits::diff_digits;
use crate::digits::digits_ok;
use crate::digits::digits_of_nat;
use crate::digits::lemma_canonical_unique;
use crate::digits::lemma_digits_of_nat;
use crate::digits::lemma_pow10_adds;
use crate::digits::lemma_pow10_mono;
use crate::digits::lemma_val_all_zero;
use crate::digits::lemma_val_take_succ;
use crate::digits::lemma_val_update;
use crate::digits::lemma_val_first;
use crate::digits::lemma_val_msb_rev;
use crate::digits::prod_digits;
use crate::digits::quot_digits;
use crate::digits::val_msb;
use crate::digits::lemma_pow10_pos;
use crate::digits::lemma_val_cmp_at;
use crate::digits::lemma_val_drop_zero;
use crate::digits::lemma_val_lower;
use crate::digits::lemma_val_prefix_all;
use crate::digits::lemma_val_prefix_succ;
use crate::digits::lemma_val_single;
use crate::digits::lemma_val_snoc;
use crate::digits::lemma_val_upper;
use crate::digits::no_leading_zero;
use crate::digits::pow10;
use crate::digits::sum_digits;
use crate::digits::val;
use crate::digits::val_prefix;
use crate::digits::wf;
use crate::math::MathError;
use vstd::pervasive::VecAdditionalExecFns;

verus! {

/// `c` is an ASCII decimal digit.
pub open spec fn char_is_digit(c: char) -> bool {
    '0' <= c && c <= '9'
}

/// Every character of `s` is an ASCII decimal digit.
pub open spec fn all_digits(s: Seq<char>) -> bool {
    forall|i: int| 0 <= i < s.len() ==> char_is_digit(s[i])
}

/// The digit sequence a digit string parses to: the input reversed, each
/// character replaced by its digit value.
pub open spec fn parsed_digits(s: Seq<char>) -> Seq<u8> {
    Seq::new(s.len(), |i: int| ((s[s.len() - 1 - i] as u32) - 48) as u8)
}

/// The character that displays the digit value `d`.
pub open spec fn digit_char(d: u8) -> char {
    ((d + 48) as u8) as char
}

/// The canonical decimal rendering of a digit sequence: `0` when empty,
/// otherwise most-significant digit first.
pub open spec fn format_digits(d: Seq<u8>) -> Seq<char> {
    if d.len() == 0 {
        seq!['0']
    } else {
        Seq::new(d.len(), |i: int| digit_char(d[d.len() - 1 - i]))
    }
}

/// The low byte of a character's code point.
pub open spec fn char_code(c: char) -> u8 {
    ((c as u32) % 256) as u8
}

/// The byte sequence the character overlay stores for `s`.
pub open spec fn char_bytes(s: Seq<char>) -> Seq<u8> {
    Seq::new(s.len(), |i: int| char_code(s[i]))
}

/// Each stored byte read back as a character.
pub open spec fn bytes_as_chars(d: Seq<u8>) -> Seq<char> {
    Seq::new(d.len(), |i: int| d[i] as char)
}

/// Some stored byte is not the code of an ASCII decimal digit.
pub open spec fn has_non_digit_byte(d: Seq<u8>) -> bool {
    exists|i: int| 0 <= i < d.len() && !(48 <= #[trigger] d[i] <= 57)
}

/// Arbitrary-precision non-negative integer: decimal digits stored
/// least-significant first. The same storage can instead hold raw character
/// codes; the numeric operations are defined on digit contents only.
#[derive(Clone, PartialEq, Eq)]
pub struct UInfinite {
    digits: Vec<u8>,
}

impl View for UInfinite {
    type V = Seq<u8>;

    closed spec fn view(&self) -> Seq<u8> {
        self.digits@
    }
}

/// Relies on `String::push`: appends the given character to the string.
#[verifier::external_body]
fn push_char(out: &mut String, c: char)
    ensures
        final(out)@ == old(out)@.push(c),
{
    out.push(c);
}

/// Removes most-significant zero entries, keeping at least one entry when any
/// was there; the value is unchanged and the rest of the digits stay as they
/// were.
fn trim(v: &mut Vec<u8>)
    ensures
        val(final(v)@) == val(old(v)@),
        no_leading_zero(final(v)@),
        final(v)@.len() <= old(v)@.len(),
        old(v)@.len() >= 1 ==> final(v)@.len() >= 1,
        forall|i: int| 0 <= i < final(v)@.len() ==> final(v)@[i] == old(v)@[i],
{
    while v.len() > 1 && v[v.len() - 1] == 0
        invariant
            val(v@) == val(old(v)@),
            v@.len() <= old(v)@.len(),
            old(v)@.len() >= 1 ==> v@.len() >= 1,
            forall|i: int| 0 <= i < v@.len() ==> v@[i] == old(v)@[i],
        decreases v@.len(),
    {
        proof {
            lemma_val_drop_zero(v@);
        }
        let _dropped: Option<u8> = v.pop();
    }
}

/// Compares two well-formed digit sequences by value: longer means larger,
/// equal lengths compare digit-wise from the most-significant position.
fn lt_digits(a: &Vec<u8>, b: &Vec<u8>) -> (r: bool)
    requires
        wf(a@),
        wf(b@),
    ensures
        r == (val(a@) < val(b@)),
{
    if a.len() < b.len() {
        if b.len() == 1 && b[0] == 0 {
            proof {
                assert(a@.len() == 0);
                assert(b@ =~= seq![0u8]);
                lemma_val_single(0);
            }
            false
        } else {
            proof {
                lemma_val_upper(a@);
                lemma_pow10_mono(a@.len(), (b@.len() - 1) as nat);
                assert(b@.last() != 0);
                lemma_val_lower(b@);
            }
            true
        }
    } else if b.len() < a.len() {
        if a.len() == 1 && a[0] == 0 {
            proof {
                assert(b@.len() == 0);
                assert(a@ =~= seq![0u8]);
                lemma_val_single(0);
            }
            false
        } else {
            proof {
                lemma_val_upper(b@);
                lemma_pow10_mono(b@.len(), (a@.len() - 1) as nat);
                assert(a@.last() != 0);
                lemma_val_lower(a@);
            }
            false
        }
    } else {
        let n = a.len();
        let mut i = n;
        while i > 0
            invariant
                i <= n,
                n == a@.len(),
                a@.len() == b@.len(),
                wf(a@),
                wf(b@),
                forall|j: int| i <= j < a@.len() ==> a@[j] == b@[j],
            decreases i,
        {
            i -= 1;
            let x: u8 = a[i];
            let y: u8 = b[i];
            if x < y {
                proof {
                    lemma_val_cmp_at(a@, b@, i as int);
                }
                return true;
            }
            if y < x {
                proof {
                    lemma_val_cmp_at(b@, a@, i as int);
                }
                return false;
            }
        }
        proof {
            assert(a@ =~= b@);
        }
        false
    }
}

/// Positional subtraction with borrow of a smaller well-formed value from a
/// larger one; most-significant zeroes of the result are trimmed.
fn sub_core(a: &Vec<u8>, b: &Vec<u8>) -> (r: Vec<u8>)
    requires
        wf(a@),
        wf(b@),
        val(b@) <= val(a@),
    ensures
        r@ == diff_digits(a@, b@),
{
    proof {
        if b@.len() > a@.len() {
            lemma_val_upper(a@);
            if b@.len() >= 2 {
                assert(b@.last() != 0);
                lemma_val_lower(b@);
                lemma_pow10_mono(a@.len(), (b@.len() - 1) as nat);
                assert(false);
            }
            assert(b@.len() == 1 && a@.len() == 0);
            assert(b@ =~= seq![b@[0]]);
            lemma_val_single(b@[0]);
        }
    }
    let mut result: Vec<u8> = Vec::new();
    let mut borrow: u8 = 0;
    let mut i: usize = 0;
    while i < a.len()
        invariant
            i <= a@.len(),
            wf(a@),
            wf(b@),
            borrow <= 1,
            result@.len() == i,
            digits_ok(result@),
            val(result@) + val_prefix(b@, i as int) == val_prefix(a@, i as int) + (borrow as nat)
                * pow10(i as nat),
        decreases a@.len() - i,
    {
        let da: u8 = a[i];
        let db0: u8 = if i < b.len() {
            b[i]
        } else {
            0
        };
        let db: u8 = db0 + borrow;
        let dg: u8 = if da >= db {
            da - db
        } else {
            (da + 10) - db
        };
        let nb: u8 = if da >= db {
            0
        } else {
            1
        };
        proof {
            let p = pow10(i as nat);
            lemma_val_snoc(result@, dg);
            lemma_val_prefix_succ(a@, i as int);
            lemma_val_prefix_succ(b@, i as int);
            assert(pow10((i + 1) as nat) == 10 * p);
            assert(dig_at(a@, i as int) == da);
            assert(dig_at(b@, i as int) == db0);
            assert(dg + (db0 + borrow) == da + 10 * nb);
            assert(((dg + db0 + borrow) as nat) * p == (dg as nat) * p + (db0 as nat) * p + (
            borrow as nat) * p) by (nonlinear_arith);
            assert(((da + 10 * nb) as nat) * p == (da as nat) * p + (nb as nat) * (10 * p))
                by (nonlinear_arith);
        }
        result.push(dg);
        borrow = nb;
        i += 1;
    }
    proof {
        if a@.len() >= b@.len() {
            lemma_val_prefix_all(b@, a@.len() as int);
        }
        assert(val_prefix(b@, a@.len() as int) == val(b@));
        lemma_val_prefix_all(a@, a@.len() as int);
        if borrow == 1 {
            lemma_val_upper(result@);
            lemma_pow10_pos(a@.len());
            assert(false);
        }
        assert(val(result@) == val(a@) - val(b@));
    }
    trim(&mut result);
    proof {
        if a@.len() == 0 {
            assert(result@ =~= Seq::<u8>::empty());
        } else {
            assert(digits_ok(result@));
            assert(wf(result@));
            lemma_canonical_unique(result@);
        }
    }
    result
}

impl UInfinite {
    /// Parses a decimal digit string; any other character is rejected.
    pub fn from_string(s: &str) -> (r: Result<Self, MathError>)
        ensures
            (r is Ok) <==> all_digits(s@),
            r matches Ok(v) ==> v@ == parsed_digits(s@),
            r matches Err(e) ==> e == MathError::InvalidDigit,
    {
        let n = s.unicode_len();
        let mut digits: Vec<u8> = Vec::new();
        let mut i = n;
        while i > 0
            invariant
                i <= n,
                n == s@.len(),
                forall|j: int| i <= j < n ==> char_is_digit(s@[j]),
                digits@.len() == n - i,
                forall|j: int| 0 <= j < n - i ==> digits@[j] == parsed_digits(s@)[j],
            decreases i,
        {
            i -= 1;
            let c = s.get_char(i);
            if c < '0' || c > '9' {
                return Err(MathError::InvalidDigit);
            }
            digits.push(((c as u32) - 48) as u8);
        }
        proof {
            assert(digits@ =~= parsed_digits(s@));
        }
        Ok(UInfinite { digits })
    }

    /// Renders the canonical decimal string: `"0"` when empty, otherwise the
    /// most-significant digit first. An entry above 207 cannot be rendered:
    /// the shift past the digit-zero code would overflow a byte.
    pub fn to_string(&self) -> (r: String)
        requires
            forall|i: int| 0 <= i < self@.len() ==> self@[i] <= 207,
        ensures
            r@ == format_digits(self@),
    {
        let mut out = String::new();
        if self.digits.len() == 0 {
            push_char(&mut out, '0');
            proof {
                assert(out@ =~= format_digits(self@));
            }
            return out;
        }
        let n = self.digits.len();
        let mut i = n;
        while i > 0
            invariant
                i <= n,
                n == self@.len(),
                forall|k: int| 0 <= k < n ==> self@[k] <= 207,
                out@.len() == n - i,
                forall|k: int| 0 <= k < n - i ==> out@[k] == format_digits(self@)[k],
            decreases i,
        {
            i -= 1;
            let d = self.digits[i];
            push_char(&mut out, ((d + 48) as u8) as char);
        }
        proof {
            assert(out@ =~= format_digits(self@));
        }
        out
    }

    /// Positional addition with carry; never fails. On canonical operands the
    /// result is exactly the canonical digits of the sum.
    pub fn add(&self, other: &Self) -> (r: Result<Self, MathError>)
        requires
            digits_ok(self@),
            digits_ok(other@),
        ensures
            r is Ok,
            r matches Ok(v) ==> digits_ok(v@) && val(v@) == val(self@) + val(other@),
            r matches Ok(v) ==> v@.len() <= 1 + (if self@.len() >= other@.len() {
                self@.len()
            } else {
                other@.len()
            }),
            r matches Ok(v) ==> (wf(self@) && wf(other@) ==> v@ == sum_digits(self@, other@)),
    {
        let a = &self.digits;
        let b = &other.digits;
        let max_len: usize = if a.len() >= b.len() {
            a.len()
        } else {
            b.len()
        };
        let mut result: Vec<u8> = Vec::new();
        let mut carry: u8 = 0;
        let mut i: usize = 0;
        while i < max_len
            invariant
                i <= max_len,
                max_len == (if a@.len() >= b@.len() {
                    a@.len()
                } else {
                    b@.len()
                }),
                a@ == self@,
                b@ == other@,
                digits_ok(a@),
                digits_ok(b@),
                carry <= 1,
                result@.len() == i,
                digits_ok(result@),
                val(result@) + (carry as nat) * pow10(i as nat) == val_prefix(a@, i as int)
                    + val_prefix(b@, i as int),
            decreases max_len - i,
        {
            let da: u8 = if i < a.len() {
                a[i]
            } else {
                0
            };
            let db: u8 = if i < b.len() {
                b[i]
            } else {
                0
            };
            let sum: u8 = da + db + carry;
            let dg: u8 = sum % 10;
            let nc: u8 = sum / 10;
            proof {
                let p = pow10(i as nat);
                lemma_val_snoc(result@, dg);
                lemma_val_prefix_succ(a@, i as int);
                lemma_val_prefix_succ(b@, i as int);
                assert(pow10((i + 1) as nat) == 10 * p);
                assert(dig_at(a@, i as int) == da);
                assert(dig_at(b@, i as int) == db);
                assert(dg + 10 * nc == sum) by (nonlinear_arith)
                    requires
                        dg == sum % 10,
                        nc == sum / 10,
                ;
                assert((dg as nat) * p + (nc as nat) * (10 * p) == ((dg + 10 * nc) as nat) * p)
                    by (nonlinear_arith);
                assert(((da + db + carry) as nat) * p == (da as nat) * p + (db as nat) * p + (
                carry as nat) * p) by (nonlinear_arith);
            }
            result.push(dg);
            carry = nc;
            i += 1;
        }
        proof {
            lemma_val_prefix_all(a@, max_len as int);
            lemma_val_prefix_all(b@, max_len as int);
        }
        if carry > 0 {
            proof {
                lemma_val_snoc(result@, carry);
            }
            result.push(carry);
            proof {
                assert(val(result@) == val(a@) + val(b@));
            }
        }
        proof {
            assert(val(result@) == val(self@) + val(other@));
            if wf(self@) && wf(other@) {
                if a@.len() == 0 && b@.len() == 0 {
                    assert(result@ =~= Seq::<u8>::empty());
                    assert(result@ == sum_digits(self@, other@));
                } else {
                    assert(result@.len() >= 1);
                    if result@.len() >= 2 {
                        if result@.last() == 0 {
                            assert(result@.len() == max_len);
                            assert(max_len >= 2);
                            let longer = if a@.len() >= b@.len() {
                                a@
                            } else {
                                b@
                            };
                            assert(longer.len() == max_len && longer.last() != 0);
                            lemma_val_lower(longer);
                            lemma_val_drop_zero(result@);
                            lemma_val_upper(result@.drop_last());
                            assert(false);
                        }
                    }
                    assert(wf(result@));
                    lemma_canonical_unique(result@);
                    assert(result@ == sum_digits(self@, other@));
                }
            }
        }
        Ok(UInfinite { digits: result })
    }

    /// Digit-by-digit convolution into a buffer, carries propagated
    /// immediately so every cell stays a digit; never fails. The result is
    /// the canonical digits of the product.
    pub fn mul(&self, other: &Self) -> (r: Result<Self, MathError>)
        requires
            digits_ok(self@),
            digits_ok(other@),
            self@.len() + other@.len() <= usize::MAX,
        ensures
            r is Ok,
            r matches Ok(v) ==> v@ == prod_digits(self@, other@),
    {
        let a = &self.digits;
        let b = &other.digits;
        let alen: usize = a.len();
        let blen: usize = b.len();
        let mut result: Vec<u8> = vec![0u8; alen + blen];
        proof {
            lemma_val_all_zero(result@);
            assert(a@.take(0) =~= Seq::<u8>::empty());
            assert(val(a@.take(0)) == 0);
            assert((0 as nat) * val(b@) == 0) by (nonlinear_arith);
        }
        let mut i: usize = 0;
        while i < alen
            invariant
                i <= alen,
                alen + blen <= usize::MAX,
                alen == a@.len(),
                blen == b@.len(),
                a@ == self@,
                b@ == other@,
                digits_ok(a@),
                digits_ok(b@),
                digits_ok(result@),
                result@.len() >= alen + blen,
                alen + blen == 0 ==> result@.len() == 0,
                val(result@) == val(a@.take(i as int)) * val(b@),
            decreases alen - i,
        {
            let ai: u8 = a[i];
            proof {
                assert(b@.take(0) =~= Seq::<u8>::empty());
                assert(val(b@.take(0)) == 0);
                assert((ai as nat) * 0 * pow10(i as nat) == 0) by (nonlinear_arith);
            }
            let mut j: usize = 0;
            while j < blen
                invariant
                    j <= blen,
                    i < alen,
                    alen + blen <= usize::MAX,
                    alen == a@.len(),
                    blen == b@.len(),
                    a@ == self@,
                    b@ == other@,
                    ai == a@[i as int],
                    digits_ok(a@),
                    digits_ok(b@),
                    digits_ok(result@),
                    result@.len() >= alen + blen,
                    val(result@) == val(a@.take(i as int)) * val(b@) + (ai as nat) * val(
                        b@.take(j as int),
                    ) * pow10(i as nat),
                decreases blen - j,
            {
                proof {
                    assert(a@[i as int] * b@[j as int] <= 81) by (nonlinear_arith)
                        requires
                            a@[i as int] <= 9,
                            b@[j as int] <= 9,
                    ;
                }
                let prod: u8 = ai * b[j];
                let ghost target = val(result@) + (prod as nat) * pow10((i + j) as nat);
                let mut k: usize = i + j;
                proof {
                    lemma_val_update(result@, k as int, (result@[k as int] + prod) as u8);
                    assert(((result@[k as int] + prod) as nat) * pow10(k as nat) == (
                    result@[k as int] as nat) * pow10(k as nat) + (prod as nat) * pow10(k as nat))
                        by (nonlinear_arith);
                }
                let cell: u8 = result[k] + prod;
                result.set(k, cell);
                while result[k] >= 10
                    invariant
                        i + j <= k < result@.len(),
                        result@.len() >= alen + blen,
                        forall|t: int|
                            0 <= t < result@.len() && t != k ==> #[trigger] result@[t] < 10,
                        result@[k as int] <= 99,
                        val(result@) == target,
                    decreases result@.len() - k, result@[k as int],
                {
                    let c: u8 = result[k];
                    let carry: u8 = c / 10;
                    proof {
                        lemma_val_update(result@, k as int, (c % 10) as u8);
                        assert((c as nat) * pow10(k as nat) == ((c % 10) as nat) * pow10(k as nat)
                            + (carry as nat) * (10 * pow10(k as nat))) by (nonlinear_arith)
                            requires
                                carry == c / 10,
                        ;
                        assert(pow10((k + 1) as nat) == 10 * pow10(k as nat));
                    }
                    result.set(k, c % 10);
                    let rlen: usize = result.len();
                    k += 1;
                    if k == rlen {
                        proof {
                            lemma_val_snoc(result@, 0);
                            assert((0 as nat) * pow10(result@.len()) == 0) by (nonlinear_arith);
                        }
                        result.push(0);
                    }
                    proof {
                        lemma_val_update(result@, k as int, (result@[k as int] + carry) as u8);
                        assert(((result@[k as int] + carry) as nat) * pow10(k as nat) == (
                        result@[k as int] as nat) * pow10(k as nat) + (carry as nat) * pow10(
                            k as nat,
                        )) by (nonlinear_arith);
                    }
                    let cell2: u8 = result[k] + carry;
                    result.set(k, cell2);
                }
                proof {
                    lemma_val_take_succ(b@, j as int);
                    assert((ai as nat) * (val(b@.take(j as int)) + (b@[j as int] as nat) * pow10(
                        j as nat,
                    )) * pow10(i as nat) == (ai as nat) * val(b@.take(j as int)) * pow10(i as nat)
                        + ((ai * b@[j as int]) as nat) * (pow10(i as nat) * pow10(j as nat)))
                        by (nonlinear_arith);
                    lemma_pow10_adds(i as nat, j as nat);
                }
                j += 1;
            }
            proof {
                lemma_val_take_succ(a@, i as int);
                assert((val(a@.take(i as int)) + (a@[i as int] as nat) * pow10(i as nat)) * val(b@)
                    == val(a@.take(i as int)) * val(b@) + (a@[i as int] as nat) * val(b@) * pow10(
                    i as nat,
                )) by (nonlinear_arith);
                lemma_val_prefix_all(b@, blen as int);
                assert(b@.take(blen as int) =~= b@);
            }
            i += 1;
        }
        proof {
            assert(a@.take(alen as int) =~= a@);
        }
        trim(&mut result);
        proof {
            if alen + blen == 0 {
                assert(result@ =~= Seq::<u8>::empty());
            } else {
                assert(result@.len() >= 1);
                assert(digits_ok(result@));
                lemma_canonical_unique(result@);
            }
        }
        Ok(UInfinite { digits: result })
    }

    /// Positional subtraction with borrow; fails exactly when the subtrahend
    /// exceeds the minuend, and otherwise returns the canonical digits of the
    /// difference.
    pub fn sub(&self, other: &Self) -> (r: Result<Self, MathError>)
        requires
            wf(self@),
            wf(other@),
        ensures
            (r is Ok) <==> val(self@) >= val(other@),
            r matches Ok(v) ==> v@ == diff_digits(self@, other@),
            r matches Err(e) ==> e == MathError::SubtractionUnderflow,
    {
        if lt_digits(&self.digits, &other.digits) {
            return Err(MathError::SubtractionUnderflow);
        }
        Ok(UInfinite { digits: sub_core(&self.digits, &other.digits) })
    }

    /// Long division digit by digit from the most-significant end: each next
    /// digit of the dividend is prepended to a running remainder, the divisor
    /// is subtracted from it repeatedly, and the count becomes the next
    /// quotient digit. Fails exactly on a zero divisor; the quotient is the
    /// canonical digits of the floor quotient, and the remainder is discarded.
    pub fn div(&self, other: &Self) -> (r: Result<Self, MathError>)
        requires
            wf(self@),
            wf(other@),
        ensures
            (r is Err) <==> val(other@) == 0,
            r matches Err(e) ==> e == MathError::DivisionByZero,
            r matches Ok(q) ==> q@ == quot_digits(self@, other@),
    {
        let b = &other.digits;
        if b.len() == 0 {
            proof {
                assert(val(b@) == 0);
            }
            return Err(MathError::DivisionByZero);
        }
        if b.len() == 1 && b[0] == 0 {
            proof {
                assert(b@ =~= seq![0u8]);
                lemma_val_single(0);
            }
            return Err(MathError::DivisionByZero);
        }
        proof {
            if b@.len() == 1 {
                assert(b@ =~= seq![b@[0]]);
                lemma_val_single(b@[0]);
            } else {
                assert(b@.last() != 0);
                lemma_val_lower(b@);
                lemma_pow10_pos((b@.len() - 1) as nat);
            }
            assert(val(b@) >= 1);
        }
        let n: usize = self.digits.len();
        let mut rem: Vec<u8> = Vec::new();
        let mut qrev: Vec<u8> = Vec::new();
        let mut t: usize = 0;
        proof {
            assert(self@.skip(n as int) =~= Seq::<u8>::empty());
            assert(val(self@.skip(n as int)) == 0);
            assert(val_msb(qrev@) == 0);
            assert(val_msb(qrev@) * val(b@) == 0) by (nonlinear_arith)
                requires
                    val_msb(qrev@) == 0,
            ;
            assert(val(rem@) == 0);
        }
        while t < n
            invariant
                t <= n,
                n == self@.len(),
                wf(self@),
                b@ == other@,
                wf(b@),
                val(b@) >= 1,
                wf(rem@),
                val(rem@) < val(b@),
                qrev@.len() == t,
                digits_ok(qrev@),
                val(self@.skip(n - t)) == val_msb(qrev@) * val(b@) + val(rem@),
            decreases n - t,
        {
            let d: u8 = self.digits[n - 1 - t];
            let ghost rem_old = rem@;
            rem.insert(0, d);
            proof {
                assert(rem@ =~= seq![d] + rem_old);
                lemma_val_first(rem@);
                assert(rem@.drop_first() =~= rem_old);
                assert(val(rem@) == d + 10 * val(rem_old));
                assert(digits_ok(rem@));
            }
            trim(&mut rem);
            proof {
                assert(digits_ok(rem@));
                assert(val(rem@) == d + 10 * val(rem_old));
                assert(d + 10 * val(rem_old) < 10 * val(b@)) by (nonlinear_arith)
                    requires
                        d <= 9,
                        val(rem_old) < val(b@),
                ;
            }
            let ghost rem_entry = val(rem@);
            let mut count: u8 = 0;
            loop
                invariant
                    wf(rem@),
                    b@ == other@,
                    wf(b@),
                    val(b@) >= 1,
                    (count as nat) * val(b@) + val(rem@) == rem_entry,
                    rem_entry < 10 * val(b@),
                ensures
                    val(rem@) < val(b@),
                    (count as nat) * val(b@) + val(rem@) == rem_entry,
                decreases val(rem@),
            {
                if lt_digits(&rem, b) {
                    break ;
                }
                proof {
                    assert((count + 1) as nat * val(b@) <= rem_entry) by (nonlinear_arith)
                        requires
                            (count as nat) * val(b@) + val(rem@) == rem_entry,
                            val(rem@) >= val(b@),
                    ;
                    assert(count + 1 < 10) by (nonlinear_arith)
                        requires
                            ((count + 1) as nat) * val(b@) <= rem_entry,
                            rem_entry < 10 * val(b@),
                            val(b@) >= 1,
                    ;
                    assert(rem@.len() >= 1);
                }
                let ghost rem_before = rem@;
                let next = sub_core(&rem, b);
                rem = next;
                proof {
                    lemma_digits_of_nat((val(rem_before) - val(b@)) as nat);
                    assert(val(rem@) == val(rem_before) - val(b@));
                    assert(((count + 1) as nat) * val(b@) == (count as nat) * val(b@) + val(b@))
                        by (nonlinear_arith);
                }
                count = count + 1;
            }
            let ghost q_old = val_msb(qrev@);
            let ghost qrev_old = qrev@;
            proof {
                assert(count < 10) by (nonlinear_arith)
                    requires
                        (count as nat) * val(b@) + val(rem@) == rem_entry,
                        rem_entry < 10 * val(b@),
                        val(b@) >= 1,
                ;
            }
            qrev.push(count);
            proof {
                assert(qrev@.drop_last() =~= qrev_old);
                assert(qrev@.last() == count);
                assert(val_msb(qrev@) == 10 * q_old + count);
                assert(self@.skip(n - t - 1) =~= seq![d] + self@.skip(n - t));
                lemma_val_first(self@.skip(n - t - 1));
                assert(self@.skip(n - t - 1)[0] == d);
                assert(self@.skip(n - t - 1).drop_first() =~= self@.skip(n - t));
                assert(val(self@.skip(n - t - 1)) == d + 10 * val(self@.skip(n - t)));
                assert(d + 10 * (q_old * val(b@) + val(rem_old)) == (10 * q_old + count) * val(b@)
                    + val(rem@)) by (nonlinear_arith)
                    requires
                        rem_entry == d + 10 * val(rem_old),
                        rem_entry == (count as nat) * val(b@) + val(rem@),
                ;
            }
            t += 1;
        }
        proof {
            assert(self@.skip(0) =~= self@);
            vstd::arithmetic::div_mod::lemma_fundamental_div_mod_converse(
                val(self@) as int,
                val(b@) as int,
                val_msb(qrev@) as int,
                val(rem@) as int,
            );
            assert(val_msb(qrev@) == val(self@) / val(b@));
        }
        let mut q: Vec<u8> = Vec::new();
        let qn: usize = qrev.len();
        let mut x: usize = qn;
        while x > 0
            invariant
                x <= qn,
                qn == qrev@.len(),
                digits_ok(qrev@),
                q@.len() == qn - x,
                forall|j: int| 0 <= j < qn - x ==> q@[j] == qrev@[qn - 1 - j],
            decreases x,
        {
            x -= 1;
            q.push(qrev[x]);
        }
        proof {
            lemma_val_msb_rev(qrev@, q@);
            assert(digits_ok(q@));
        }
        trim(&mut q);
        proof {
            if n == 0 {
                assert(q@ =~= Seq::<u8>::empty());
            } else {
                assert(q@.len() >= 1);
                assert(digits_ok(q@));
                lemma_canonical_unique(q@);
            }
        }
        Ok(UInfinite { digits: q })
    }

    /// Stores the low byte of every character's code point, unchecked.
    pub fn from_char_string(s: &str) -> (r: Self)
        ensures
            r@ == char_bytes(s@),
    {
        let n = s.unicode_len();
        let mut digits: Vec<u8> = Vec::new();
        let mut i: usize = 0;
        while i < n
            invariant
                i <= n,
                n == s@.len(),
                digits@.len() == i,
                forall|j: int| 0 <= j < i ==> digits@[j] == char_bytes(s@)[j],
            decreases n - i,
        {
            let c = s.get_char(i);
            digits.push(((c as u32) % 256) as u8);
            i += 1;
        }
        proof {
            assert(digits@ =~= char_bytes(s@));
        }
        UInfinite { digits }
    }

    /// Reads every stored byte back as a character.
    pub fn to_char_string(&self) -> (r: String)
        ensures
            r@ == bytes_as_chars(self@),
    {
        let mut out = String::new();
        let n = self.digits.len();
        let mut i: usize = 0;
        while i < n
            invariant
                i <= n,
                n == self@.len(),
                out@.len() == i,
                forall|j: int| 0 <= j < i ==> out@[j] == bytes_as_chars(self@)[j],
            decreases n - i,
        {
            let b: u8 = self.digits[i];
            push_char(&mut out, b as char);
            i += 1;
        }
        proof {
            assert(out@ =~= bytes_as_chars(self@));
        }
        out
    }

    /// Whether any stored byte falls outside the ASCII digit codes; this is
    /// how the overlay is told apart at runtime. Digit-sequence contents,
    /// whose entries are the values zero through nine, also satisfy it.
    pub fn is_char_mode(&self) -> (r: bool)
        ensures
            r == has_non_digit_byte(self@),
    {
        let n = self.digits.len();
        let mut i: usize = 0;
        while i < n
            invariant
                i <= n,
                n == self@.len(),
                forall|j: int| 0 <= j < i ==> 48 <= #[trigger] self@[j] <= 57,
            decreases n - i,
        {
            let b: u8 = self.digits[i];
            if b < 48 || b > 57 {
                return true;
            }
            i += 1;
        }
        false
    }

    /// Parses digit strings as numbers and stores anything else as raw
    /// character codes.
    pub fn auto_from(s: &str) -> (r: Result<Self, MathError>)
        ensures
            r is Ok,
            all_digits(s@) ==> (r matches Ok(v) && v@ == parsed_digits(s@)),
            !all_digits(s@) ==> (r matches Ok(v) && v@ == char_bytes(s@)),
    {
        let n = s.unicode_len();
        let mut i: usize = 0;
        let mut numeric: bool = true;
        while i < n
            invariant
                i <= n,
                n == s@.len(),
                numeric <==> (forall|j: int| 0 <= j < i ==> char_is_digit(s@[j])),
            decreases n - i,
        {
            let c = s.get_char(i);
            if c < '0' || c > '9' {
                numeric = false;
            }
            i += 1;
        }
        if numeric {
            Self::from_string(s)
        } else {
            Ok(Self::from_char_string(s))
        }
    }

    /// Renders as a decimal string or as raw characters, depending on which
    /// mode the runtime scan reports.
    pub fn auto_to_string(&self) -> (r: String)
        ensures
            has_non_digit_byte(self@) ==> r@ == bytes_as_chars(self@),
            !has_non_digit_byte(self@) ==> r@ == format_digits(self@),
    {
        if self.is_char_mode() {
            self.to_char_string()
        } else {
            self.to_string()
        }
    }
}

/// Reading and writing the storage as a decimal digit sequence.
pub trait MathMode: Sized + View<V = Seq<u8>> {
    fn from_digit_string(s: &str) -> (r: Result<Self, MathError>)
        ensures
            (r is Ok) <==> all_digits(s@),
            r matches Ok(v) ==> v@ == parsed_digits(s@),
            r matches Err(e) ==> e == MathError::InvalidDigit,
    ;

    fn to_digit_string(&self) -> (r: String)
        requires
            forall|i: int| 0 <= i < self@.len() ==> self@[i] <= 207,
        ensures
            r@ == format_digits(self@),
    ;
}

/// Reading and writing the storage as raw character codes.
pub trait CharMode: Sized + View<V = Seq<u8>> {
    fn from_char_string(s: &str) -> (r: Self)
        ensures
            r@ == char_bytes(s@),
    ;

    fn to_char_string(&self) -> (r: String)
        ensures
            r@ == bytes_as_chars(self@),
    ;

    fn is_char_mode(&self) -> (r: bool)
        ensures
            r == has_non_digit_byte(self@),
    ;
}

/// Round trip: a digit string with no superfluous leading zero (or exactly
/// the lone zero digit) formats back to itself after parsing.
pub proof fn lemma_format_parse_round_trip(s: Seq<char>)
    requires
        all_digits(s),
        s.len() >= 1,
        s[0] != '0' || s.len() == 1,
    ensures
        format_digits(parsed_digits(s)) == s,
{
    let d = parsed_digits(s);
    assert(d.len() == s.len());
    assert forall|i: int| 0 <= i < s.len() implies format_digits(d)[i] == s[i] by {
        let c = s[s.len() - 1 - (s.len() - 1 - i)];
        assert(c == s[i]);
        assert(char_is_digit(s[i]));
        assert(d[s.len() - 1 - i] == ((s[i] as u32) - 48) as u8);
        assert(48 <= s[i] as u32 <= 57);
    }
    assert(format_digits(d) =~= s);
}

/// Addition is commutative.
pub proof fn lemma_add_commutative(a: Seq<u8>, b: Seq<u8>)
    ensures
        sum_digits(a, b) == sum_digits(b, a),
{
}

/// Addition is associative.
pub proof fn lemma_add_associative(a: Seq<u8>, b: Seq<u8>, c: Seq<u8>)
    ensures
        sum_digits(sum_digits(a, b), c) == sum_digits(a, sum_digits(b, c)),
{
    if a.len() == 0 && b.len() == 0 && c.len() == 0 {
    } else {
        assert(val(Seq::<u8>::empty()) == 0);
        if !(a.len() == 0 && b.len() == 0) {
            lemma_digits_of_nat(val(a) + val(b));
        }
        if !(b.len() == 0 && c.len() == 0) {
            lemma_digits_of_nat(val(b) + val(c));
        }
    }
}

/// Adding the canonical zero to a nonempty canonical value returns it
/// unchanged.
pub proof fn lemma_add_zero(a: Seq<u8>)
    requires
        wf(a),
        a.len() >= 1,
    ensures
        sum_digits(a, seq![0u8]) == a,
{
    lemma_val_single(0);
    lemma_canonical_unique(a);
}

/// Multiplying a nonempty canonical value by the canonical one returns it
/// unchanged.
pub proof fn lemma_mul_one(a: Seq<u8>)
    requires
        wf(a),
        a.len() >= 1,
    ensures
        prod_digits(a, seq![1u8]) == a,
{
    lemma_val_single(1);
    assert(val(a) * 1 == val(a)) by (nonlinear_arith);
    lemma_canonical_unique(a);
}

/// Multiplying any digit sequence by the canonical zero gives the canonical
/// zero.
pub proof fn lemma_mul_zero(a: Seq<u8>)
    ensures
        prod_digits(a, seq![0u8]) == seq![0u8],
{
    lemma_val_single(0);
    assert(val(a) * 0 == 0) by (nonlinear_arith);
    assert(digits_of_nat(0) == seq![0u8]);
}

/// For a nonempty canonical minuend at least as large as the subtrahend,
/// adding the subtrahend back to the difference restores the minuend.
pub proof fn lemma_sub_add_round_trip(a: Seq<u8>, b: Seq<u8>)
    requires
        wf(a),
        wf(b),
        val(b) <= val(a),
        a.len() >= 1,
    ensures
        sum_digits(diff_digits(a, b), b) == a,
{
    lemma_digits_of_nat((val(a) - val(b)) as nat);
    lemma_canonical_unique(a);
}

/// The remainder left by long division: subtracting the quotient times the
/// divisor from the dividend leaves strictly less than the divisor.
pub proof fn lemma_div_remainder(a: Seq<u8>, b: Seq<u8>)
    requires
        wf(a),
        wf(b),
        val(b) >= 1,
    ensures
        val(prod_digits(quot_digits(a, b), b)) <= val(a),
        val(a) - val(prod_digits(quot_digits(a, b), b)) < val(b),
{
    let va = val(a) as int;
    let vb = val(b) as int;
    vstd::arithmetic::div_mod::lemma_fundamental_div_mod(va, vb);
    assert(0 <= va % vb < vb) by (nonlinear_arith)
        requires
            vb >= 1,
            va >= 0,
    ;
    assert(b.len() >= 1);
    if a.len() == 0 {
        assert(val(Seq::<u8>::empty()) == 0);
        assert(va == 0);
        assert(va / vb == 0) by (nonlinear_arith)
            requires
                va == 0,
                vb >= 1,
        ;
        lemma_digits_of_nat((va / vb) as nat);
        lemma_digits_of_nat(val(quot_digits(a, b)) * val(b));
    } else {
        lemma_digits_of_nat((va / vb) as nat);
        lemma_digits_of_nat(val(quot_digits(a, b)) * val(b));
    }
    assert(val(prod_digits(quot_digits(a, b), b)) == (va / vb) * vb);
    assert((va / vb) * vb <= va && va - (va / vb) * vb < vb) by (nonlinear_arith)
        requires
            vb >= 1,
            va >= 0,
            va == vb * (va / vb) + va % vb,
            0 <= va % vb < vb,
    ;
}

impl MathMode for UInfinite {
    fn from_digit_string(s: &str) -> (r: Result<Self, MathError>) {
        UInfinite::from_string(s)
    }

    fn to_digit_string(&self) -> (r: String) {
        UInfinite::to_string(self)
    }
}

impl CharMode for UInfinite {
    fn from_char_string(s: &str) -> (r: Self) {
        UInfinite::from_char_string(s)
    }

    fn to_char_string(&self) -> (r: String) {
        UInfinite::to_char_string(self)
    }

    fn is_char_mode(&self) -> (r: bool) {
        UInfinite::is_char_mode(self)
    }
}

} // verus!
