//! Mathematical model of little-endian decimal digit sequences: the value a
//! sequence stands for, well-formedness (canonical form), and the lemmas that
//! relate them. The arbitrary-precision engine states its contracts over
//! these functions.

use vstd::prelude::*;

verus! {

/// Ten raised to the power `n`.
pub open spec fn pow10(n: nat) -> nat
    decreases n,
{
    if n == 0 {
        1
    } else {
        10 * pow10((n - 1) as nat)
    }
}

/// Every entry of the sequence is a decimal digit.
pub open spec fn digits_ok(s: Seq<u8>) -> bool {
    forall|i: int| 0 <= i < s.len() ==> s[i] < 10
}

/// No most-significant zero entry, except in a lone zero (or an empty sequence).
pub open spec fn no_leading_zero(s: Seq<u8>) -> bool {
    s.len() <= 1 || s[s.len() - 1] != 0
}

/// Well-formed digit sequence: decimal digits in canonical form.
pub open spec fn wf(s: Seq<u8>) -> bool {
    digits_ok(s) && no_leading_zero(s)
}

/// The number a little-endian digit sequence stands for.
pub open spec fn val(s: Seq<u8>) -> nat
    decreases s.len(),
{
    if s.len() == 0 {
        0
    } else {
        val(s.drop_last()) + (s.last() as nat) * pow10((s.len() - 1) as nat)
    }
}

/// The canonical little-endian digit sequence of `n`.
pub open spec fn digits_of_nat(n: nat) -> Seq<u8>
    decreases n,
{
    if n < 10 {
        seq![n as u8]
    } else {
        seq![(n % 10) as u8] + digits_of_nat(n / 10)
    }
}

/// What positional addition returns: the canonical digits of the sum, except
/// that two empty operands stay empty.
pub open spec fn sum_digits(a: Seq<u8>, b: Seq<u8>) -> Seq<u8> {
    if a.len() == 0 && b.len() == 0 {
        Seq::empty()
    } else {
        digits_of_nat(val(a) + val(b))
    }
}

/// What positional subtraction returns on success: the canonical digits of
/// the difference, except that an empty minuend stays empty.
pub open spec fn diff_digits(a: Seq<u8>, b: Seq<u8>) -> Seq<u8> {
    if a.len() == 0 {
        Seq::empty()
    } else {
        digits_of_nat((val(a) - val(b)) as nat)
    }
}

/// What digit convolution returns: the canonical digits of the product,
/// except that two empty operands stay empty.
pub open spec fn prod_digits(a: Seq<u8>, b: Seq<u8>) -> Seq<u8> {
    if a.len() == 0 && b.len() == 0 {
        Seq::empty()
    } else {
        digits_of_nat(val(a) * val(b))
    }
}

/// What long division returns: the canonical digits of the floor quotient,
/// except that an empty dividend stays empty.
pub open spec fn quot_digits(a: Seq<u8>, b: Seq<u8>) -> Seq<u8> {
    if a.len() == 0 {
        Seq::empty()
    } else {
        digits_of_nat(val(a) / val(b))
    }
}

pub proof fn lemma_pow10_pos(n: nat)
    ensures
        pow10(n) >= 1,
    decreases n,
{
    if n > 0 {
        lemma_pow10_pos((n - 1) as nat);
    }
}

pub proof fn lemma_pow10_mono(m: nat, n: nat)
    requires
        m <= n,
    ensures
        pow10(m) <= pow10(n),
    decreases n,
{
    if m < n {
        lemma_pow10_mono(m, (n - 1) as nat);
        lemma_pow10_pos((n - 1) as nat);
    }
}

pub proof fn lemma_pow10_adds(m: nat, n: nat)
    ensures
        pow10(m + n) == pow10(m) * pow10(n),
    decreases m,
{
    if m == 0 {
        assert(pow10(0) == 1);
        assert(1 * pow10(n) == pow10(n)) by (nonlinear_arith);
    } else {
        lemma_pow10_adds((m - 1) as nat, n);
        assert((m + n - 1) as nat == (m - 1) as nat + n);
        assert(pow10(m + n) == 10 * pow10((m - 1) as nat + n));
        assert(10 * (pow10((m - 1) as nat) * pow10(n)) == (10 * pow10((m - 1) as nat)) * pow10(n))
            by (nonlinear_arith);
        assert(pow10(m) == 10 * pow10((m - 1) as nat));
    }
}

/// A sequence of zero entries stands for zero.
pub proof fn lemma_val_all_zero(s: Seq<u8>)
    requires
        forall|i: int| 0 <= i < s.len() ==> s[i] == 0,
    ensures
        val(s) == 0,
    decreases s.len(),
{
    if s.len() > 0 {
        lemma_val_all_zero(s.drop_last());
        assert((0 as nat) * pow10((s.len() - 1) as nat) == 0) by (nonlinear_arith);
    }
}

/// A one-digit sequence stands for its digit.
pub proof fn lemma_val_single(d: u8)
    ensures
        val(seq![d]) == d,
{
    let s = seq![d];
    assert(val(s) == val(s.drop_last()) + (s.last() as nat) * pow10(0));
    assert(s.drop_last() =~= Seq::<u8>::empty());
    assert(val(s.drop_last()) == 0);
    assert(pow10(0) == 1);
    assert((d as nat) * 1 == d) by (nonlinear_arith);
}

/// Appending a most-significant digit adds its positional value.
pub proof fn lemma_val_snoc(s: Seq<u8>, d: u8)
    ensures
        val(s.push(d)) == val(s) + (d as nat) * pow10(s.len()),
{
    assert(s.push(d).drop_last() =~= s);
    assert(s.push(d).last() == d);
}

/// The value of every digit sequence is below `pow10` of its length.
pub proof fn lemma_val_upper(s: Seq<u8>)
    requires
        digits_ok(s),
    ensures
        val(s) < pow10(s.len()),
    decreases s.len(),
{
    if s.len() == 0 {
    } else {
        let t = s.drop_last();
        assert(digits_ok(t));
        lemma_val_upper(t);
        let p = pow10((s.len() - 1) as nat);
        assert((s.last() as nat) * p <= 9 * p) by (nonlinear_arith)
            requires s.last() <= 9, p >= 0;
        assert(pow10(s.len()) == 10 * p);
    }
}

/// A digit sequence with a nonzero most-significant digit reaches `pow10` of
/// its length less one.
pub proof fn lemma_val_lower(s: Seq<u8>)
    requires
        s.len() >= 1,
        s.last() != 0,
    ensures
        val(s) >= pow10((s.len() - 1) as nat),
{
    let p = pow10((s.len() - 1) as nat);
    assert((s.last() as nat) * p >= 1 * p) by (nonlinear_arith)
        requires s.last() >= 1, p >= 0;
}

/// The value seen from the least-significant end.
pub proof fn lemma_val_first(s: Seq<u8>)
    requires
        s.len() >= 1,
    ensures
        val(s) == s[0] + 10 * val(s.drop_first()),
    decreases s.len(),
{
    if s.len() == 1 {
        assert(s.drop_first() =~= Seq::<u8>::empty());
        assert(val(s) == val(s.drop_last()) + (s.last() as nat) * pow10(0));
        assert(s.drop_last().len() == 0);
        assert(val(s.drop_last()) == 0);
        assert(pow10(0) == 1);
        assert(s.last() == s[0]);
        assert((s[0] as nat) * 1 == s[0]) by (nonlinear_arith);
        assert(val(s.drop_first()) == 0);
    } else {
        let t = s.drop_last();
        lemma_val_first(t);
        assert(t.drop_first() =~= s.drop_first().drop_last());
        let u = s.drop_first();
        assert(u.last() == s.last());
        assert(u.len() == s.len() - 1);
        assert(val(u) == val(u.drop_last()) + (u.last() as nat) * pow10((u.len() - 1) as nat));
        let p = pow10((s.len() - 2) as nat);
        assert(pow10((s.len() - 1) as nat) == 10 * p);
        assert((s.last() as nat) * (10 * p) == 10 * ((s.last() as nat) * p)) by (nonlinear_arith);
        assert(t[0] == s[0]);
    }
}

/// The canonical digit sequence of `n` is well formed and stands for `n`.
pub proof fn lemma_digits_of_nat(n: nat)
    ensures
        wf(digits_of_nat(n)),
        digits_of_nat(n).len() >= 1,
        val(digits_of_nat(n)) == n,
        n > 0 ==> digits_of_nat(n).last() != 0,
    decreases n,
{
    if n < 10 {
        let s = digits_of_nat(n);
        assert(s =~= seq![n as u8]);
        assert(val(s) == val(s.drop_last()) + (s.last() as nat) * pow10(0));
        assert(s.drop_last() =~= Seq::<u8>::empty());
        assert(val(s.drop_last()) == 0);
        assert(pow10(0) == 1);
        assert(s.last() == n as u8);
        assert(((n as u8) as nat) * 1 == n) by (nonlinear_arith)
            requires n < 10;
    } else {
        assert(n / 10 >= 1 && n / 10 < n) by (nonlinear_arith)
            requires n >= 10;
        lemma_digits_of_nat(n / 10);
        let r = digits_of_nat(n / 10);
        let s = digits_of_nat(n);
        assert(s == seq![(n % 10) as u8] + r);
        assert(s[0] == (n % 10) as u8);
        assert(s.drop_first() =~= r);
        lemma_val_first(s);
        assert(n % 10 + 10 * (n / 10) == n) by (nonlinear_arith);
        assert(0 <= n % 10 < 10) by (nonlinear_arith);
        assert(s[0] == (n % 10) as u8 && ((n % 10) as u8) as nat == n % 10);
        assert(val(s) == s[0] + 10 * val(s.drop_first()));
        assert(val(s.drop_first()) == val(r));
        assert(s.last() == r.last());
    }
}

/// A well-formed, nonempty digit sequence is the canonical sequence of its
/// value: canonical representations are unique.
pub proof fn lemma_canonical_unique(s: Seq<u8>)
    requires
        wf(s),
        s.len() >= 1,
    ensures
        digits_of_nat(val(s)) == s,
    decreases s.len(),
{
    lemma_val_first(s);
    let t = s.drop_first();
    if s.len() == 1 {
        assert(t =~= Seq::<u8>::empty());
        assert(val(s) == s[0]);
        assert(digits_of_nat(val(s)) =~= s);
    } else {
        assert(t.last() == s.last());
        assert(wf(t));
        lemma_val_lower(t);
        lemma_pow10_pos((t.len() - 1) as nat);
        assert(val(t) >= 1);
        let n = val(s);
        assert(n == s[0] + 10 * val(t));
        assert(n >= 10);
        assert(n % 10 == s[0] && n / 10 == val(t)) by (nonlinear_arith)
            requires n == s[0] + 10 * val(t), s[0] < 10, val(t) >= 0;
        lemma_canonical_unique(t);
        assert(digits_of_nat(n) == seq![(n % 10) as u8] + digits_of_nat(n / 10));
        assert(seq![s[0]] + t =~= s);
    }
}

/// Value of a prefix extended by one digit.
pub proof fn lemma_val_take_succ(s: Seq<u8>, i: int)
    requires
        0 <= i < s.len(),
    ensures
        val(s.take(i + 1)) == val(s.take(i)) + (s[i] as nat) * pow10(i as nat),
{
    assert(s.take(i + 1) =~= s.take(i).push(s[i]));
    lemma_val_snoc(s.take(i), s[i]);
}

/// Splitting a sequence splits its value positionally.
pub proof fn lemma_val_split(s: Seq<u8>, i: int)
    requires
        0 <= i <= s.len(),
    ensures
        val(s) == val(s.take(i)) + pow10(i as nat) * val(s.skip(i)),
    decreases s.len() - i,
{
    if i == s.len() {
        assert(s.take(i) =~= s);
        assert(s.skip(i) =~= Seq::<u8>::empty());
        assert(val(s.skip(i)) == 0);
        assert(pow10(i as nat) * 0 == 0) by (nonlinear_arith);
    } else {
        lemma_val_take_succ(s, i);
        lemma_val_split(s, i + 1);
        let lo = s.skip(i);
        assert(lo.len() >= 1);
        lemma_val_first(lo);
        assert(lo[0] == s[i]);
        assert(lo.drop_first() =~= s.skip(i + 1));
        assert(pow10((i + 1) as nat) == pow10(i as nat + 1));
        lemma_pow10_adds(i as nat, 1);
        assert(pow10(0) == 1);
        assert(pow10(1) == 10 * pow10(0));
        let p = pow10(i as nat);
        let v = val(s.skip(i + 1));
        assert(val(lo) == s[i] + 10 * v);
        assert(p * (s[i] + 10 * v) == (s[i] as nat) * p + (p * 10) * v) by (nonlinear_arith);
        assert(pow10(i as nat + 1) == p * 10);
        assert(pow10(i as nat + 1) * v == (p * 10) * v);
        assert(val(s) == val(s.take(i)) + p * val(lo));
    }
}

/// Updating one entry shifts the value by the positional difference.
pub proof fn lemma_val_update(s: Seq<u8>, p: int, v: u8)
    requires
        0 <= p < s.len(),
    ensures
        val(s.update(p, v)) + (s[p] as nat) * pow10(p as nat) == val(s) + (v as nat) * pow10(
            p as nat,
        ),
    decreases s.len(),
{
    let s2 = s.update(p, v);
    if p == s.len() - 1 {
        assert(s2.drop_last() =~= s.drop_last());
        assert(s2.last() == v);
    } else {
        assert(s2.drop_last() =~= s.drop_last().update(p, v));
        lemma_val_update(s.drop_last(), p, v);
        assert(s2.last() == s.last());
    }
}

/// The value of a digit sequence read most-significant first: each appended
/// entry becomes the new least-significant digit.
pub open spec fn val_msb(s: Seq<u8>) -> nat
    decreases s.len(),
{
    if s.len() == 0 {
        0
    } else {
        10 * val_msb(s.drop_last()) + (s.last() as nat)
    }
}

/// Reversing a most-significant-first sequence gives a little-endian sequence
/// of the same value.
pub proof fn lemma_val_msb_rev(s: Seq<u8>, q: Seq<u8>)
    requires
        q.len() == s.len(),
        forall|j: int| 0 <= j < q.len() ==> q[j] == s[s.len() - 1 - j],
    ensures
        val(q) == val_msb(s),
    decreases s.len(),
{
    if s.len() > 0 {
        lemma_val_first(q);
        assert(q[0] == s.last());
        let q2 = q.drop_first();
        let s2 = s.drop_last();
        assert(forall|j: int| 0 <= j < q2.len() ==> q2[j] == s2[s2.len() - 1 - j]);
        lemma_val_msb_rev(s2, q2);
    }
}

/// The digit of `s` at position `i`, reading positions past the end as zero.
pub open spec fn dig_at(s: Seq<u8>, i: int) -> u8 {
    if 0 <= i < s.len() {
        s[i]
    } else {
        0
    }
}

/// The value of the first `i` positions of `s`, however long `s` is.
pub open spec fn val_prefix(s: Seq<u8>, i: int) -> nat {
    if i <= s.len() {
        val(s.take(i))
    } else {
        val(s)
    }
}

pub proof fn lemma_val_prefix_succ(s: Seq<u8>, i: int)
    requires
        0 <= i,
    ensures
        val_prefix(s, i + 1) == val_prefix(s, i) + (dig_at(s, i) as nat) * pow10(i as nat),
{
    if i < s.len() {
        lemma_val_take_succ(s, i);
    } else {
        if i == s.len() {
            assert(s.take(i) =~= s);
        }
        assert((0 as nat) * pow10(i as nat) == 0) by (nonlinear_arith);
    }
}

/// For `i` at or past the end of `s`, the prefix value is the whole value.
pub proof fn lemma_val_prefix_all(s: Seq<u8>, i: int)
    requires
        i >= s.len(),
    ensures
        val_prefix(s, i) == val(s),
{
    if i <= s.len() {
        assert(s.take(i) =~= s);
    }
}

/// Digit sequences of equal length compare by their most significant
/// differing position.
pub proof fn lemma_val_cmp_at(a: Seq<u8>, b: Seq<u8>, i: int)
    requires
        a.len() == b.len(),
        0 <= i < a.len(),
        digits_ok(a),
        a[i] < b[i],
        forall|j: int| i < j < a.len() ==> a[j] == b[j],
    ensures
        val(a) < val(b),
{
    lemma_val_split(a, i + 1);
    lemma_val_split(b, i + 1);
    assert(a.skip(i + 1) =~= b.skip(i + 1));
    lemma_val_take_succ(a, i);
    lemma_val_take_succ(b, i);
    assert(digits_ok(a.take(i)));
    lemma_val_upper(a.take(i));
    let p = pow10(i as nat);
    assert((b[i] as nat) * p >= (a[i] as nat) * p + p) by (nonlinear_arith)
        requires b[i] >= a[i] + 1, p >= 0;
    assert(val(b.take(i)) >= 0);
    assert(val(a.take(i + 1)) < val(b.take(i + 1)));
}

/// A trailing (most-significant) zero does not change the value.
pub proof fn lemma_val_drop_zero(s: Seq<u8>)
    requires
        s.len() >= 1,
        s.last() == 0,
    ensures
        val(s) == val(s.drop_last()),
{
    assert((0 as nat) * pow10((s.len() - 1) as nat) == 0) by (nonlinear_arith);
}

} // verus!
