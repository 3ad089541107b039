//! Fold helpers over sequences of arbitrary-precision integers: shard
//! reconstruction by summation, and summation of scaled shards.

use vstd::prelude::*;

use crate::digits::digits_of_nat;
use crate::digits::digits_ok;
use crate::digits::lemma_canonical_unique;
use crate::digits::lemma_digits_of_nat;
use crate::digits::lemma_val_single;
use crate::digits::val;
use crate::digits::wf;
use crate::math::MathError;
use crate::u_infinite::all_digits;
use crate::u_infinite::UInfinite;

verus! {

/// The sum of the values of the first `i` chunks.
pub open spec fn total_val(s: Seq<UInfinite>, i: int) -> nat
    decreases i,
{
    if i <= 0 || i > s.len() {
        0
    } else {
        total_val(s, i - 1) + val(s[i - 1]@)
    }
}

/// The sum of the values of the first `i` chunks, each scaled by `m`.
pub open spec fn total_scaled_val(s: Seq<UInfinite>, m: nat, i: int) -> nat
    decreases i,
{
    if i <= 0 || i > s.len() {
        0
    } else {
        total_scaled_val(s, m, i - 1) + val(s[i - 1]@) * m
    }
}

/// Folds addition over the chunks, starting from zero. Never fails; the
/// result stands for the sum of all chunk values, and on canonical chunks it
/// is exactly the canonical digits of that sum.
pub fn link_chunks(chunks: &[UInfinite]) -> (r: Result<UInfinite, MathError>)
    requires
        forall|i: int| 0 <= i < chunks@.len() ==> digits_ok(#[trigger] chunks@[i]@),
    ensures
        r is Ok,
        r matches Ok(v) ==> digits_ok(v@) && val(v@) == total_val(chunks@, chunks@.len() as int),
        (forall|i: int| 0 <= i < chunks@.len() ==> wf(#[trigger] chunks@[i]@)) ==> (r matches Ok(v)
            && v@ == digits_of_nat(total_val(chunks@, chunks@.len() as int))),
{
    let zero = UInfinite::from_string("0");
    proof {
        reveal_strlit("0");
        assert("0"@.len() == 1 && "0"@[0] == '0');
        assert(all_digits("0"@));
    }
    let mut acc = match zero {
        Ok(z) => z,
        Err(_) => {
            proof {
                assert(false);
            }
            return Err(MathError::InvalidDigit);
        },
    };
    proof {
        assert(acc@ =~= seq![0u8]);
        lemma_val_single(0);
    }
    let n = chunks.len();
    let mut i: usize = 0;
    while i < n
        invariant
            i <= n,
            n == chunks@.len(),
            forall|j: int| 0 <= j < chunks@.len() ==> digits_ok(#[trigger] chunks@[j]@),
            digits_ok(acc@),
            val(acc@) == total_val(chunks@, i as int),
            (forall|j: int| 0 <= j < chunks@.len() ==> wf(#[trigger] chunks@[j]@)) ==> (wf(acc@)
                && acc@.len() >= 1),
        decreases n - i,
    {
        let next = match acc.add(&chunks[i]) {
            Ok(v) => v,
            Err(e) => {
                return Err(e);
            },
        };
        proof {
            if forall|j: int| 0 <= j < chunks@.len() ==> wf(#[trigger] chunks@[j]@) {
                assert(wf(chunks@[i as int]@));
                lemma_digits_of_nat(val(acc@) + val(chunks@[i as int]@));
            }
        }
        acc = next;
        i += 1;
    }
    proof {
        if forall|j: int| 0 <= j < chunks@.len() ==> wf(#[trigger] chunks@[j]@) {
            lemma_canonical_unique(acc@);
        }
    }
    Ok(acc)
}

/// Folds addition over the chunks after scaling each by the multiplier,
/// starting from zero. Never fails; the result is exactly the canonical
/// digits of the scaled sum.
pub fn chain_mul(chunks: &[UInfinite], multiplier: &UInfinite) -> (r: Result<UInfinite, MathError>)
    requires
        forall|i: int| 0 <= i < chunks@.len() ==> digits_ok(#[trigger] chunks@[i]@),
        digits_ok(multiplier@),
        forall|i: int|
            0 <= i < chunks@.len() ==> (#[trigger] chunks@[i]@).len() + multiplier@.len()
                <= usize::MAX,
    ensures
        r is Ok,
        r matches Ok(v) ==> v@ == digits_of_nat(
            total_scaled_val(chunks@, val(multiplier@), chunks@.len() as int),
        ),
{
    let zero = UInfinite::from_string("0");
    proof {
        reveal_strlit("0");
        assert("0"@.len() == 1 && "0"@[0] == '0');
        assert(all_digits("0"@));
    }
    let mut acc = match zero {
        Ok(z) => z,
        Err(_) => {
            proof {
                assert(false);
            }
            return Err(MathError::InvalidDigit);
        },
    };
    proof {
        assert(acc@ =~= seq![0u8]);
        lemma_val_single(0);
    }
    let n = chunks.len();
    let mut i: usize = 0;
    while i < n
        invariant
            i <= n,
            n == chunks@.len(),
            forall|j: int| 0 <= j < chunks@.len() ==> digits_ok(#[trigger] chunks@[j]@),
            digits_ok(multiplier@),
            forall|j: int|
                0 <= j < chunks@.len() ==> (#[trigger] chunks@[j]@).len() + multiplier@.len()
                    <= usize::MAX,
            wf(acc@),
            acc@.len() >= 1,
            val(acc@) == total_scaled_val(chunks@, val(multiplier@), i as int),
        decreases n - i,
    {
        let scaled = match chunks[i].mul(multiplier) {
            Ok(v) => v,
            Err(e) => {
                return Err(e);
            },
        };
        proof {
            if scaled@.len() >= 1 {
                lemma_digits_of_nat(val(chunks@[i as int]@) * val(multiplier@));
            } else {
                assert(val(scaled@) == 0);
                assert(val(chunks@[i as int]@) * val(multiplier@) == 0) by (nonlinear_arith)
                    requires
                        val(chunks@[i as int]@) == 0 || val(multiplier@) == 0,
                ;
            }
            assert(val(scaled@) == val(chunks@[i as int]@) * val(multiplier@));
            assert(wf(scaled@));
        }
        let next = match acc.add(&scaled) {
            Ok(v) => v,
            Err(e) => {
                return Err(e);
            },
        };
        proof {
            lemma_digits_of_nat(val(acc@) + val(scaled@));
        }
        acc = next;
        i += 1;
    }
    proof {
        lemma_canonical_unique(acc@);
    }
    Ok(acc)
}

} // verus!
