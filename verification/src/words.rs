//! Word-level primitives: addition with carry propagation and subtraction
//! with borrow propagation over equal-length digit sequences.
use vstd::prelude::*;
use crate::digits::{bit, pow256, seq_val, lemma_pow256_pos, lemma_seq_val_bound,
    lemma_seq_val_push, lemma_seq_val_split, lemma_seq_val_take_skip, lemma_seq_val_take_succ,
    lemma_seq_val_zeros};
use vstd::arithmetic::div_mod::lemma_small_mod;

verus! {

/// Rewrites a digit sequence to a given length without changing its value:
/// pads with zero words, or drops high words that must be zero because the
/// value fits below `256^m`.
pub fn resize_digits(a: &Vec<u8>, m: usize) -> (res: Vec<u8>)
    requires
        seq_val(a@) < pow256(m as nat),
    ensures
        res@.len() == m,
        seq_val(res@) == seq_val(a@),
{
    let mut result: Vec<u8> = Vec::new();
    let mut i: usize = 0;
    while i < m
        invariant
            i <= m,
            result@.len() == i,
            result@ == if i <= a@.len() {
                a@.take(i as int)
            } else {
                a@ + Seq::<u8>::new((i - a@.len()) as nat, |t: int| 0u8)
            },
        decreases m - i,
    {
        let digit: u8 = if i < a.len() {
            a[i]
        } else {
            0
        };
        result.push(digit);
        proof {
            if i + 1 <= a@.len() {
                assert(result@ =~= a@.take(i + 1));
            } else {
                assert(result@ =~= a@ + Seq::<u8>::new((i + 1 - a@.len()) as nat, |t: int| 0u8));
            }
        }
        i += 1;
    }
    proof {
        if m <= a@.len() {
            lemma_seq_val_take_skip(a@, m as int);
            lemma_pow256_pos(m as nat);
            lemma_small_mod(seq_val(a@), pow256(m as nat));
        } else {
            lemma_seq_val_split(result@, a@.len() as int);
            assert(result@.take(a@.len() as int) =~= a@);
            lemma_seq_val_zeros(result@.skip(a@.len() as int));
        }
    }
    result
}

/// Adds two equal-length digit sequences. Returns the low `n` digits of the
/// sum together with the final carry bit, so that
/// `value(result) + carry * 256^n == value(first) + value(second)`.
pub fn add(first: &Vec<u8>, second: &Vec<u8>) -> (res: (Vec<u8>, bool))
    requires
        first@.len() == second@.len(),
    ensures
        res.0@.len() == first@.len(),
        seq_val(res.0@) + bit(res.1) * pow256(first@.len()) == seq_val(first@) + seq_val(second@),
        !res.1 ==> seq_val(res.0@) == seq_val(first@) + seq_val(second@),
        res.1 ==> seq_val(res.0@) + pow256(first@.len()) == seq_val(first@) + seq_val(second@),
{
    let n: usize = first.len();
    let mut result: Vec<u8> = Vec::new();
    let mut carry: bool = false;
    let mut i: usize = 0;
    while i < n
        invariant
            first@.len() == n,
            second@.len() == n,
            i <= n,
            result@.len() == i,
            seq_val(result@) + bit(carry) * pow256(i as nat) == seq_val(first@.take(i as int))
                + seq_val(second@.take(i as int)),
        decreases n - i,
    {
        let sum: u16 = first[i] as u16 + second[i] as u16 + (if carry {
            1u16
        } else {
            0u16
        });
        let digit: u8 = (sum % 256) as u8;
        let newcarry: bool = sum >= 256;
        proof {
            lemma_seq_val_push(result@, digit);
            lemma_seq_val_take_succ(first@, i as int);
            lemma_seq_val_take_succ(second@, i as int);
            let pw = pow256(i as nat);
            assert(digit as nat + 256 * bit(newcarry) == sum as nat);
            assert(seq_val(result@) + digit as nat * pw + bit(newcarry) * (256 * pw) == seq_val(
                result@,
            ) + bit(carry) * pw + (first@[i as int] as nat) * pw + (second@[i as int] as nat) * pw)
                by (nonlinear_arith)
                requires
                    digit as nat + 256 * bit(newcarry) == sum as nat,
                    sum as nat == first@[i as int] as nat + second@[i as int] as nat + bit(carry),
            ;
        }
        result.push(digit);
        carry = newcarry;
        i += 1;
    }
    proof {
        assert(first@.take(n as int) =~= first@);
        assert(second@.take(n as int) =~= second@);
        if carry {
            assert(bit(carry) * pow256(n as nat) == pow256(n as nat)) by (nonlinear_arith)
                requires
                    bit(carry) == 1,
            ;
        } else {
            assert(bit(carry) * pow256(n as nat) == 0) by (nonlinear_arith)
                requires
                    bit(carry) == 0,
            ;
        }
    }
    (result, carry)
}

/// Subtracts the second sequence from the first, propagating borrows.
/// The result is the difference modulo `256^n`; the borrow bit is set exactly
/// when the true difference is negative, so that
/// `value(result) + value(second) == value(first) + borrow * 256^n`.
pub fn sub(first: &Vec<u8>, second: &Vec<u8>) -> (res: (Vec<u8>, bool))
    requires
        first@.len() == second@.len(),
    ensures
        res.0@.len() == first@.len(),
        seq_val(res.0@) + seq_val(second@) == seq_val(first@) + bit(res.1) * pow256(first@.len()),
        !res.1 ==> seq_val(res.0@) + seq_val(second@) == seq_val(first@),
        res.1 ==> seq_val(res.0@) + seq_val(second@) == seq_val(first@) + pow256(first@.len()),
        res.1 <==> seq_val(first@) < seq_val(second@),
{
    let n: usize = first.len();
    let mut result: Vec<u8> = Vec::new();
    let mut borrow: bool = false;
    let mut i: usize = 0;
    while i < n
        invariant
            first@.len() == n,
            second@.len() == n,
            i <= n,
            result@.len() == i,
            seq_val(result@) + seq_val(second@.take(i as int)) == seq_val(first@.take(i as int))
                + bit(borrow) * pow256(i as nat),
        decreases n - i,
    {
        let bin: u16 = if borrow {
            1u16
        } else {
            0u16
        };
        let eps: bool = (first[i] as u16) < second[i] as u16 + bin;
        let diff: u16 = (if eps {
            256u16
        } else {
            0u16
        }) + first[i] as u16 - second[i] as u16 - bin;
        let digit: u8 = diff as u8;
        proof {
            lemma_seq_val_push(result@, digit);
            lemma_seq_val_take_succ(first@, i as int);
            lemma_seq_val_take_succ(second@, i as int);
            let pw = pow256(i as nat);
            assert(digit as nat + second@[i as int] as nat + bit(borrow) == first@[i as int] as nat
                + 256 * bit(eps));
            assert(seq_val(result@) + digit as nat * pw + seq_val(second@.take(i as int))
                + (second@[i as int] as nat) * pw == seq_val(first@.take(i as int))
                + (first@[i as int] as nat) * pw + bit(eps) * (256 * pw)) by (nonlinear_arith)
                requires
                    digit as nat + second@[i as int] as nat + bit(borrow) == first@[i as int] as nat
                        + 256 * bit(eps),
                    seq_val(result@) + seq_val(second@.take(i as int)) == seq_val(
                        first@.take(i as int),
                    ) + bit(borrow) * pw,
            ;
        }
        result.push(digit);
        borrow = eps;
        i += 1;
    }
    proof {
        assert(first@.take(n as int) =~= first@);
        assert(second@.take(n as int) =~= second@);
        lemma_seq_val_bound(result@);
        lemma_seq_val_bound(first@);
        if borrow {
            assert(bit(borrow) * pow256(n as nat) == pow256(n as nat)) by (nonlinear_arith)
                requires
                    bit(borrow) == 1,
            ;
        } else {
            assert(bit(borrow) * pow256(n as nat) == 0) by (nonlinear_arith)
                requires
                    bit(borrow) == 0,
            ;
        }
    }
    (result, borrow)
}

} // verus!
