//! Schoolbook double-width multiplication, in both accumulation orders:
//! row-major (operand scanning) and column-major (product scanning).
use vstd::prelude::*;
use crate::digits::{pow256, seq_val, lemma_pow256_add, lemma_seq_val_bound, lemma_seq_val_push,
    lemma_seq_val_take_succ, lemma_seq_val_update, lemma_seq_val_zeros};

verus! {

/// A vector of `len` zero digits.
pub(crate) fn zero_vec(len: usize) -> (res: Vec<u8>)
    ensures
        res@.len() == len,
        forall|t: int| 0 <= t < len ==> res@[t] == 0,
        seq_val(res@) == 0,
{
    let mut result: Vec<u8> = Vec::new();
    let mut i: usize = 0;
    while i < len
        invariant
            i <= len,
            result@.len() == i,
            forall|t: int| 0 <= t < i ==> result@[t] == 0,
        decreases len - i,
    {
        result.push(0);
        i += 1;
    }
    proof {
        lemma_seq_val_zeros(result@);
    }
    result
}

/// Multiplies two digit sequences row by row: for each digit of the first
/// operand, sweeps across the second operand accumulating into the partial
/// result, and deposits the row's final carry one position past the row.
/// The result is the exact double-width product:
/// `value(result) == value(first) * value(second)`.
pub fn mul_operand_scanning(first: &Vec<u8>, second: &Vec<u8>) -> (res: Vec<u8>)
    requires
        first@.len() + second@.len() <= usize::MAX,
    ensures
        res@.len() == first@.len() + second@.len(),
        seq_val(res@) == seq_val(first@) * seq_val(second@),
{
    let la: usize = first.len();
    let lb: usize = second.len();
    let mut result: Vec<u8> = zero_vec(la + lb);
    let mut i: usize = 0;
    proof {
        assert(seq_val(first@.take(0)) == 0);
        assert(seq_val(first@.take(0)) * seq_val(second@) == 0) by (nonlinear_arith)
            requires
                seq_val(first@.take(0)) == 0,
        ;
    }
    while i < la
        invariant
            first@.len() == la,
            second@.len() == lb,
            la + lb <= usize::MAX,
            i <= la,
            result@.len() == la + lb,
            seq_val(result@) == seq_val(first@.take(i as int)) * seq_val(second@),
            forall|t: int| i + lb <= t < la + lb ==> result@[t] == 0,
        decreases la - i,
    {
        let mut carry: u16 = 0;
        let mut j: usize = 0;
        proof {
            assert(seq_val(second@.take(0)) == 0);
            assert(first@[i as int] as nat * seq_val(second@.take(0)) * pow256(i as nat) == 0)
                by (nonlinear_arith)
                requires
                    seq_val(second@.take(0)) == 0,
            ;
        }
        while j < lb
            invariant
                first@.len() == la,
                second@.len() == lb,
                la + lb <= usize::MAX,
                i < la,
                j <= lb,
                carry <= 255,
                result@.len() == la + lb,
                seq_val(result@) + carry as nat * pow256((i + j) as nat) == seq_val(
                    first@.take(i as int),
                ) * seq_val(second@) + first@[i as int] as nat * seq_val(second@.take(j as int))
                    * pow256(i as nat),
                forall|t: int| i + lb <= t < la + lb ==> result@[t] == 0,
            decreases lb - j,
        {
            let fi16: u16 = first[i] as u16;
            let sj16: u16 = second[j] as u16;
            proof {
                assert(fi16 * sj16 <= 255 * 255) by (nonlinear_arith)
                    requires
                        fi16 <= 255,
                        sj16 <= 255,
                ;
            }
            let prod: u16 = fi16 * sj16 + result[i + j] as u16 + carry;
            let digit: u8 = (prod % 256) as u8;
            proof {
                let fi = first@[i as int] as nat;
                let sj = second@[j as int] as nat;
                let old_d = result@[i + j] as nat;
                lemma_seq_val_update(result@, (i + j) as int, digit);
                lemma_seq_val_take_succ(second@, j as int);
                lemma_pow256_add((i + j) as nat, 1);
                lemma_pow256_add(i as nat, j as nat);
                let pij = pow256((i + j) as nat);
                let pi = pow256(i as nat);
                let pj = pow256(j as nat);
                assert(seq_val(result@.update((i + j) as int, digit)) + (prod as nat / 256) * (pij
                    * 256) == seq_val(result@) - old_d * pij + fi * (sj * pj) * pi + old_d * pij
                    + carry as nat * pij) by (nonlinear_arith)
                    requires
                        seq_val(result@.update((i + j) as int, digit)) + old_d * pij == seq_val(
                            result@,
                        ) + digit as nat * pij,
                        digit as nat + 256 * (prod as nat / 256) == prod as nat,
                        prod as nat == fi * sj + old_d + carry as nat,
                        pij == pi * pj,
                ;
                assert(fi * (seq_val(second@.take(j as int)) + sj * pj) * pi == fi * seq_val(
                    second@.take(j as int),
                ) * pi + fi * (sj * pj) * pi) by (nonlinear_arith);
            }
            result.set(i + j, digit);
            carry = prod / 256;
            j += 1;
        }
        proof {
            assert(second@.take(lb as int) =~= second@);
        }
        let d2: u8 = carry as u8;
        proof {
            assert(result@[(i + lb) as int] == 0);
            lemma_seq_val_update(result@, (i + lb) as int, d2);
            lemma_seq_val_take_succ(first@, i as int);
            lemma_pow256_add(i as nat, lb as nat);
            assert(seq_val(result@.update((i + lb) as int, d2)) == seq_val(first@.take(i as int))
                * seq_val(second@) + first@[i as int] as nat * pow256(i as nat) * seq_val(second@))
                by (nonlinear_arith)
                requires
                    seq_val(result@.update((i + lb) as int, d2)) == seq_val(result@) + d2 as nat
                        * (pow256(i as nat) * pow256(lb as nat)),
                    seq_val(result@) + d2 as nat * (pow256(i as nat) * pow256(lb as nat)) == seq_val(
                        first@.take(i as int),
                    ) * seq_val(second@) + first@[i as int] as nat * seq_val(second@) * pow256(
                        i as nat,
                    ),
            ;
            assert((seq_val(first@.take(i as int)) + first@[i as int] as nat * pow256(i as nat))
                * seq_val(second@) == seq_val(first@.take(i as int)) * seq_val(second@)
                + first@[i as int] as nat * pow256(i as nat) * seq_val(second@))
                by (nonlinear_arith);
        }
        result.set(i + lb, d2);
        i += 1;
    }
    proof {
        assert(first@.take(la as int) =~= first@);
    }
    result
}

/// Clamps a column offset to the valid prefix lengths of the second operand.
spec fn cap(t: int, m: int) -> int {
    if t < 0 {
        0
    } else if t > m {
        m
    } else {
        t
    }
}

/// The value accumulated once every digit pair `(r, c)` with `r < i` and
/// `r + c < kk` has been added: row `r` has reached the prefix of `b` that
/// column `kk` allows it.
spec fn rows_upto(a: Seq<u8>, b: Seq<u8>, kk: int, i: int) -> nat
    decreases i,
{
    if i <= 0 {
        0
    } else {
        rows_upto(a, b, kk, i - 1) + a[i - 1] as nat * pow256((i - 1) as nat) * seq_val(
            b.take(cap(kk - (i - 1), b.len() as int)),
        )
    }
}

/// The sum of the digit products in column `kk` contributed by rows below `i`.
spec fn col_upto(a: Seq<u8>, b: Seq<u8>, kk: int, i: int) -> nat
    decreases i,
{
    if i <= 0 {
        0
    } else {
        col_upto(a, b, kk, i - 1) + if 0 <= kk - (i - 1) < b.len() {
            a[i - 1] as nat * b[kk - (i - 1)] as nat
        } else {
            0
        }
    }
}

proof fn lemma_rows_upto_zero(a: Seq<u8>, b: Seq<u8>, i: int)
    requires
        0 <= i <= a.len(),
    ensures
        rows_upto(a, b, 0, i) == 0,
    decreases i,
{
    if i > 0 {
        lemma_rows_upto_zero(a, b, i - 1);
        assert(cap(0 - (i - 1), b.len() as int) == 0);
        assert(seq_val(b.take(0)) == 0);
        assert(a[i - 1] as nat * pow256((i - 1) as nat) * seq_val(b.take(0)) == 0)
            by (nonlinear_arith)
            requires
                seq_val(b.take(0)) == 0,
        ;
    }
}

/// Moving from column `kk` to `kk + 1` adds exactly column `kk`'s digit
/// products, at weight `256^kk`.
proof fn lemma_rows_step(a: Seq<u8>, b: Seq<u8>, kk: int, i: int)
    requires
        0 <= i <= a.len(),
        0 <= kk,
    ensures
        rows_upto(a, b, kk + 1, i) == rows_upto(a, b, kk, i) + col_upto(a, b, kk, i) * pow256(
            kk as nat,
        ),
    decreases i,
{
    let lb = b.len() as int;
    if i == 0 {
        assert(col_upto(a, b, kk, 0) * pow256(kk as nat) == 0) by (nonlinear_arith)
            requires
                col_upto(a, b, kk, 0) == 0,
        ;
    } else {
        lemma_rows_step(a, b, kk, i - 1);
        let i1 = i - 1;
        let t1 = kk - i1;
        let extra: nat = if 0 <= t1 < lb {
            a[i1] as nat * b[t1] as nat
        } else {
            0
        };
        if 0 <= t1 < lb {
            assert(cap(t1 + 1, lb) == t1 + 1);
            assert(cap(t1, lb) == t1);
            lemma_seq_val_take_succ(b, t1);
            lemma_pow256_add(i1 as nat, t1 as nat);
            assert(a[i1] as nat * pow256(i1 as nat) * seq_val(b.take(t1 + 1)) == a[i1] as nat
                * pow256(i1 as nat) * seq_val(b.take(t1)) + (a[i1] as nat * b[t1] as nat) * pow256(
                kk as nat,
            )) by (nonlinear_arith)
                requires
                    seq_val(b.take(t1 + 1)) == seq_val(b.take(t1)) + b[t1] as nat * pow256(
                        t1 as nat,
                    ),
                    pow256(kk as nat) == pow256(i1 as nat) * pow256(t1 as nat),
            ;
        } else {
            assert(cap(t1 + 1, lb) == cap(t1, lb));
        }
        assert(col_upto(a, b, kk, i) == col_upto(a, b, kk, i1) + extra);
        assert(col_upto(a, b, kk, i) * pow256(kk as nat) == col_upto(a, b, kk, i1) * pow256(
            kk as nat,
        ) + extra * pow256(kk as nat)) by (nonlinear_arith)
            requires
                col_upto(a, b, kk, i) == col_upto(a, b, kk, i1) + extra,
        ;
    }
}

/// Rows below `i` contribute nothing to a column they cannot reach.
proof fn lemma_col_upto_empty(a: Seq<u8>, b: Seq<u8>, kk: int, i: int)
    requires
        0 <= i,
        i == 0 || kk - (i - 1) >= b.len(),
    ensures
        col_upto(a, b, kk, i) == 0,
    decreases i,
{
    if i > 0 {
        lemma_col_upto_empty(a, b, kk, i - 1);
    }
}

/// Rows from `i` up to `i2` with no digit in column `kk` leave the column
/// sum unchanged.
proof fn lemma_col_upto_stable(a: Seq<u8>, b: Seq<u8>, kk: int, i: int, i2: int)
    requires
        0 <= i <= i2,
        i == i2 || kk < i,
    ensures
        col_upto(a, b, kk, i2) == col_upto(a, b, kk, i),
    decreases i2 - i,
{
    if i2 > i {
        lemma_col_upto_stable(a, b, kk, i, i2 - 1);
    }
}

/// Once the column index clears every row, the accumulated value is the
/// whole product.
proof fn lemma_rows_upto_full(a: Seq<u8>, b: Seq<u8>, kk: int, i: int)
    requires
        0 <= i <= a.len(),
        kk >= i - 1 + b.len(),
    ensures
        rows_upto(a, b, kk, i) == seq_val(a.take(i)) * seq_val(b),
    decreases i,
{
    let lb = b.len() as int;
    if i == 0 {
        assert(seq_val(a.take(0)) * seq_val(b) == 0) by (nonlinear_arith)
            requires
                seq_val(a.take(0)) == 0,
        ;
    } else {
        lemma_rows_upto_full(a, b, kk, i - 1);
        let i1 = i - 1;
        assert(cap(kk - i1, lb) == lb);
        assert(b.take(lb) =~= b);
        lemma_seq_val_take_succ(a, i1);
        assert(seq_val(a.take(i)) * seq_val(b) == seq_val(a.take(i1)) * seq_val(b) + a[i1] as nat
            * pow256(i1 as nat) * seq_val(b)) by (nonlinear_arith)
            requires
                seq_val(a.take(i)) == seq_val(a.take(i1)) + a[i1] as nat * pow256(i1 as nat),
        ;
    }
}

/// Multiplies two digit sequences column by column (Comba style): for each
/// output position, every digit pair whose indices sum to that position is
/// folded into a three-limb running accumulator, which then shifts down by
/// one limb as the column's digit is finalized. Same contract as
/// [`mul_operand_scanning`]: the exact double-width product,
/// `value(result) == value(first) * value(second)`.
pub fn mul_product_scanning(first: &Vec<u8>, second: &Vec<u8>) -> (res: Vec<u8>)
    requires
        1 <= first@.len() <= 127,
        1 <= second@.len() <= 127,
    ensures
        res@.len() == first@.len() + second@.len(),
        seq_val(res@) == seq_val(first@) * seq_val(second@),
{
    let la: usize = first.len();
    let lb: usize = second.len();
    let dd: usize = la + lb;
    let mut result: Vec<u8> = Vec::new();
    let mut r0: u16 = 0;
    let mut r1: u16 = 0;
    let mut r2: u16 = 0;
    let mut kk: usize = 0;
    proof {
        lemma_rows_upto_zero(first@, second@, la as int);
        assert(pow256(0) == 1);
    }
    while kk < dd - 1
        invariant
            first@.len() == la,
            second@.len() == lb,
            1 <= la <= 127,
            1 <= lb <= 127,
            dd == la + lb,
            kk <= dd - 1,
            result@.len() == kk,
            r0 <= 255,
            r1 <= 255,
            r2 == 0,
            seq_val(result@) + (r0 as nat + 256 * r1 as nat + 65536 * r2 as nat) * pow256(
                kk as nat,
            ) == rows_upto(first@, second@, kk as int, la as int),
        decreases dd - 1 - kk,
    {
        let lo: usize = if kk + 1 > lb {
            kk + 1 - lb
        } else {
            0
        };
        let hi: usize = if kk < la - 1 {
            kk
        } else {
            la - 1
        };
        proof {
            lemma_col_upto_empty(first@, second@, kk as int, lo as int);
        }
        let mut i: usize = lo;
        while i <= hi
            invariant
                first@.len() == la,
                second@.len() == lb,
                1 <= la <= 127,
                1 <= lb <= 127,
                dd == la + lb,
                kk <= dd - 2,
                lo == (if kk + 1 > lb {
                    kk + 1 - lb
                } else {
                    0
                }),
                hi as int == (if (kk as int) < la as int - 1 {
                    kk as int
                } else {
                    la as int - 1
                }),
                lo <= i <= hi + 1,
                result@.len() == kk,
                r0 <= 255,
                r1 <= 255,
                r2 <= i - lo,
                i - lo <= 127,
                seq_val(result@) + (r0 as nat + 256 * r1 as nat + 65536 * r2 as nat) * pow256(
                    kk as nat,
                ) == rows_upto(first@, second@, kk as int, la as int) + col_upto(
                    first@,
                    second@,
                    kk as int,
                    i as int,
                ) * pow256(kk as nat),
            decreases hi + 1 - i,
        {
            let fi16: u16 = first[i] as u16;
            let sj16: u16 = second[kk - i] as u16;
            proof {
                assert(fi16 * sj16 <= 255 * 255) by (nonlinear_arith)
                    requires
                        fi16 <= 255,
                        sj16 <= 255,
                ;
            }
            let prod: u16 = fi16 * sj16;
            let ghost acc_old: nat = r0 as nat + 256 * r1 as nat + 65536 * r2 as nat;
            r0 = r0 + prod % 256;
            let eps0: bool = r0 >= 256;
            r0 = r0 % 256;
            r1 = r1 + prod / 256 + (if eps0 {
                1u16
            } else {
                0u16
            });
            let eps1: bool = r1 >= 256;
            r1 = r1 % 256;
            r2 = r2 + (if eps1 {
                1u16
            } else {
                0u16
            });
            proof {
                let acc_new: nat = r0 as nat + 256 * r1 as nat + 65536 * r2 as nat;
                assert(acc_new == acc_old + prod as nat);
                assert(col_upto(first@, second@, kk as int, i as int + 1) == col_upto(
                    first@,
                    second@,
                    kk as int,
                    i as int,
                ) + first@[i as int] as nat * second@[kk - i] as nat);
                assert(acc_new * pow256(kk as nat) == acc_old * pow256(kk as nat) + (first@[i as int]
                    as nat * second@[kk - i] as nat) * pow256(kk as nat)) by (nonlinear_arith)
                    requires
                        acc_new == acc_old + prod as nat,
                        prod as nat == first@[i as int] as nat * second@[kk - i] as nat,
                ;
                assert((col_upto(first@, second@, kk as int, i as int) + first@[i as int] as nat
                    * second@[kk - i] as nat) * pow256(kk as nat) == col_upto(
                    first@,
                    second@,
                    kk as int,
                    i as int,
                ) * pow256(kk as nat) + (first@[i as int] as nat * second@[kk - i] as nat) * pow256(
                    kk as nat,
                )) by (nonlinear_arith);
            }
            i += 1;
        }
        proof {
            lemma_col_upto_stable(first@, second@, kk as int, i as int, la as int);
            lemma_rows_step(first@, second@, kk as int, la as int);
        }
        let digit: u8 = r0 as u8;
        proof {
            lemma_seq_val_push(result@, digit);
            assert(pow256((kk + 1) as nat) == 256 * pow256(kk as nat));
            assert(seq_val(result@) + digit as nat * pow256(kk as nat) + (r1 as nat + 256 * r2
                as nat) * pow256((kk + 1) as nat) == seq_val(result@) + (r0 as nat + 256 * r1 as nat
                + 65536 * r2 as nat) * pow256(kk as nat)) by (nonlinear_arith)
                requires
                    digit as nat == r0 as nat,
                    pow256((kk + 1) as nat) == 256 * pow256(kk as nat),
            ;
        }
        result.push(digit);
        r0 = r1;
        r1 = r2;
        r2 = 0;
        kk += 1;
    }
    proof {
        assert(first@.take(la as int) =~= first@);
        lemma_rows_upto_full(first@, second@, (dd - 1) as int, la as int);
        lemma_seq_val_bound(first@);
        lemma_seq_val_bound(second@);
        lemma_pow256_add(la as nat, lb as nat);
        crate::digits::lemma_pow256_pos((dd - 1) as nat);
        assert(pow256(dd as nat) == 256 * pow256((dd - 1) as nat));
        assert(seq_val(first@) * seq_val(second@) < pow256(la as nat) * pow256(lb as nat))
            by (nonlinear_arith)
            requires
                seq_val(first@) < pow256(la as nat),
                seq_val(second@) < pow256(lb as nat),
        ;
        let acc: nat = r0 as nat + 256 * r1 as nat + 65536 * r2 as nat;
        assert(acc < 256) by (nonlinear_arith)
            requires
                acc * pow256((dd - 1) as nat) <= seq_val(result@) + acc * pow256((dd - 1) as nat),
                seq_val(result@) + acc * pow256((dd - 1) as nat) < 256 * pow256((dd - 1) as nat),
                pow256((dd - 1) as nat) >= 1,
        ;
        assert(r1 == 0 && r2 == 0);
        lemma_seq_val_push(result@, (r0 as u8));
    }
    let digit: u8 = r0 as u8;
    result.push(digit);
    result
}

} // verus!
