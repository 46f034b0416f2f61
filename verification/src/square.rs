//! Optimized squaring: each cross product of two distinct digit positions is
//! computed once and doubled before it is folded into the wide accumulator;
//! diagonal terms are added once, undoubled.
use vstd::prelude::*;
use crate::digits::{pow256, seq_val, lemma_pow256_add, lemma_seq_val_bound, lemma_seq_val_digit,
    lemma_seq_val_take_le, lemma_seq_val_take_succ, lemma_seq_val_update};

verus! {

/// The part of `value(x)^2` produced once the rows up to (excluding) `i`
/// have been accumulated: every term of the square except the square of the
/// not-yet-processed tail.
spec fn sq_partial(x: Seq<u8>, i: int) -> int {
    seq_val(x) * seq_val(x) - (seq_val(x) - seq_val(x.take(i))) * (seq_val(x) - seq_val(x.take(i)))
}

/// Squares a digit sequence into the exact double-width product,
/// `value(result) == value(x) * value(x)`, using about half the digit
/// multiplications of the generic multiplier.
pub fn square(x: &Vec<u8>) -> (res: Vec<u8>)
    requires
        2 * x@.len() <= usize::MAX,
    ensures
        res@.len() == 2 * x@.len(),
        seq_val(res@) == seq_val(x@) * seq_val(x@),
{
    let n: usize = x.len();
    let mut result: Vec<u8> = crate::mul::zero_vec(2 * n);
    let mut i: usize = 0;
    let ghost v = seq_val(x@);
    proof {
        assert(seq_val(x@.take(0)) == 0);
        assert(sq_partial(x@, 0) == 0) by (nonlinear_arith)
            requires
                sq_partial(x@, 0) == v * v - (v - seq_val(x@.take(0))) * (v - seq_val(x@.take(0))),
                seq_val(x@.take(0)) == 0,
        ;
    }
    while i < n
        invariant
            x@.len() == n,
            2 * n <= usize::MAX,
            v == seq_val(x@),
            i <= n,
            result@.len() == 2 * n,
            seq_val(result@) == sq_partial(x@, i as int),
            forall|t: int| i + n + 1 <= t < 2 * n ==> result@[t] == 0,
        decreases n - i,
    {
        let xi: u32 = x[i] as u32;
        proof {
            assert(xi * xi <= 255 * 255) by (nonlinear_arith)
                requires
                    xi <= 255,
            ;
        }
        // Diagonal term, added once.
        let s0: u32 = xi * xi + result[2 * i] as u32;
        let d0: u8 = (s0 % 256) as u8;
        proof {
            let old_d = result@[2 * (i as int)] as nat;
            lemma_seq_val_update(result@, 2 * (i as int), d0);
            lemma_seq_val_take_succ(x@, i as int);
            lemma_seq_val_take_le(x@, i as int);
            lemma_seq_val_take_le(x@, i as int + 1);
            let p2i = pow256((2 * i) as nat);
            assert(pow256((2 * i + 1) as nat) == 256 * p2i);
            assert(seq_val(result@.update(2 * (i as int), d0)) + (s0 as nat / 256) * (256 * p2i)
                == seq_val(result@) + (xi * xi) * p2i) by (nonlinear_arith)
                requires
                    seq_val(result@.update(2 * (i as int), d0)) + old_d * p2i == seq_val(result@)
                        + d0 as nat * p2i,
                    d0 as nat + 256 * (s0 as nat / 256) == s0 as nat,
                    s0 as nat == xi * xi + old_d,
            ;
        }
        result.set(2 * i, d0);
        let mut carry: u32 = s0 / 256;
        let mut j: usize = i + 1;
        proof {
            assert(seq_val(result@) + carry as int * pow256((i + j) as nat) == sq_partial(
                x@,
                i as int,
            ) + (xi as int * xi as int) * pow256((2 * i) as nat) + 2 * (xi as int) * ((seq_val(
                x@.take(j as int),
            ) - seq_val(x@.take(i as int + 1))) * pow256(i as nat))) by (nonlinear_arith)
                requires
                    seq_val(result@) + carry as nat * (256 * pow256((2 * i) as nat)) == sq_partial(
                        x@,
                        i as int,
                    ) + (xi as nat * xi as nat) * pow256((2 * i) as nat),
                    pow256((i + j) as nat) == 256 * pow256((2 * i) as nat),
                    seq_val(x@.take(j as int)) == seq_val(x@.take(i as int + 1)),
            ;
        }
        while j < n
            invariant
                x@.len() == n,
                2 * n <= usize::MAX,
                v == seq_val(x@),
                i < n,
                i + 1 <= j <= n,
                xi == x@[i as int] as u32,
                carry <= 511,
                result@.len() == 2 * n,
                seq_val(result@) + carry as int * pow256((i + j) as nat) == sq_partial(x@, i as int)
                    + (xi as int * xi as int) * pow256((2 * i) as nat) + 2 * (xi as int) * ((seq_val(
                    x@.take(j as int),
                ) - seq_val(x@.take(i as int + 1))) * pow256(i as nat)),
                forall|t: int| i + n + 1 <= t < 2 * n ==> result@[t] == 0,
            decreases n - j,
        {
            let xj: u32 = x[j] as u32;
            proof {
                assert(2 * (xi * xj) <= 2 * (255 * 255)) by (nonlinear_arith)
                    requires
                        xi <= 255,
                        xj <= 255,
                ;
            }
            let r: u32 = result[i + j] as u32 + 2 * (xi * xj) + carry;
            let d: u8 = (r % 256) as u8;
            proof {
                let old_d = result@[i + j] as nat;
                lemma_seq_val_update(result@, (i + j) as int, d);
                lemma_seq_val_take_succ(x@, j as int);
                lemma_seq_val_take_le(x@, j as int + 1);
                lemma_pow256_add(i as nat, j as nat);
                let pij = pow256((i + j) as nat);
                let pi = pow256(i as nat);
                let pj = pow256(j as nat);
                assert(pow256((i + j + 1) as nat) == 256 * pij);
                assert(seq_val(result@.update((i + j) as int, d)) + (r as nat / 256) * (256 * pij)
                    == seq_val(result@) + carry as nat * pij + 2 * (xi as int) * ((x@[j as int]
                    as int) * pj * pi)) by (nonlinear_arith)
                    requires
                        seq_val(result@.update((i + j) as int, d)) + old_d * pij == seq_val(
                            result@,
                        ) + d as nat * pij,
                        d as nat + 256 * (r as nat / 256) == r as nat,
                        r as nat == old_d + 2 * (xi as nat * (x@[j as int] as nat)) + carry as nat,
                        pij == pi * pj,
                ;
                assert(2 * (xi as int) * ((seq_val(x@.take(j as int + 1)) - seq_val(
                    x@.take(i as int + 1),
                )) * pi) == 2 * (xi as int) * ((seq_val(x@.take(j as int)) - seq_val(
                    x@.take(i as int + 1),
                )) * pi) + 2 * (xi as int) * ((x@[j as int] as int) * pj * pi))
                    by (nonlinear_arith)
                    requires
                        seq_val(x@.take(j as int + 1)) == seq_val(x@.take(j as int)) + (x@[j as int]
                            as nat) * pj,
                ;
            }
            result.set(i + j, d);
            carry = r / 256;
            j += 1;
        }
        proof {
            assert(x@.take(n as int) =~= x@);
            lemma_seq_val_take_succ(x@, i as int);
            lemma_pow256_add(i as nat, i as nat);
            let pw = pow256(i as nat);
            assert((2 * i) as nat == i as nat + i as nat);
            assert(pow256((2 * i) as nat) == pw * pw);
            let a = v - seq_val(x@.take(i as int));
            let b = v - seq_val(x@.take(i as int + 1));
            assert(v * v - b * b == v * v - a * a + (xi as int * xi as int) * (pw * pw) + 2 * (
            xi as int) * (b * pw)) by (nonlinear_arith)
                requires
                    a == b + (xi as int) * pw,
            ;
            assert(sq_partial(x@, i as int + 1) == sq_partial(x@, i as int) + (xi as int
                * xi as int) * pow256((2 * i) as nat) + 2 * (xi as int) * ((v - seq_val(
                x@.take(i as int + 1),
            )) * pow256(i as nat)));
        }
        // Deposit the row's leftover carry, which may span two words.
        let t0: u32 = result[i + n] as u32 + carry;
        if i + n + 1 < 2 * n {
            let dl: u8 = (t0 % 256) as u8;
            let dh: u8 = (t0 / 256) as u8;
            proof {
                let old_d = result@[i + n] as nat;
                let pin = pow256((i + n) as nat);
                assert(pow256((i + n + 1) as nat) == 256 * pin);
                lemma_seq_val_update(result@, (i + n) as int, dl);
                let mid = result@.update((i + n) as int, dl);
                lemma_seq_val_update(mid, (i + n + 1) as int, dh);
                assert(mid[i + n + 1] == 0);
                assert(seq_val(mid.update((i + n + 1) as int, dh)) == seq_val(result@) + carry
                    as nat * pin) by (nonlinear_arith)
                    requires
                        seq_val(mid.update((i + n + 1) as int, dh)) + 0 * (256 * pin) == seq_val(
                            mid,
                        ) + dh as nat * (256 * pin),
                        seq_val(mid) + old_d * pin == seq_val(result@) + dl as nat * pin,
                        dl as nat + 256 * (dh as nat) == t0 as nat,
                        t0 as nat == old_d + carry as nat,
                ;
            }
            result.set(i + n, dl);
            result.set(i + n + 1, dh);
        } else {
            proof {
                lemma_seq_val_bound(x@);
                lemma_pow256_add(n as nat, n as nat);
                crate::digits::lemma_pow256_pos((i + n) as nat);
                let p2n1 = pow256((i + n) as nat);
                assert(pow256((2 * n) as nat) == 256 * p2n1);
                assert(x@.take(i as int + 1) =~= x@);
                assert(sq_partial(x@, i as int + 1) == v * v) by (nonlinear_arith)
                    requires
                        sq_partial(x@, i as int + 1) == v * v - (v - seq_val(x@.take(i as int + 1)))
                            * (v - seq_val(x@.take(i as int + 1))),
                        seq_val(x@.take(i as int + 1)) == v,
                ;
                assert(v * v < pow256(n as nat) * pow256(n as nat)) by (nonlinear_arith)
                    requires
                        v < pow256(n as nat),
                        v >= 0,
                ;
                lemma_seq_val_digit(result@, (i + n) as int);
                assert((result@[(i + n) as int] as nat + carry as nat) * p2n1 <= seq_val(result@)
                    + carry as nat * p2n1) by (nonlinear_arith)
                    requires
                        result@[(i + n) as int] as nat * p2n1 <= seq_val(result@),
                ;
                assert(t0 < 256) by (nonlinear_arith)
                    requires
                        t0 as nat * p2n1 < 256 * p2n1,
                        p2n1 >= 1,
                ;
                let old_d = result@[i + n] as nat;
                lemma_seq_val_update(result@, (i + n) as int, (t0 as u8));
                assert(seq_val(result@.update((i + n) as int, t0 as u8)) == seq_val(result@)
                    + carry as nat * p2n1) by (nonlinear_arith)
                    requires
                        seq_val(result@.update((i + n) as int, t0 as u8)) + old_d * p2n1 == seq_val(
                            result@,
                        ) + t0 as nat * p2n1,
                        t0 as nat == old_d + carry as nat,
                ;
            }
            let dl: u8 = t0 as u8;
            result.set(i + n, dl);
        }
        i += 1;
    }
    proof {
        assert(x@.take(n as int) =~= x@);
        assert(seq_val(result@) == v * v) by (nonlinear_arith)
            requires
                seq_val(result@) == v * v - (v - seq_val(x@.take(n as int))) * (v - seq_val(
                    x@.take(n as int),
                )),
                seq_val(x@.take(n as int)) == v,
        ;
    }
    result
}

} // verus!
