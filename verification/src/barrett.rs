//! Barrett reduction: folding a double-width product back into the field
//! without a full-precision division, using the precomputed constant
//! `mu = floor(256^(2k) / p)`.
use vstd::prelude::*;
use vstd::arithmetic::div_mod::{lemma_fundamental_div_mod, lemma_fundamental_div_mod_converse,
    lemma_mod_division_less_than_divisor};
use crate::digits::{pow256, seq_val, lemma_pow256_add, lemma_pow256_mono, lemma_pow256_pos,
    lemma_seq_val_bound, lemma_seq_val_take_skip};
use crate::field::{FieldConfig, FieldElement};

verus! {

/// Drops the low `k` words: the result stands for `value(a) / 256^k`,
/// a word-indexed truncation of the quotient.
pub fn word_shift(a: &Vec<u8>, k: usize) -> (res: Vec<u8>)
    requires
        k <= a@.len(),
    ensures
        res@.len() == a@.len() - k,
        seq_val(res@) == seq_val(a@) / pow256(k as nat),
{
    let len: usize = a.len();
    let mut result: Vec<u8> = Vec::new();
    let mut i: usize = 0;
    while i < len - k
        invariant
            k <= len,
            a@.len() == len,
            i <= len - k,
            result@.len() == i,
            result@ == a@.skip(k as int).take(i as int),
        decreases len - k - i,
    {
        result.push(a[k + i]);
        proof {
            assert(result@ =~= a@.skip(k as int).take(i + 1));
        }
        i += 1;
    }
    proof {
        assert(result@ =~= a@.skip(k as int));
        lemma_seq_val_take_skip(a@, k as int);
    }
    result
}

/// Keeps only the low `k` words: the result stands for
/// `value(a) mod 256^k`.
pub fn mod_shift(a: &Vec<u8>, k: usize) -> (res: Vec<u8>)
    requires
        k <= a@.len(),
    ensures
        res@.len() == k,
        seq_val(res@) == seq_val(a@) % pow256(k as nat),
{
    let mut result: Vec<u8> = Vec::new();
    let mut i: usize = 0;
    while i < k
        invariant
            k <= a@.len(),
            i <= k,
            result@.len() == i,
            result@ == a@.take(i as int),
        decreases k - i,
    {
        result.push(a[i]);
        proof {
            assert(result@ =~= a@.take(i + 1));
        }
        i += 1;
    }
    proof {
        lemma_seq_val_take_skip(a@, k as int);
    }
    result
}

/// The Barrett quotient estimate misses the true quotient by at most two:
/// with `m = 256^(k-1)`, `big = 256^(k+1)` and
/// `q3 = ((x / m) * mu) / big`, the remainder `x - q3 * p` lies in `[0, 3p)`.
proof fn lemma_barrett_bound(x: nat, p: nat, mu: nat, k: nat)
    requires
        1 <= k,
        2 <= p,
        pow256((k - 1) as nat) <= p,
        x < pow256(2 * k),
        mu * p <= pow256(2 * k),
        pow256(2 * k) < (mu + 1) * p,
    ensures
        (x / pow256((k - 1) as nat) * mu / pow256((k + 1) as nat)) * p <= x,
        x < (x / pow256((k - 1) as nat) * mu / pow256((k + 1) as nat)) * p + 3 * p,
{
    let m = pow256((k - 1) as nat);
    let big = pow256((k + 1) as nat);
    lemma_pow256_pos((k - 1) as nat);
    lemma_pow256_pos((k + 1) as nat);
    lemma_pow256_add((k - 1) as nat, (k + 1) as nat);
    assert(pow256(2 * k) == m * big);
    let q1 = x / m;
    let s = x % m;
    lemma_fundamental_div_mod(x as int, m as int);
    lemma_mod_division_less_than_divisor(x as int, m as int);
    assert(x == q1 * m + s) by (nonlinear_arith)
        requires
            x == m * (x as int / m as int) + x as int % m as int,
            q1 == x as int / m as int,
            s == x as int % m as int,
    ;
    let t = (pow256(2 * k) - mu * p) as nat;
    assert(t < p) by (nonlinear_arith)
        requires
            pow256(2 * k) < (mu + 1) * p,
            t == pow256(2 * k) - mu * p,
    ;
    let q2 = q1 * mu;
    let q3 = q2 / big;
    let u = q2 % big;
    lemma_fundamental_div_mod(q2 as int, big as int);
    lemma_mod_division_less_than_divisor(q2 as int, big as int);
    assert(q2 == q3 * big + u) by (nonlinear_arith)
        requires
            q2 == big * (q2 as int / big as int) + q2 as int % big as int,
            q3 == q2 as int / big as int,
            u == q2 as int % big as int,
    ;
    // Upper bound: q3 * p <= x, shown with both sides scaled by `big`.
    assert((q3 * p) * big <= x * big) by (nonlinear_arith)
        requires
            q2 == q3 * big + u,
            u >= 0,
            q2 == q1 * mu,
            mu * p <= m * big,
            x == q1 * m + s,
            s >= 0,
            q1 >= 0,
            p >= 0,
            big >= 1,
            m >= 1,
    ;
    assert(q3 * p <= x) by (nonlinear_arith)
        requires
            (q3 * p) * big <= x * big,
            big >= 1,
    ;
    // Lower bound: x < q3 * p + 3 * p, again scaled by `big`.
    assert(q1 < big) by (nonlinear_arith)
        requires
            q1 * m + s == x,
            s >= 0,
            x < m * big,
            m >= 1,
    ;
    assert(x * big == (q3 * p) * big + u * p + q1 * t + s * big) by (nonlinear_arith)
        requires
            x == q1 * m + s,
            m * big == mu * p + t,
            q2 == q3 * big + u,
            q2 == q1 * mu,
    ;
    assert(x * big < (q3 * p) * big + 3 * p * big) by (nonlinear_arith)
        requires
            x * big == (q3 * p) * big + u * p + q1 * t + s * big,
            u < big,
            q1 < big,
            t < p,
            s < m,
            m <= p,
            p >= 2,
            big >= 1,
            u >= 0,
            q1 >= 0,
            t >= 0,
            s >= 0,
    ;
    assert(x < q3 * p + 3 * p) by (nonlinear_arith)
        requires
            x * big < (q3 * p) * big + 3 * p * big,
            big >= 1,
    ;
}

/// Barrett modular reduction. Takes a double-width digit sequence standing
/// for `x < 256^(2k)` (every product or square of canonical field elements
/// satisfies this) and returns the canonical field element `x mod p`,
/// performing exactly two conditional subtract-and-test steps and no
/// full-precision division.
pub fn barret_red(cfg: &FieldConfig, x: &Vec<u8>) -> (res: FieldElement)
    requires
        cfg.wf(),
        x@.len() == 2 * cfg.n,
        seq_val(x@) < pow256((2 * cfg.k) as nat),
    ensures
        res.wf(cfg),
        res.fe_val() == seq_val(x@) % cfg.p_val(),
{
    let k: usize = cfg.k;
    let n: usize = cfg.n;
    let ghost xv = seq_val(x@);
    let ghost p = cfg.p_val();
    let ghost big = pow256((k + 1) as nat);
    // Quotient estimate: q3 = floor(floor(x / 256^(k-1)) * mu / 256^(k+1)).
    let q1: Vec<u8> = word_shift(x, k - 1);
    let q2: Vec<u8> = crate::mul::mul_operand_scanning(&q1, &cfg.mu);
    let q3: Vec<u8> = word_shift(&q2, k + 1);
    // Low parts: r1 = x mod 256^(k+1), r2 = q3 * p mod 256^(k+1).
    let r1: Vec<u8> = mod_shift(x, k + 1);
    let qm: Vec<u8> = crate::mul::mul_operand_scanning(&q3, &cfg.p);
    let r2: Vec<u8> = mod_shift(&qm, k + 1);
    // r = r1 - r2; a borrow corrects by one multiple of 256^(k+1), which is
    // exactly what the word-level wraparound of `sub` adds back.
    let (r, _) = crate::words::sub(&r1, &r2);
    let ghost q3v = seq_val(q3@);
    let ghost rem = (xv - q3v * p) as nat;
    proof {
        assert((2 * (k as int)) as nat == 2 * (k as nat));
        lemma_barrett_bound(xv, p, cfg.mu_val(), k as nat);
        assert(q3v == xv / pow256((k - 1) as nat) * cfg.mu_val() / pow256((k + 1) as nat));
        assert(q3v * p <= xv && xv < q3v * p + 3 * p);
        // rem < 3p <= 256^(k+1)
        assert(pow256((k + 1) as nat) == 256 * pow256(k as nat));
        assert(3 * p < 3 * pow256(k as nat));
        // r stands for rem: both lie in [0, 256^(k+1)) and differ by a
        // multiple of 256^(k+1).
        lemma_pow256_pos((k + 1) as nat);
        lemma_fundamental_div_mod(xv as int, big as int);
        lemma_fundamental_div_mod((q3v * p) as int, big as int);
        lemma_mod_division_less_than_divisor(xv as int, big as int);
        lemma_mod_division_less_than_divisor((q3v * p) as int, big as int);
        lemma_seq_val_bound(r@);
        let c1 = xv as int / big as int;
        let c2 = (q3v * p) as int / big as int;
        let rb = if seq_val(r1@) < seq_val(r2@) {
            1int
        } else {
            0int
        };
        assert(seq_val(r@) == seq_val(r1@) - seq_val(r2@) + rb * big) by (nonlinear_arith)
            requires
                seq_val(r@) + seq_val(r2@) == seq_val(r1@) + (if seq_val(r1@) < seq_val(r2@) {
                    pow256((k + 1) as nat) as int
                } else {
                    0int
                }),
                rb == (if seq_val(r1@) < seq_val(r2@) {
                    1int
                } else {
                    0int
                }),
                big == pow256((k + 1) as nat),
        ;
        assert(rem - seq_val(r@) == (c1 - c2 - rb) * big) by (nonlinear_arith)
            requires
                rem == xv - q3v * p,
                xv == big * c1 + seq_val(r1@),
                q3v * p == big * c2 + seq_val(r2@),
                seq_val(r@) == seq_val(r1@) - seq_val(r2@) + rb * big,
        ;
        assert(c1 - c2 - rb == 0) by (nonlinear_arith)
            requires
                rem - seq_val(r@) == (c1 - c2 - rb) * big,
                0 <= rem < big,
                0 <= seq_val(r@) < big,
                big >= 1,
        ;
        assert(seq_val(r@) == rem);
    }
    // At most two corrective subtractions of p fold rem from [0, 3p) into
    // the canonical range; the Barrett bound rules out needing a third.
    proof {
        lemma_pow256_mono(cfg.k as nat, (cfg.k + 1) as nat);
    }
    let pk: Vec<u8> = crate::words::resize_digits(&cfg.p, k + 1);
    let (d1, b1) = crate::words::sub(&r, &pk);
    let r_one: Vec<u8> = if b1 {
        r
    } else {
        d1
    };
    let (d2, b2) = crate::words::sub(&r_one, &pk);
    let r_two: Vec<u8> = if b2 {
        r_one
    } else {
        d2
    };
    proof {
        if b1 {
            lemma_fundamental_div_mod_converse(xv as int, p as int, q3v as int, rem as int);
        } else if b2 {
            assert((q3v + 1) * p == q3v * p + p) by (nonlinear_arith);
            lemma_fundamental_div_mod_converse(
                xv as int,
                p as int,
                q3v as int + 1,
                rem as int - p as int,
            );
        } else {
            assert((q3v + 2) * p == q3v * p + 2 * p) by (nonlinear_arith);
            lemma_fundamental_div_mod_converse(
                xv as int,
                p as int,
                q3v as int + 2,
                rem as int - 2 * p as int,
            );
        }
        assert(seq_val(r_two@) == xv % p);
        lemma_pow256_mono(cfg.k as nat, cfg.n as nat);
    }
    let out: Vec<u8> = crate::words::resize_digits(&r_two, n);
    FieldElement { words: out }
}

} // verus!
