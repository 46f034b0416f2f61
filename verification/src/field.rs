//! The modulus configuration, the canonical field-element representation,
//! and modular addition and subtraction.
use vstd::prelude::*;
use vstd::arithmetic::div_mod::{lemma_fundamental_div_mod_converse, lemma_small_mod};
use crate::digits::{bit, pow256, seq_val, lemma_pow256_mono, lemma_pow256_pos,
    lemma_seq_val_bound, lemma_seq_val_digit, lemma_seq_val_split, lemma_seq_val_take_succ,
    lemma_seq_val_update, lemma_seq_val_zeros};

verus! {

/// Whether `(n, k, p, mu)` is a sound modulus configuration: `p` is an
/// `n`-word modulus whose significant words are exactly the low `k`
/// (`256^(k-1) <= p < 256^k`), and `mu` is the Barrett constant
/// `floor(256^(2k) / p)`, held in `k + 1` words.
pub open spec fn config_ok(n: int, k: int, p: Seq<u8>, mu: Seq<u8>) -> bool {
    &&& 1 <= k <= n <= 127
    &&& p.len() == n
    &&& mu.len() == k + 1
    &&& 2 <= seq_val(p)
    &&& pow256((k - 1) as nat) <= seq_val(p)
    &&& seq_val(p) < pow256(k as nat)
    &&& seq_val(mu) * seq_val(p) <= pow256((2 * k) as nat)
    &&& pow256((2 * k) as nat) < (seq_val(mu) + 1) * seq_val(p)
}

/// The process-wide, read-only modulus configuration: the prime modulus `p`
/// as `n` words, its significant word count `k` (the Barrett split point),
/// and the precomputed Barrett constant `mu`. Established once by
/// [`FieldConfig::new`] and never mutated; every field operation takes it as
/// an explicit, immutable argument.
pub struct FieldConfig {
    pub n: usize,
    pub k: usize,
    pub p: Vec<u8>,
    pub mu: Vec<u8>,
}

impl FieldConfig {
    /// The modulus as an integer.
    pub open spec fn p_val(&self) -> nat {
        seq_val(self.p@)
    }

    /// The Barrett constant as an integer.
    pub open spec fn mu_val(&self) -> nat {
        seq_val(self.mu@)
    }

    pub open spec fn wf(&self) -> bool {
        config_ok(self.n as int, self.k as int, self.p@, self.mu@)
    }

    /// Validates a modulus and its Barrett constant once, at initialization.
    /// Returns `None` — refusing to proceed — exactly when the pair violates
    /// the bit-length or split-point assumptions the arithmetic relies on.
    pub fn new(n: usize, k: usize, p: Vec<u8>, mu: Vec<u8>) -> (res: Option<FieldConfig>)
        ensures
            match res {
                Some(c) => {
                    &&& c.wf()
                    &&& c.n == n
                    &&& c.k == k
                    &&& c.p@ == p@
                    &&& c.mu@ == mu@
                },
                None => !config_ok(n as int, k as int, p@, mu@),
            },
    {
        if !(1 <= k && k <= n && n <= 127 && p.len() == n && mu.len() == k + 1) {
            return None;
        }
        // Every word of `p` above the split point must be zero.
        let mut i: usize = k;
        while i < n
            invariant
                k <= i <= n,
                p@.len() == n,
                forall|t: int| k <= t < i ==> p@[t] == 0,
            decreases n - i,
        {
            if p[i] != 0 {
                proof {
                    lemma_seq_val_digit(p@, i as int);
                    lemma_pow256_mono(k as nat, i as nat);
                    lemma_pow256_pos(i as nat);
                    assert(1 * pow256(i as nat) <= p@[i as int] as nat * pow256(i as nat))
                        by (nonlinear_arith)
                        requires
                            1 <= p@[i as int] as nat,
                            pow256(i as nat) >= 0,
                    ;
                }
                return None;
            }
            i += 1;
        }
        proof {
            lemma_seq_val_split(p@, k as int);
            lemma_seq_val_zeros(p@.skip(k as int));
            lemma_seq_val_bound(p@.take(k as int));
            assert(seq_val(p@) == seq_val(p@.take(k as int)));
        }
        // The top significant word must be non-zero, so `p >= 256^(k-1)`.
        if p[k - 1] == 0 {
            proof {
                lemma_seq_val_bound(p@.take(k as int - 1));
                lemma_seq_val_take_succ(p@, k as int - 1);
            }
            return None;
        }
        proof {
            lemma_seq_val_digit(p@, k as int - 1);
            lemma_pow256_pos((k - 1) as nat);
            assert(1 * pow256((k - 1) as nat) <= p@[k as int - 1] as nat * pow256((k - 1) as nat))
                by (nonlinear_arith)
                requires
                    1 <= p@[k as int - 1] as nat,
                    pow256((k - 1) as nat) >= 0,
            ;
        }
        // The modulus itself must be at least two.
        if k == 1 && p[0] < 2 {
            proof {
                lemma_seq_val_take_succ(p@, 0);
                assert(seq_val(p@.take(0)) == 0);
                assert(pow256(0) == 1);
            }
            return None;
        }
        proof {
            if k >= 2 {
                lemma_pow256_mono(1, (k - 1) as nat);
                assert(pow256(1) == 256 * pow256(0));
                assert(pow256(0) == 1);
            } else {
                lemma_seq_val_digit(p@, 0);
                assert(pow256(0) == 1);
                assert(p@[0] as nat * pow256(0) == p@[0] as nat) by (nonlinear_arith)
                    requires
                        pow256(0) == 1,
                ;
            }
        }
        // `mu` must be exactly `floor(256^(2k) / p)`: check that
        // `mu * p <= 256^(2k)` and that the gap is smaller than `p`.
        let m: Vec<u8> = crate::mul::mul_operand_scanning(&mu, &p);
        let mut b2k: Vec<u8> = crate::mul::zero_vec(n + k + 1);
        let ghost b0 = b2k@;
        proof {
            lemma_seq_val_update(b0, (2 * k) as int, 1u8);
        }
        b2k.set(2 * k, 1);
        proof {
            assert(((2 * k) as int) as nat == (2 * (k as int)) as nat);
            assert(seq_val(b2k@) == 1 * pow256((2 * (k as int)) as nat));
        }
        let (d, bor) = crate::words::sub(&b2k, &m);
        if bor {
            return None;
        }
        proof {
            lemma_pow256_mono(k as nat, (n + k + 1) as nat);
        }
        let pp: Vec<u8> = crate::words::resize_digits(&p, n + k + 1);
        let (_, bor2) = crate::words::sub(&d, &pp);
        if !bor2 {
            proof {
                assert((seq_val(mu@) + 1) * seq_val(p@) == seq_val(mu@) * seq_val(p@) + seq_val(p@))
                    by (nonlinear_arith);
            }
            return None;
        }
        proof {
            assert((seq_val(mu@) + 1) * seq_val(p@) == seq_val(mu@) * seq_val(p@) + seq_val(p@))
                by (nonlinear_arith);
        }
        Some(FieldConfig { n, k, p, mu })
    }
}

/// A field element: a digit sequence of the configured width, canonical in
/// the half-open range `[0, p)`. Canonicity relative to a configuration is
/// stated by [`FieldElement::wf`], required and preserved by every modular
/// operation.
pub struct FieldElement {
    pub words: Vec<u8>,
}

impl FieldElement {
    /// The integer this field element stands for.
    pub open spec fn fe_val(&self) -> nat {
        seq_val(self.words@)
    }

    /// Canonical form: the configured width, and a value in `[0, p)`.
    pub open spec fn wf(&self, cfg: &FieldConfig) -> bool {
        &&& self.words@.len() == cfg.n
        &&& self.fe_val() < cfg.p_val()
    }

    /// Wraps a digit sequence as a field element after validating that it is
    /// canonical; refuses anything of the wrong width or at or above `p`.
    pub fn from_words(cfg: &FieldConfig, w: Vec<u8>) -> (res: Option<FieldElement>)
        requires
            cfg.wf(),
        ensures
            match res {
                Some(fe) => fe.words@ == w@ && fe.wf(cfg),
                None => !(w@.len() == cfg.n && seq_val(w@) < cfg.p_val()),
            },
    {
        if w.len() != cfg.n {
            return None;
        }
        let (_, bor) = crate::words::sub(&w, &cfg.p);
        if bor {
            Some(FieldElement { words: w })
        } else {
            None
        }
    }
}

/// Modular addition of two canonical field elements: a raw word-level add,
/// then at most one subtraction of `p`, applied when the add carried out or
/// when the raw sum is still at or above `p`. The result is canonical and
/// `value(result) == (value(first) + value(second)) mod p`.
pub fn add_mod_p(cfg: &FieldConfig, first: &FieldElement, second: &FieldElement) -> (res:
    FieldElement)
    requires
        cfg.wf(),
        first.wf(cfg),
        second.wf(cfg),
    ensures
        res.wf(cfg),
        res.fe_val() == (first.fe_val() + second.fe_val()) % cfg.p_val(),
{
    let (raw, carry) = crate::words::add(&first.words, &second.words);
    let (diff, borrow) = crate::words::sub(&raw, &cfg.p);
    proof {
        lemma_pow256_mono(cfg.k as nat, cfg.n as nat);
    }
    let ghost a = first.fe_val();
    let ghost b = second.fe_val();
    let ghost p = cfg.p_val();
    let ghost bn = pow256(cfg.n as nat);
    if carry || !borrow {
        proof {
            if carry {
                assert(seq_val(raw@) == a + b - bn);
                assert(seq_val(diff@) == a + b - p);
            } else {
                assert(seq_val(raw@) == a + b);
                assert(seq_val(diff@) == a + b - p);
            }
            lemma_fundamental_div_mod_converse(
                (a + b) as int,
                p as int,
                1,
                (a + b - p) as int,
            );
        }
        FieldElement { words: diff }
    } else {
        proof {
            assert(seq_val(raw@) == a + b);
            lemma_small_mod((a + b) as nat, p as nat);
        }
        FieldElement { words: raw }
    }
}

/// Modular subtraction of two canonical field elements: a raw word-level
/// subtract, then one addition of `p` when the subtraction borrowed. The
/// result is canonical and `value(result) == (value(first) -
/// value(second)) mod p`.
pub fn sub_mod_p(cfg: &FieldConfig, first: &FieldElement, second: &FieldElement) -> (res:
    FieldElement)
    requires
        cfg.wf(),
        first.wf(cfg),
        second.wf(cfg),
    ensures
        res.wf(cfg),
        res.fe_val() as int == (first.fe_val() - second.fe_val()) % (cfg.p_val() as int),
{
    let (raw, borrow) = crate::words::sub(&first.words, &second.words);
    proof {
        lemma_pow256_mono(cfg.k as nat, cfg.n as nat);
    }
    let ghost a = first.fe_val();
    let ghost b = second.fe_val();
    let ghost p = cfg.p_val();
    let ghost bn = pow256(cfg.n as nat);
    if borrow {
        let (fixed, carry2) = crate::words::add(&raw, &cfg.p);
        proof {
            assert(seq_val(raw@) == a - b + bn);
            lemma_seq_val_bound(fixed@);
            assert(bit(carry2) == 1);
            assert(seq_val(fixed@) == a - b + p);
            lemma_fundamental_div_mod_converse(a - b, p as int, -1, a - b + p);
        }
        FieldElement { words: fixed }
    } else {
        proof {
            assert(seq_val(raw@) == a - b);
            lemma_small_mod((a - b) as nat, p as nat);
        }
        FieldElement { words: raw }
    }
}

} // verus!
