//! Library-wide laws relating the modular operations, stated over the same
//! spec-level values that the operations' contracts use, and proved for all
//! canonical inputs.
use vstd::prelude::*;
use vstd::arithmetic::div_mod::{lemma_fundamental_div_mod, lemma_fundamental_div_mod_converse,
    lemma_small_mod};
use crate::digits::{pow256, seq_val, lemma_pow256_add, lemma_seq_val_inj};
use crate::field::{FieldConfig, FieldElement};

verus! {

/// Modular addition is commutative: the value `add_mod_p` returns does not
/// depend on the order of its operands.
pub proof fn lemma_add_mod_commutative(cfg: &FieldConfig, a: &FieldElement, b: &FieldElement)
    requires
        cfg.wf(),
        a.wf(cfg),
        b.wf(cfg),
    ensures
        (a.fe_val() + b.fe_val()) % cfg.p_val() == (b.fe_val() + a.fe_val()) % cfg.p_val(),
{
}

/// Subtracting an element undoes adding it: starting from the value
/// `add_mod_p(a, b)` returns, the value `sub_mod_p(_, b)` returns is
/// `value(a)` again.
pub proof fn lemma_sub_mod_cancels_add(cfg: &FieldConfig, a: &FieldElement, b: &FieldElement)
    requires
        cfg.wf(),
        a.wf(cfg),
        b.wf(cfg),
    ensures
        (((a.fe_val() + b.fe_val()) % cfg.p_val()) - b.fe_val()) % (cfg.p_val() as int)
            == a.fe_val(),
{
    let av = a.fe_val() as int;
    let bv = b.fe_val() as int;
    let p = cfg.p_val() as int;
    let s = (a.fe_val() + b.fe_val()) % cfg.p_val();
    lemma_fundamental_div_mod(av + bv, p);
    let q = (av + bv) / p;
    assert(s == av + bv - p * q);
    assert(s - bv == (-q) * p + av) by (nonlinear_arith)
        requires
            s == av + bv - p * q,
    ;
    lemma_fundamental_div_mod_converse(s - bv, p, -q, av);
}

/// The two multiplication strategies agree digit for digit: a digit sequence
/// of a given length is determined by its value, and both multipliers return
/// the sequence of `first.len() + second.len()` digits standing for
/// `value(first) * value(second)`.
pub proof fn lemma_mul_strategies_agree(a: Seq<u8>, b: Seq<u8>, r1: Seq<u8>, r2: Seq<u8>)
    requires
        r1.len() == a.len() + b.len(),
        r2.len() == a.len() + b.len(),
        seq_val(r1) == seq_val(a) * seq_val(b),
        seq_val(r2) == seq_val(a) * seq_val(b),
    ensures
        r1 == r2,
{
    lemma_seq_val_inj(r1, r2);
}

/// Reducing a square agrees with reducing the self-product, digit for digit:
/// both reductions return canonical elements of one value, so they are one
/// digit sequence.
pub proof fn lemma_reduce_square_matches_multiply(
    cfg: &FieldConfig,
    a: &FieldElement,
    by_square: &FieldElement,
    by_multiply: &FieldElement,
)
    requires
        cfg.wf(),
        by_square.wf(cfg),
        by_multiply.wf(cfg),
        by_square.fe_val() == (a.fe_val() * a.fe_val()) % cfg.p_val(),
        by_multiply.fe_val() == (a.fe_val() * a.fe_val()) % cfg.p_val(),
    ensures
        by_square.words@ == by_multiply.words@,
{
    lemma_seq_val_inj(by_square.words@, by_multiply.words@);
}

/// The product of two canonical elements stays below `256^(2k)`, the input
/// bound of Barrett reduction: multiplying even the maximal elements and
/// reducing stays within every accumulator's range.
pub proof fn lemma_product_fits_reduction(cfg: &FieldConfig, a: &FieldElement, b: &FieldElement)
    requires
        cfg.wf(),
        a.wf(cfg),
        b.wf(cfg),
    ensures
        a.fe_val() * b.fe_val() < pow256((2 * cfg.k) as nat),
{
    lemma_pow256_add(cfg.k as nat, cfg.k as nat);
    crate::digits::lemma_pow256_pos(cfg.k as nat);
    assert((2 * cfg.k) as nat == cfg.k as nat + cfg.k as nat);
    assert(a.fe_val() * b.fe_val() < pow256(cfg.k as nat) * pow256(cfg.k as nat))
        by (nonlinear_arith)
        requires
            a.fe_val() < pow256(cfg.k as nat),
            b.fe_val() < pow256(cfg.k as nat),
            a.fe_val() >= 0,
            b.fe_val() >= 0,
            pow256(cfg.k as nat) >= 1,
    ;
}

/// Reduction is the identity on canonical values: an element already in
/// `[0, p)`, zero-extended to double width, reduces to itself.
pub proof fn lemma_reduce_canonical_identity(cfg: &FieldConfig, a: &FieldElement)
    requires
        cfg.wf(),
        a.wf(cfg),
    ensures
        a.fe_val() % cfg.p_val() == a.fe_val(),
{
    lemma_small_mod(a.fe_val(), cfg.p_val());
}

} // verus!
