//! The mathematical model of little-endian digit sequences in base 256,
//! and the lemmas about their values that the arithmetic routines rely on.
use vstd::prelude::*;
use vstd::arithmetic::div_mod::lemma_fundamental_div_mod_converse;

verus! {

/// `pow256(e)` is `256^e`, the weight of the digit at position `e`.
pub open spec fn pow256(e: nat) -> nat
    decreases e,
{
    if e == 0 {
        1
    } else {
        256 * pow256((e - 1) as nat)
    }
}

/// The non-negative integer that a little-endian digit sequence stands for:
/// the sum of `s[i] * 256^i` over all positions.
pub open spec fn seq_val(s: Seq<u8>) -> nat
    decreases s.len(),
{
    if s.len() == 0 {
        0
    } else {
        seq_val(s.drop_last()) + s.last() as nat * pow256((s.len() - 1) as nat)
    }
}

/// A carry or borrow flag as the digit it contributes.
pub open spec fn bit(b: bool) -> nat {
    if b {
        1
    } else {
        0
    }
}

pub proof fn lemma_pow256_pos(e: nat)
    ensures
        pow256(e) >= 1,
    decreases e,
{
    if e > 0 {
        lemma_pow256_pos((e - 1) as nat);
    }
}

pub proof fn lemma_pow256_add(a: nat, b: nat)
    ensures
        pow256(a + b) == pow256(a) * pow256(b),
    decreases a,
{
    if a == 0 {
        assert(pow256(0 + b) == 1 * pow256(b));
    } else {
        lemma_pow256_add((a - 1) as nat, b);
        assert(pow256((a + b - 1) as nat) == pow256((a - 1) as nat) * pow256(b));
        assert(256 * (pow256((a - 1) as nat) * pow256(b)) == (256 * pow256((a - 1) as nat))
            * pow256(b)) by (nonlinear_arith);
    }
}

pub proof fn lemma_pow256_mono(a: nat, b: nat)
    requires
        a <= b,
    ensures
        pow256(a) <= pow256(b),
{
    lemma_pow256_add(a, (b - a) as nat);
    lemma_pow256_pos((b - a) as nat);
    assert(pow256(a) * 1 <= pow256(a) * pow256((b - a) as nat)) by (nonlinear_arith)
        requires
            pow256((b - a) as nat) >= 1,
            pow256(a) >= 0,
    ;
}

/// Appending a digit adds its weighted value.
pub proof fn lemma_seq_val_push(s: Seq<u8>, d: u8)
    ensures
        seq_val(s.push(d)) == seq_val(s) + d as nat * pow256(s.len()),
{
    assert(s.push(d).drop_last() =~= s);
    assert(s.push(d).last() == d);
}

/// A sequence's value is below the weight of the position past its end.
pub proof fn lemma_seq_val_bound(s: Seq<u8>)
    ensures
        seq_val(s) < pow256(s.len()),
    decreases s.len(),
{
    if s.len() == 0 {
    } else {
        lemma_seq_val_bound(s.drop_last());
        let e = (s.len() - 1) as nat;
        assert(s.last() as nat * pow256(e) <= 255 * pow256(e)) by (nonlinear_arith)
            requires
                s.last() as nat <= 255,
                pow256(e) >= 0,
        ;
        assert(pow256(e) + 255 * pow256(e) == 256 * pow256(e));
    }
}

/// Extending a prefix by one digit adds that digit's weighted value.
pub proof fn lemma_seq_val_take_succ(s: Seq<u8>, i: int)
    requires
        0 <= i < s.len(),
    ensures
        seq_val(s.take(i + 1)) == seq_val(s.take(i)) + s[i] as nat * pow256(i as nat),
{
    assert(s.take(i + 1).drop_last() =~= s.take(i));
    assert(s.take(i + 1).last() == s[i]);
}

pub proof fn lemma_seq_val_singleton(s: Seq<u8>)
    requires
        s.len() == 1,
    ensures
        seq_val(s) == s[0],
{
    assert(s.drop_last() =~= Seq::<u8>::empty());
    assert(seq_val(Seq::<u8>::empty()) == 0);
    assert(pow256(0) == 1);
    assert(s.last() == s[0]);
    assert(s.last() as nat * pow256(0) == s.last() as nat) by (nonlinear_arith)
        requires
            pow256(0) == 1,
    ;
}

/// Splitting a sequence splits its value at the corresponding weight.
pub proof fn lemma_seq_val_split(s: Seq<u8>, i: int)
    requires
        0 <= i <= s.len(),
    ensures
        seq_val(s) == seq_val(s.take(i)) + seq_val(s.skip(i)) * pow256(i as nat),
    decreases s.len(),
{
    if i == s.len() {
        assert(s.take(i) =~= s);
        assert(s.skip(i) =~= Seq::<u8>::empty());
    } else {
        let dl = s.drop_last();
        lemma_seq_val_split(dl, i);
        assert(dl.take(i) =~= s.take(i));
        assert(s.skip(i).drop_last() =~= dl.skip(i));
        assert(s.skip(i).last() == s.last());
        let e = (s.len() - 1 - i) as nat;
        lemma_pow256_add(e, i as nat);
        assert(seq_val(s.skip(i)) == seq_val(dl.skip(i)) + s.last() as nat * pow256(e));
        assert(seq_val(s.skip(i)) * pow256(i as nat) == seq_val(dl.skip(i)) * pow256(i as nat)
            + s.last() as nat * pow256((s.len() - 1) as nat)) by (nonlinear_arith)
            requires
                seq_val(s.skip(i)) == seq_val(dl.skip(i)) + s.last() as nat * pow256(e),
                pow256((s.len() - 1) as nat) == pow256(e) * pow256(i as nat),
        ;
        assert(seq_val(s) == seq_val(dl) + s.last() as nat * pow256((s.len() - 1) as nat));
    }
}

/// A prefix never stands for more than the whole sequence.
pub proof fn lemma_seq_val_take_le(s: Seq<u8>, i: int)
    requires
        0 <= i <= s.len(),
    ensures
        seq_val(s.take(i)) <= seq_val(s),
{
    lemma_seq_val_split(s, i);
}

/// A sequence of zeros stands for zero.
pub proof fn lemma_seq_val_zeros(s: Seq<u8>)
    requires
        forall|i: int| 0 <= i < s.len() ==> s[i] == 0,
    ensures
        seq_val(s) == 0,
    decreases s.len(),
{
    if s.len() > 0 {
        lemma_seq_val_zeros(s.drop_last());
    }
}

/// The first digit is a lower bound on the value.
pub proof fn lemma_seq_val_first(s: Seq<u8>)
    requires
        s.len() >= 1,
    ensures
        seq_val(s) >= s[0],
    decreases s.len(),
{
    if s.len() == 1 {
        lemma_seq_val_singleton(s);
    } else {
        lemma_seq_val_first(s.drop_last());
    }
}

/// Each digit's weighted value is a lower bound on the whole value.
pub proof fn lemma_seq_val_digit(s: Seq<u8>, i: int)
    requires
        0 <= i < s.len(),
    ensures
        s[i] as nat * pow256(i as nat) <= seq_val(s),
{
    lemma_seq_val_split(s, i);
    lemma_seq_val_first(s.skip(i));
    assert(s.skip(i)[0] == s[i]);
    assert(s[i] as nat * pow256(i as nat) <= seq_val(s.skip(i)) * pow256(i as nat))
        by (nonlinear_arith)
        requires
            s[i] as nat <= seq_val(s.skip(i)),
            pow256(i as nat) >= 0,
    ;
}

/// A value below the weight of position `m` forces all digits from `m` on to be zero.
pub proof fn lemma_seq_val_high_zero(s: Seq<u8>, m: int)
    requires
        0 <= m <= s.len(),
        seq_val(s) < pow256(m as nat),
    ensures
        forall|i: int| m <= i < s.len() ==> s[i] == 0,
{
    assert forall|i: int| m <= i < s.len() implies s[i] == 0 by {
        lemma_seq_val_digit(s, i);
        lemma_pow256_mono(m as nat, i as nat);
        lemma_pow256_pos(i as nat);
        if s[i] >= 1 {
            assert(1 * pow256(i as nat) <= s[i] as nat * pow256(i as nat)) by (nonlinear_arith)
                requires
                    1 <= s[i] as nat,
                    pow256(i as nat) >= 0,
            ;
        }
    }
}

/// The low `i` digits give the value modulo `256^i`, the rest the quotient.
pub proof fn lemma_seq_val_take_skip(s: Seq<u8>, i: int)
    requires
        0 <= i <= s.len(),
    ensures
        seq_val(s.take(i)) == seq_val(s) % pow256(i as nat),
        seq_val(s.skip(i)) == seq_val(s) / pow256(i as nat),
{
    lemma_seq_val_split(s, i);
    lemma_seq_val_bound(s.take(i));
    lemma_pow256_pos(i as nat);
    assert(s.take(i).len() == i);
    lemma_fundamental_div_mod_converse(
        seq_val(s) as int,
        pow256(i as nat) as int,
        seq_val(s.skip(i)) as int,
        seq_val(s.take(i)) as int,
    );
}

/// Two digit sequences of one length with one value are the same sequence.
pub proof fn lemma_seq_val_inj(s1: Seq<u8>, s2: Seq<u8>)
    requires
        s1.len() == s2.len(),
        seq_val(s1) == seq_val(s2),
    ensures
        s1 == s2,
    decreases s1.len(),
{
    if s1.len() == 0 {
        assert(s1 =~= s2);
    } else {
        let e = (s1.len() - 1) as nat;
        lemma_seq_val_bound(s1.drop_last());
        lemma_seq_val_bound(s2.drop_last());
        let d1 = s1.last() as nat;
        let d2 = s2.last() as nat;
        assert(d1 == d2) by (nonlinear_arith)
            requires
                seq_val(s1.drop_last()) + d1 * pow256(e) == seq_val(s2.drop_last()) + d2 * pow256(
                    e,
                ),
                seq_val(s1.drop_last()) < pow256(e),
                seq_val(s2.drop_last()) < pow256(e),
                d1 >= 0,
                d2 >= 0,
        ;
        lemma_seq_val_inj(s1.drop_last(), s2.drop_last());
        assert(s1 =~= s1.drop_last().push(s1.last()));
        assert(s2 =~= s2.drop_last().push(s2.last()));
    }
}

/// Overwriting one digit shifts the value by the weighted difference.
pub proof fn lemma_seq_val_update(s: Seq<u8>, i: int, d: u8)
    requires
        0 <= i < s.len(),
    ensures
        seq_val(s.update(i, d)) + s[i] as nat * pow256(i as nat) == seq_val(s) + d as nat * pow256(
            i as nat,
        ),
{
    let s2 = s.update(i, d);
    lemma_seq_val_decompose(s, i);
    lemma_seq_val_decompose(s2, i);
    assert(s2.take(i) =~= s.take(i));
    assert(s2.skip(i + 1) =~= s.skip(i + 1));
    let q = seq_val(s.skip(i + 1));
    let pw = pow256(i as nat);
    assert((s[i] as nat + 256 * q) * pw == s[i] as nat * pw + 256 * q * pw) by (nonlinear_arith);
    assert((d as nat + 256 * q) * pw == d as nat * pw + 256 * q * pw) by (nonlinear_arith);
}

/// The value seen from one digit position: low part, the digit, high part.
pub proof fn lemma_seq_val_decompose(s: Seq<u8>, i: int)
    requires
        0 <= i < s.len(),
    ensures
        seq_val(s) == seq_val(s.take(i)) + (s[i] as nat + 256 * seq_val(s.skip(i + 1))) * pow256(
            i as nat,
        ),
{
    lemma_seq_val_split(s, i);
    let t = s.skip(i);
    lemma_seq_val_split(t, 1);
    lemma_seq_val_singleton(t.take(1));
    assert(t.take(1)[0] == s[i]);
    assert(t.skip(1) =~= s.skip(i + 1));
    assert(pow256(0) == 1);
    assert(pow256(1) == 256 * pow256(0));
    assert(seq_val(t.skip(1)) * pow256(1) == 256 * seq_val(s.skip(i + 1))) by (nonlinear_arith)
        requires
            pow256(1) == 256,
            t.skip(1) == s.skip(i + 1),
    ;
    assert(seq_val(t) == s[i] as nat + 256 * seq_val(s.skip(i + 1)));
}

} // verus!
