//! Tests of the configured field operations: modular add/sub, reduction,
//! configuration validation, and their boundary behaviour.
use modfield::barrett::{barret_red, mod_shift, word_shift};
use modfield::field::{FieldConfig, FieldElement};
use modfield::field::{add_mod_p, sub_mod_p};
use modfield::mul::{mul_operand_scanning, mul_product_scanning};
use modfield::square::square;
use modfield::words::resize_digits;

const NR_WORDS: usize = 32;

fn prime_bytes() -> Vec<u8> {
    let mut p = vec![0xffu8; NR_WORDS];
    p[0] = 0xed;
    p[31] = 0x7f;
    p
}

fn mu_bytes() -> Vec<u8> {
    let mut mu = vec![0u8; NR_WORDS + 1];
    mu[0] = 76;
    mu[32] = 2;
    mu
}

fn production_config() -> FieldConfig {
    FieldConfig::new(NR_WORDS, NR_WORDS, prime_bytes(), mu_bytes()).unwrap()
}

fn toy_config() -> FieldConfig {
    FieldConfig::new(2, 1, vec![251, 0], vec![5, 1]).unwrap()
}

fn fe(cfg: &FieldConfig, w: Vec<u8>) -> FieldElement {
    FieldElement::from_words(cfg, w).unwrap()
}

fn sample_x() -> Vec<u8> {
    vec![
        0x04, 0x82, 0x2e, 0xcb, 0xef, 0x66, 0xf5, 0x7e, 0x9f, 0x86, 0xcc, 0xe2, 0xc3, 0xd7, 0x9d,
        0x51, 0xa1, 0x40, 0x0d, 0x79, 0x3f, 0x31, 0xdb, 0xee, 0x83, 0xf3, 0x91, 0xc2, 0xae, 0xfb,
        0x15, 0x39,
    ]
}

fn sample_y() -> Vec<u8> {
    vec![
        0x3A, 0xF1, 0x7C, 0xB8, 0x45, 0x2D, 0xE9, 0x01, 0x9F, 0xAC, 0xD3, 0x0B, 0x66, 0x7A, 0x20,
        0xC4, 0x8E, 0x11, 0x5D, 0xBE, 0x39, 0x72, 0x04, 0xFA, 0x6B, 0x93, 0xCE, 0x28, 0x10, 0x87,
        0xD5, 0x4F,
    ]
}

#[test]
fn test_config_accepts_production_pair() {
    assert!(FieldConfig::new(NR_WORDS, NR_WORDS, prime_bytes(), mu_bytes()).is_some());
}

#[test]
fn test_config_rejects_wrong_mu() {
    // One too large: mu * p exceeds 256^(2k).
    assert!(FieldConfig::new(2, 1, vec![251, 0], vec![6, 1]).is_none());
    // One too small: the gap to 256^(2k) is at least p.
    assert!(FieldConfig::new(2, 1, vec![251, 0], vec![4, 1]).is_none());
}

#[test]
fn test_config_rejects_misplaced_modulus() {
    // Top significant word zero for the claimed split point.
    assert!(FieldConfig::new(2, 2, vec![251, 0], vec![5, 1, 0]).is_none());
    // A word above the split point is not zero.
    assert!(FieldConfig::new(2, 1, vec![251, 1], vec![5, 1]).is_none());
    // Modulus smaller than two.
    assert!(FieldConfig::new(2, 1, vec![1, 0], vec![0, 0]).is_none());
}

#[test]
fn test_from_words_validates_range() {
    let cfg = toy_config();
    assert!(FieldElement::from_words(&cfg, vec![250, 0]).is_some());
    // At the modulus: not canonical.
    assert!(FieldElement::from_words(&cfg, vec![251, 0]).is_none());
    // Wrong width.
    assert!(FieldElement::from_words(&cfg, vec![1]).is_none());
}

#[test]
fn test_toy_add_mod() {
    let cfg = toy_config();
    let a = fe(&cfg, vec![7, 0]);
    let b = fe(&cfg, vec![5, 0]);
    assert_eq!(add_mod_p(&cfg, &a, &b).words, vec![12, 0]);
}

#[test]
fn test_toy_sub_mod_wraps() {
    let cfg = toy_config();
    let a = fe(&cfg, vec![2, 0]);
    let b = fe(&cfg, vec![5, 0]);
    // 2 - 5 mod 251 = 248.
    assert_eq!(sub_mod_p(&cfg, &a, &b).words, vec![248, 0]);
}

#[test]
fn test_toy_multiply_and_reduce() {
    let cfg = toy_config();
    let a = fe(&cfg, vec![5, 0]);
    let b = fe(&cfg, vec![7, 0]);
    let prod = mul_operand_scanning(&a.words, &b.words);
    assert_eq!(prod, vec![35, 0, 0, 0]);
    assert_eq!(barret_red(&cfg, &prod).words, vec![35, 0]);
}

#[test]
fn test_toy_boundary() {
    let cfg = toy_config();
    let max = fe(&cfg, vec![250, 0]);
    let one = fe(&cfg, vec![1, 0]);
    let zero = fe(&cfg, vec![0, 0]);
    // (p - 1) + 1 == 0.
    assert_eq!(add_mod_p(&cfg, &max, &one).words, vec![0, 0]);
    // 0 - 1 == p - 1.
    assert_eq!(sub_mod_p(&cfg, &zero, &one).words, vec![250, 0]);
}

#[test]
fn test_add_mod_commutes_production() {
    let cfg = production_config();
    let a = fe(&cfg, sample_x());
    let b = fe(&cfg, sample_y());
    assert_eq!(add_mod_p(&cfg, &a, &b).words, add_mod_p(&cfg, &b, &a).words);
}

#[test]
fn test_sub_mod_cancels_add_production() {
    let cfg = production_config();
    let a = fe(&cfg, sample_x());
    let b = fe(&cfg, sample_y());
    let s = add_mod_p(&cfg, &a, &b);
    assert_eq!(sub_mod_p(&cfg, &s, &b).words, a.words);
}

#[test]
fn test_boundary_production() {
    let cfg = production_config();
    let mut max_words = prime_bytes();
    max_words[0] = 0xec; // p - 1
    let max = fe(&cfg, max_words.clone());
    let mut one_words = vec![0u8; NR_WORDS];
    one_words[0] = 1;
    let one = fe(&cfg, one_words);
    let zero = fe(&cfg, vec![0u8; NR_WORDS]);
    assert_eq!(add_mod_p(&cfg, &max, &one).words, vec![0u8; NR_WORDS]);
    assert_eq!(sub_mod_p(&cfg, &zero, &one).words, max_words);
}

#[test]
fn test_square_maximal_and_reduce() {
    let cfg = production_config();
    let mut max_words = prime_bytes();
    max_words[0] = 0xec; // p - 1
    let sq = square(&max_words);
    let red = barret_red(&cfg, &sq);
    // (p - 1)^2 mod p == 1.
    let mut expect = vec![0u8; NR_WORDS];
    expect[0] = 1;
    assert_eq!(red.words, expect);
}

#[test]
fn test_reduce_square_production() {
    let cfg = production_config();
    let x = sample_x();
    let expect: Vec<u8> = vec![
        47, 165, 14, 97, 5, 130, 77, 97, 147, 248, 180, 55, 96, 216, 28, 238, 74, 86, 73, 31, 204,
        234, 143, 49, 11, 65, 74, 96, 11, 231, 153, 88,
    ];
    assert_eq!(barret_red(&cfg, &square(&x)).words, expect);
    // Reducing the self-product agrees with reducing the square.
    assert_eq!(
        barret_red(&cfg, &mul_operand_scanning(&x, &x)).words,
        barret_red(&cfg, &square(&x)).words
    );
}

#[test]
fn test_reduce_multiply_production() {
    let cfg = production_config();
    let x = sample_x();
    let y = sample_y();
    let expect: Vec<u8> = vec![
        137, 61, 218, 58, 36, 241, 241, 88, 34, 59, 77, 207, 198, 26, 17, 111, 236, 95, 22, 205,
        158, 115, 102, 148, 223, 151, 230, 95, 102, 104, 13, 125,
    ];
    assert_eq!(barret_red(&cfg, &mul_operand_scanning(&x, &y)).words, expect);
    assert_eq!(barret_red(&cfg, &mul_product_scanning(&x, &y)).words, expect);
}

#[test]
fn test_reduce_roundtrip_canonical() {
    let cfg = production_config();
    let x = sample_x();
    // Zero-extend a canonical value to double width: reducing returns it
    // unchanged.
    let wide = resize_digits(&x, 2 * NR_WORDS);
    assert_eq!(barret_red(&cfg, &wide).words, x);
}

#[test]
fn test_word_and_mod_shift() {
    let a: Vec<u8> = vec![1, 2, 3, 4];
    assert_eq!(word_shift(&a, 2), vec![3, 4]);
    assert_eq!(mod_shift(&a, 2), vec![1, 2]);
    assert_eq!(word_shift(&a, 0), a);
}
