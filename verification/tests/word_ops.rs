//! Tests of the word-level primitives, the multipliers and squaring.
use modfield::mul::{mul_operand_scanning, mul_product_scanning};
use modfield::square::square;
use modfield::words::{add, sub};

const NR_WORDS: usize = 32;

#[test]
fn test_simple_add() {
    let mut first = vec![0u8; NR_WORDS];
    let mut second = vec![0u8; NR_WORDS];
    first[0] = 7;
    second[0] = 5;
    let third = add(&first, &second);
    assert_eq!(third.1, false); // no carry
    assert_eq!(third.0[0], 12);
    for i in 1usize..NR_WORDS {
        assert_eq!(third.0[i], 0);
    }
}

#[test]
fn test_add_internal_carry() {
    let mut first = vec![0u8; NR_WORDS];
    let mut second = vec![0u8; NR_WORDS];
    first[7] = ((1u16 << 8) - 1) as u8;
    second[7] = 5;
    let third = add(&first, &second);
    assert_eq!(third.1, false); // no carry
    assert_eq!(third.0[7], 4);
    assert_eq!(third.0[8], 1);
    for i in 1usize..7 {
        assert_eq!(third.0[i], 0);
    }
    for i in 9usize..NR_WORDS {
        assert_eq!(third.0[i], 0);
    }
}

#[test]
fn test_add_carry() {
    let first = vec![!0u8; NR_WORDS];
    let mut second = vec![0u8; NR_WORDS];
    second[0] = 1; // increments exactly by one
    let third = add(&first, &second);
    assert_eq!(third.1, true); // must have carry
    for i in 1usize..NR_WORDS {
        assert_eq!(third.0[i], 0);
    }
}

#[test]
fn test_simple_sub() {
    let mut first = vec![0u8; NR_WORDS];
    let mut second = vec![0u8; NR_WORDS];
    first[0] = 7;
    second[0] = 5;
    let third = sub(&first, &second);
    assert_eq!(third.1, false); // no borrow
    assert_eq!(third.0[0], 2);
    for i in 1usize..NR_WORDS {
        assert_eq!(third.0[i], 0);
    }
}

#[test]
fn test_add_internal_borrow() {
    let mut first = vec![0u8; NR_WORDS];
    let mut second = vec![0u8; NR_WORDS];
    first[7] = 3;
    first[8] = 4;
    second[7] = 5;
    let third = sub(&first, &second);
    assert_eq!(third.1, false); // no borrow
    assert_eq!(third.0[7], !0 - 1);
    assert_eq!(third.0[8], 3);
    for i in 1usize..7 {
        assert_eq!(third.0[i], 0);
    }
    for i in 9usize..NR_WORDS {
        assert_eq!(third.0[i], 0);
    }
}

#[test]
fn test_add_borrow() {
    let first = vec![0u8; NR_WORDS];
    let mut second = vec![0u8; NR_WORDS];
    second[0] = 1; // decrement exactly by one
    let third = sub(&first, &second);
    assert_eq!(third.1, true); // must have carry
    for i in 1usize..NR_WORDS {
        assert_eq!(third.0[i], !0);
    }
}

#[test]
fn test_mul_simple() {
    let mut first = vec![0u8; NR_WORDS];
    let mut second = vec![0u8; NR_WORDS];
    first[0] = 5;
    second[0] = 7;
    let third = mul_operand_scanning(&first, &second);
    assert_eq!(third[0], 35);
    for i in 1usize..(2 * NR_WORDS - 1) {
        assert_eq!(third[i], 0);
    }
}

#[test]
fn test_mul_neutral() {
    let first = vec![0u8; NR_WORDS];
    let second: Vec<u8> = vec![
        0x3A, 0xF1, 0x7C, 0xB8, 0x45, 0x2D, 0xE9, 0x01, 0x9F, 0xAC, 0xD3, 0x0B, 0x66, 0x7A, 0x20,
        0xC4, 0x8E, 0x11, 0x5D, 0xBE, 0x39, 0x72, 0x04, 0xFA, 0x6B, 0x93, 0xCE, 0x28, 0x10, 0x87,
        0xD5, 0x4F,
    ];
    let third = mul_operand_scanning(&first, &second);
    for i in 1usize..(2 * NR_WORDS - 1) {
        assert_eq!(third[i], 0);
    }
}

#[test]
fn test_square() {
    let result: Vec<u8> = vec![
        0x10, 0x10, 0x78, 0x53, 0x1d, 0xbe, 0x5c, 0xdd, 0x7e, 0x56, 0xa2, 0x96, 0xeb, 0x1c, 0x9e,
        0xf4, 0x14, 0xc4, 0x84, 0xdc, 0x45, 0x42, 0xad, 0x1c, 0x70, 0x66, 0xa1, 0x4b, 0x5e, 0xa0,
        0xdf, 0xf4, 0x20, 0x98, 0x40, 0x36, 0x50, 0xb4, 0xc9, 0x61, 0x51, 0xe9, 0xa8, 0x2c, 0x4d,
        0x48, 0x9e, 0x6b, 0x01, 0xb3, 0xf7, 0x95, 0xe8, 0x11, 0xd0, 0xf9, 0x39, 0x13, 0xc1, 0x14,
        0xf7, 0xcb, 0xba, 0x0c,
    ];
    let x: Vec<u8> = vec![
        0x04, 0x82, 0x2e, 0xcb, 0xef, 0x66, 0xf5, 0x7e, 0x9f, 0x86, 0xcc, 0xe2, 0xc3, 0xd7, 0x9d,
        0x51, 0xa1, 0x40, 0x0d, 0x79, 0x3f, 0x31, 0xdb, 0xee, 0x83, 0xf3, 0x91, 0xc2, 0xae, 0xfb,
        0x15, 0x39,
    ];
    assert_eq!(square(&x), result)
}

#[test]
fn test_mul_strategies_agree_full_width() {
    let x: Vec<u8> = vec![
        0x04, 0x82, 0x2e, 0xcb, 0xef, 0x66, 0xf5, 0x7e, 0x9f, 0x86, 0xcc, 0xe2, 0xc3, 0xd7, 0x9d,
        0x51, 0xa1, 0x40, 0x0d, 0x79, 0x3f, 0x31, 0xdb, 0xee, 0x83, 0xf3, 0x91, 0xc2, 0xae, 0xfb,
        0x15, 0x39,
    ];
    let y: Vec<u8> = vec![
        0x3A, 0xF1, 0x7C, 0xB8, 0x45, 0x2D, 0xE9, 0x01, 0x9F, 0xAC, 0xD3, 0x0B, 0x66, 0x7A, 0x20,
        0xC4, 0x8E, 0x11, 0x5D, 0xBE, 0x39, 0x72, 0x04, 0xFA, 0x6B, 0x93, 0xCE, 0x28, 0x10, 0x87,
        0xD5, 0x4F,
    ];
    assert_eq!(mul_operand_scanning(&x, &y), mul_product_scanning(&x, &y));
}

#[test]
fn test_mul_strategies_agree_uneven_lengths() {
    let a: Vec<u8> = vec![0xff, 0x01, 0x80];
    let b: Vec<u8> = vec![0x13, 0x00, 0xfe, 0x7a, 0xc5];
    assert_eq!(mul_operand_scanning(&a, &b), mul_product_scanning(&a, &b));
}

#[test]
fn test_square_matches_multiply() {
    let x: Vec<u8> = vec![
        0x04, 0x82, 0x2e, 0xcb, 0xef, 0x66, 0xf5, 0x7e, 0x9f, 0x86, 0xcc, 0xe2, 0xc3, 0xd7, 0x9d,
        0x51, 0xa1, 0x40, 0x0d, 0x79, 0x3f, 0x31, 0xdb, 0xee, 0x83, 0xf3, 0x91, 0xc2, 0xae, 0xfb,
        0x15, 0x39,
    ];
    assert_eq!(square(&x), mul_operand_scanning(&x, &x));
}
