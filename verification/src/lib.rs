//! A multi-precision modular arithmetic kernel for a prime field: fixed-width
//! integers as little-endian sequences of 8-bit words, with verified modular
//! addition and subtraction, two schoolbook multipliers, squaring, and Barrett
//! reduction against a configured modulus.
pub mod barrett;
pub mod digits;
pub mod field;
pub mod laws;
pub mod mul;
pub mod square;
pub mod words;
