//! Textbook RSA over a multi-precision unsigned integer built from 64-bit limbs.
pub mod hex;
pub mod key;
pub mod laws;
pub mod limbs;
pub mod prime;
pub mod uint;
