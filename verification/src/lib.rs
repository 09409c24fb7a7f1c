//! A pseudo-random number generator whose output is, bit for bit, that of
//! `java.util.Random`: a 48-bit linear congruential sequence and the
//! integers, booleans, bytes, fractions and Gaussian points drawn
//! from it.
//!
//! Floating-point results are given as IEEE 754 bit patterns; the library
//! itself works on integers alone.
pub mod bound;
pub mod gauss;
pub mod ieee;
pub mod laws;
pub mod lcg;
pub mod polar;
pub mod random;

pub use random::Random;
