//! A permuted congruential generator (PCG) with 64-bit state and
//! 32-bit XSH-RR output, verified against a mathematical model of
//! its arithmetic modulo 2^64.
//!
//! The generator is a linear congruential generator over `u64`
//! combined with an output permutation (xorshift high bits, then a
//! random rotation).  Besides stepping, it supports jumping an
//! arbitrary distance through the stream in logarithmic time, and
//! that jump is proved equal to the corresponding number of single
//! steps.

mod arith;
mod laws;
mod lcg;
mod output;
mod rng;

pub use rng::PCG32;
