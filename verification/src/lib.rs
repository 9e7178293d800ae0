//! Integer core of a truncated prime-indexed operator probe.
//!
//! The operator under study couples an index `n` to `p * n` for each prime
//! `p` up to a cutoff, plus a diagonal built from the von Mangoldt function.
//! This crate verifies the arithmetic skeleton that everything else rests on:
//! the prime sieve, the prime-power analysis behind the von Mangoldt weight,
//! the deterministic 64-bit generator that makes probe runs reproducible, and
//! the argument validation of the two public operations.

pub mod arith;
pub mod bounds;
pub mod mangoldt;
pub mod rng;
pub mod sieve;
