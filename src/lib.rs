//! A small Diffie–Hellman key-exchange engine: parameter validation,
//! public values and shared secrets, with their arithmetic proved.
//!
//! Every power is reduced modulo the exchange's modulus after each product
//! (`arith::pow_mod`), so public values and shared secrets are the true
//! residues `b^e mod p` for all 32-bit inputs; nothing wraps. A generator is
//! accepted when its powers `g^1, ..., g^(p-1)` modulo `p` are pairwise
//! distinct.

pub mod arith;
pub mod exchange;

pub use exchange::{DHError, DiffieHellman};
