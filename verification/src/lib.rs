//! Two building blocks of a secure messaging transport: the Infinite Garble
//! Extension chaining of AES-256 blocks, and the splitting of a 64-bit product
//! of two primes into its factors.
//!
//! Both are pure functions of their arguments. What they return is stated in
//! their contracts and proved by Verus, down to the block cipher itself, which
//! is the `aes` crate's and is taken on trust (see `cipher`).

use vstd::prelude::*;

pub mod chain;
pub mod cipher;
pub mod divisors;
pub mod factorize;
pub mod ige;
pub mod rho;

pub use factorize::factorize_pq_pair;
pub use ige::{decrypt_ige, encrypt_ige};

verus! {

/// The ways in which an operation of this crate can fail.
#[derive(Clone, Copy, Debug, PartialEq, Eq, Structural)]
pub enum CryptoError {
    /// A buffer whose length is not a whole number of 16-byte blocks.
    MalformedInput,
    /// A number below 2, which has no factorization.
    InvalidInput,
    /// The search for a divisor found none: the number is an odd prime.
    FactorizationFailed,
}

} // verus!
