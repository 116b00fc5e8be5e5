//! Threshold secret sharing (Shamir's scheme) over unbounded integers.
//!
//! A secret is encoded as a big integer, split into `n` shares by evaluating
//! a random polynomial over a prime field, and recovered from any `k` shares
//! by Lagrange interpolation, either modulo the prime or with exact rational
//! arithmetic.  A verifiable-secret-sharing extension publishes commitments
//! `g^a mod p` to the polynomial coefficients.

pub mod alphabet;
pub mod arith;
pub mod bignum;
pub mod codec;
pub mod commit;
pub mod error;
pub mod field;
pub mod interp;
pub mod rational;
pub mod shamir;
pub mod shares;

pub use error::SssError;
