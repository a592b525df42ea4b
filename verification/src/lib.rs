//! Arithmetic in the residue rings Z/nZ over 128-bit integers, the number
//! theory it rests on, and three textbook public-key protocols built from it.
//!
//! All values are fixed-width: moduli and residues are `u128`, exponents and
//! Bezout coefficients are `i128`. Nothing here is hardened for production
//! cryptography.
//!
//! - `integer`: primality, gcd, Bezout coefficients, integer square root,
//!   prime factorization and Euler's totient.
//! - `divisibility`, `factorization`, `totient`, `fermat`: the number theory
//!   behind them, up to the uniqueness of prime factorization, the
//!   multiplicativity of the totient and Fermat's little theorem.
//! - `modular`: the type `Residue` and its arithmetic; `ring_laws`: the laws
//!   that the arithmetic obeys.
//! - `diffie_hellman`, `elgamal`, `rsa`: the protocols, each with the proof
//!   that it recovers what it should.

pub mod integer;
pub mod divisibility;
pub mod factorization;
pub mod totient;
pub mod modular;
pub mod ring_laws;
pub mod fermat;
mod random;
pub mod diffie_hellman;
pub mod elgamal;
pub mod rsa;
