//! Textbook RSA over arbitrary-precision integers: extended Euclid, modular
//! inverse, square-and-multiply exponentiation, Miller-Rabin testing, prime
//! and key generation, and a one-byte-per-block message codec.
//!
//! Every function carries a contract over mathematical integers, and the
//! number theory that RSA rests on (Bezout, Euclid's lemma, Fermat's little
//! theorem, the round trip of encryption and decryption) is proved here.

pub mod big_integer;
pub mod error;
pub mod euclid;
pub mod modexp;
pub mod primes;
pub mod primality;
pub mod keys;
pub mod codec;
