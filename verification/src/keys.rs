//! RSA keypairs: assembling one from two primes, generating one at random,
//! and encrypting and decrypting blocks with it.

use crate::big_integer::{
    big_eq, big_from_u64, big_lt, big_mul, big_one, big_sub, big_zero, BigInteger,
};
use crate::error::RsaError;
use crate::euclid::{gcd, inverso_modular, lemma_mod_inverse, mod_inverse};
use crate::modexp::{exponenciacao_modular, mod_pow};
use crate::primality::{accepted, gerar_primo, has_bit_length, GENERATION_ROUNDS};
use crate::primes::{is_prime, lemma_rsa_exponents};
use vstd::arithmetic::div_mod::lemma_small_mod;
use vstd::arithmetic::power::{lemma_pow_mod_noop, lemma_pow_multiplies, pow};
use vstd::arithmetic::power2::*;
use vstd::prelude::*;

verus! {

/// The public exponent of every keypair.
pub const PUBLIC_EXPONENT: u64 = 65537;

/// The largest value of a message block; a modulus must exceed it.
pub const MAX_BLOCK: u64 = 255;

/// How many prime pairs key generation may try.
pub const KEY_ATTEMPTS: u32 = 32;

/// An RSA keypair: the public modulus and exponent, and the private exponent.
/// The primes and the totient are not kept.
#[derive(Debug)]
pub struct Keypair {
    /// The public modulus, a product of two primes.
    pub n: BigInteger,
    /// The public exponent.
    pub e: BigInteger,
    /// The private exponent, the inverse of `e` modulo the totient.
    pub d: BigInteger,
}

impl Keypair {
    /// The keypair is the one that the distinct factors `p` and `q` give:
    /// the modulus is their product and exceeds a block, the public exponent
    /// is the fixed one and shares no factor with the totient
    /// `(p - 1) * (q - 1)`, and the private exponent is its inverse modulo
    /// the totient.
    pub open spec fn made_from(&self, p: int, q: int) -> bool {
        &&& p >= 2
        &&& q >= 2
        &&& p != q
        &&& self.n@ == p * q
        &&& self.n@ > MAX_BLOCK
        &&& self.e@ == PUBLIC_EXPONENT
        &&& gcd(self.e@, (p - 1) * (q - 1)) == 1
        &&& self.d@ == mod_inverse(self.e@, (p - 1) * (q - 1))
    }
}

/// The keypair that two factors give. They are taken to be prime and are not
/// tested here. Factors below 2, equal factors, or a modulus that does not
/// exceed a block are `InvalidInput`; a totient that shares a factor with the
/// public exponent is `NoInverseExists`.
pub fn assemble_keypair(p: &BigInteger, q: &BigInteger) -> (r: Result<Keypair, RsaError>)
    ensures
        r matches Err(e) ==> e == RsaError::InvalidInput || e == RsaError::NoInverseExists,
        r matches Err(e) && e == RsaError::InvalidInput <==> p@ < 2 || q@ < 2 || p@ == q@ || p@
            * q@ <= MAX_BLOCK,
        r matches Err(e) && e == RsaError::NoInverseExists <==> p@ >= 2 && q@ >= 2 && p@ != q@
            && p@ * q@ > MAX_BLOCK && gcd(PUBLIC_EXPONENT as int, (p@ - 1) * (q@ - 1)) != 1,
        r matches Ok(k) ==> k.made_from(p@, q@),
{
    let one = big_one();
    let two = big_from_u64(2);
    if big_lt(p, &two) || big_lt(q, &two) || big_eq(p, q) {
        return Err(RsaError::InvalidInput);
    }
    let n = big_mul(p, q);
    if !big_lt(&big_from_u64(MAX_BLOCK), &n) {
        return Err(RsaError::InvalidInput);
    }
    let phi_n = big_mul(&big_sub(p, &one), &big_sub(q, &one));
    let e = big_from_u64(PUBLIC_EXPONENT);
    assert(phi_n@ > 0) by (nonlinear_arith)
        requires
            phi_n@ == (p@ - 1) * (q@ - 1),
            p@ >= 2,
            q@ >= 2,
    ;
    match inverso_modular(&e, &phi_n) {
        Ok(d) => Ok(Keypair { n, e, d }),
        Err(_) => Err(RsaError::NoInverseExists),
    }
}

/// A random keypair whose modulus has about `bits` bits: each prime is a
/// probable prime of `bits / 2` bits. The second prime is drawn again when it
/// equals the first, and both are drawn again when the totient shares a
/// factor with the public exponent. Primes of fewer than 5 bits cannot give a
/// modulus above a block, so `bits / 2 < 5` is `InvalidInput`; when the
/// attempts are used up, or a prime search gives up, the result is
/// `KeyGenerationFailed`.
pub fn generate_keypair(bits: u32) -> (r: Result<Keypair, RsaError>)
    ensures
        r matches Err(e) ==> e == RsaError::InvalidInput || e == RsaError::KeyGenerationFailed,
        r matches Err(e) && e == RsaError::InvalidInput <==> bits / 2 < 5,
        r matches Ok(k) ==> exists|p: int, q: int|
            {
                &&& #[trigger] k.made_from(p, q)
                &&& has_bit_length(p, (bits / 2) as nat)
                &&& has_bit_length(q, (bits / 2) as nat)
                &&& accepted(p, GENERATION_ROUNDS as nat)
                &&& accepted(q, GENERATION_ROUNDS as nat)
            },
{
    let half = bits / 2;
    if half < 5 {
        return Err(RsaError::InvalidInput);
    }
    let mut p = match gerar_primo(half) {
        Ok(v) => v,
        Err(_) => {
            return Err(RsaError::KeyGenerationFailed);
        },
    };
    let mut tried: u32 = 0;
    while tried < KEY_ATTEMPTS
        invariant
            half == bits / 2,
            half >= 5,
            has_bit_length(p@, half as nat),
            accepted(p@, GENERATION_ROUNDS as nat),
        decreases KEY_ATTEMPTS - tried,
    {
        tried += 1;
        let q = match gerar_primo(half) {
            Ok(v) => v,
            Err(_) => {
                return Err(RsaError::KeyGenerationFailed);
            },
        };
        if !big_eq(&q, &p) {
            match assemble_keypair(&p, &q) {
                Ok(k) => {
                    return Ok(k);
                },
                Err(_) => {
                    p = match gerar_primo(half) {
                        Ok(v) => v,
                        Err(_) => {
                            return Err(RsaError::KeyGenerationFailed);
                        },
                    };
                },
            }
        }
    }
    Err(RsaError::KeyGenerationFailed)
}

/// A modulus of at least 5-bit factors exceeds a block.
pub proof fn lemma_modulus_exceeds_block(p: int, q: int, half: nat)
    requires
        half >= 5,
        has_bit_length(p, half),
        has_bit_length(q, half),
    ensures
        p * q > MAX_BLOCK,
        p >= 2,
        q >= 2,
{
    lemma2_to64();
    if half > 5 {
        lemma_pow2_strictly_increases(4, (half - 1) as nat);
    }
    assert(p * q >= 256) by (nonlinear_arith)
        requires
            p >= 16,
            q >= 16,
    ;
}

/// Whether `m` is a block that the modulus `n` can carry with exponent `e`.
pub open spec fn valid_block(m: int, e: int, n: int) -> bool {
    n > 1 && e >= 0 && 0 <= m < n
}

/// Encrypts one block: `m` to the power `e` modulo `n`. The block must lie
/// in `[0, n)`, the exponent must not be negative and the modulus must exceed
/// 1; anything else is `InvalidInput`.
pub fn encrypt(m: &BigInteger, e: &BigInteger, n: &BigInteger) -> (r: Result<BigInteger, RsaError>)
    ensures
        r is Err <==> !valid_block(m@, e@, n@),
        r matches Err(err) ==> err == RsaError::InvalidInput,
        r matches Ok(c) ==> c@ == mod_pow(m@, e@ as nat, n@) && 0 <= c@ < n@,
{
    let zero = big_zero();
    if big_lt(m, &zero) || !big_lt(m, n) {
        return Err(RsaError::InvalidInput);
    }
    exponenciacao_modular(m, e, n)
}

/// Decrypts one block: `c` to the power `d` modulo `n`, under the same
/// conditions as [`encrypt`].
pub fn decrypt(c: &BigInteger, d: &BigInteger, n: &BigInteger) -> (r: Result<BigInteger, RsaError>)
    ensures
        r is Err <==> !valid_block(c@, d@, n@),
        r matches Err(err) ==> err == RsaError::InvalidInput,
        r matches Ok(m) ==> m@ == mod_pow(c@, d@ as nat, n@) && 0 <= m@ < n@,
{
    encrypt(c, d, n)
}

/// Every block of `blocks` can be carried by `n` with exponent `e`.
pub open spec fn valid_blocks(blocks: Seq<BigInteger>, e: int, n: int) -> bool {
    n > 1 && e >= 0 && forall|i: int| 0 <= i < blocks.len() ==> 0 <= (#[trigger] blocks[i])@ < n
}

fn transform_blocks(blocks: &Vec<BigInteger>, e: &BigInteger, n: &BigInteger) -> (r: Result<
    Vec<BigInteger>,
    RsaError,
>)
    ensures
        r is Err <==> !valid_blocks(blocks@, e@, n@),
        r matches Err(err) ==> err == RsaError::InvalidInput,
        r matches Ok(out) ==> {
            &&& out.len() == blocks.len()
            &&& forall|i: int|
                0 <= i < out.len() ==> (#[trigger] out[i])@ == mod_pow(
                    blocks[i]@,
                    e@ as nat,
                    n@,
                )
            &&& forall|i: int| 0 <= i < out.len() ==> 0 <= (#[trigger] out[i])@ < n@
        },
{
    let zero = big_zero();
    let one = big_one();
    if !big_lt(&one, n) || big_lt(e, &zero) {
        return Err(RsaError::InvalidInput);
    }
    let mut out: Vec<BigInteger> = Vec::new();
    let mut i: usize = 0;
    while i < blocks.len()
        invariant
            i <= blocks.len(),
            n@ > 1,
            e@ >= 0,
            out.len() == i,
            forall|j: int| 0 <= j < i ==> 0 <= (#[trigger] blocks[j])@ < n@,
            forall|j: int|
                0 <= j < i ==> (#[trigger] out[j])@ == mod_pow(blocks[j]@, e@ as nat, n@),
            forall|j: int| 0 <= j < i ==> 0 <= (#[trigger] out[j])@ < n@,
        decreases blocks.len() - i,
    {
        match encrypt(&blocks[i], e, n) {
            Ok(c) => {
                out.push(c);
            },
            Err(_) => {
                return Err(RsaError::InvalidInput);
            },
        }
        i += 1;
    }
    Ok(out)
}

/// Encrypts a message block by block, in order. Fails with `InvalidInput`
/// when the modulus is at most 1, the exponent is negative, or some block
/// lies outside `[0, n)`.
pub fn encrypt_blocks(blocks: &Vec<BigInteger>, e: &BigInteger, n: &BigInteger) -> (r: Result<
    Vec<BigInteger>,
    RsaError,
>)
    ensures
        r is Err <==> !valid_blocks(blocks@, e@, n@),
        r matches Err(err) ==> err == RsaError::InvalidInput,
        r matches Ok(out) ==> {
            &&& out.len() == blocks.len()
            &&& forall|i: int|
                0 <= i < out.len() ==> (#[trigger] out[i])@ == mod_pow(
                    blocks[i]@,
                    e@ as nat,
                    n@,
                )
            &&& forall|i: int| 0 <= i < out.len() ==> 0 <= (#[trigger] out[i])@ < n@
        },
{
    transform_blocks(blocks, e, n)
}

/// Decrypts a message block by block, in order, under the same conditions as
/// [`encrypt_blocks`].
pub fn decrypt_blocks(blocks: &Vec<BigInteger>, d: &BigInteger, n: &BigInteger) -> (r: Result<
    Vec<BigInteger>,
    RsaError,
>)
    ensures
        r is Err <==> !valid_blocks(blocks@, d@, n@),
        r matches Err(err) ==> err == RsaError::InvalidInput,
        r matches Ok(out) ==> {
            &&& out.len() == blocks.len()
            &&& forall|i: int|
                0 <= i < out.len() ==> (#[trigger] out[i])@ == mod_pow(
                    blocks[i]@,
                    d@ as nat,
                    n@,
                )
            &&& forall|i: int| 0 <= i < out.len() ==> 0 <= (#[trigger] out[i])@ < n@
        },
{
    transform_blocks(blocks, d, n)
}

/// Decryption undoes encryption: for different primes `p` and `q` and
/// exponents `e`, `d` with `e * d` congruent to 1 modulo
/// `(p - 1) * (q - 1)`, every block `m` in `[0, p * q)` comes back from its
/// ciphertext.
pub proof fn lemma_rsa_round_trip(p: int, q: int, e: int, d: int, m: int)
    requires
        is_prime(p),
        is_prime(q),
        p != q,
        e >= 0,
        d >= 0,
        (e * d) % ((p - 1) * (q - 1)) == 1,
        0 <= m < p * q,
    ensures
        mod_pow(mod_pow(m, e as nat, p * q), d as nat, p * q) == m,
{
    let n = p * q;
    lemma_rsa_exponents(p, q, e, d, m);
    lemma_pow_mod_noop(pow(m, e as nat), d as nat, n);
    lemma_pow_multiplies(m, e as nat, d as nat);
    lemma_small_mod(m as nat, n as nat);
}

/// A keypair made from two primes decrypts what it encrypts: every block in
/// `[0, n)` comes back.
pub proof fn lemma_keypair_round_trip(k: Keypair, p: int, q: int, m: int)
    requires
        k.made_from(p, q),
        is_prime(p),
        is_prime(q),
        0 <= m < k.n@,
    ensures
        k.e@ >= 0,
        k.d@ >= 0,
        mod_pow(mod_pow(m, k.e@ as nat, k.n@), k.d@ as nat, k.n@) == m,
{
    let phi = (p - 1) * (q - 1);
    assert(phi >= 2) by (nonlinear_arith)
        requires
            phi == (p - 1) * (q - 1),
            p >= 2,
            q >= 2,
            p != q,
    ;
    lemma_mod_inverse(k.e@, phi);
    lemma_small_mod(1, phi as nat);
    lemma_rsa_round_trip(p, q, k.e@, k.d@, m);
}

} // verus!
