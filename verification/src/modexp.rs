//! Modular exponentiation by right-to-left square-and-multiply.

use crate::big_integer::{
    big_eq, big_from_u64, big_is_zero, big_lt, big_mul, big_one, big_rem, big_shr, big_zero,
    mod_floor, BigInteger,
};
use crate::error::RsaError;
use vstd::arithmetic::div_mod::*;
use vstd::arithmetic::power::*;
use vstd::arithmetic::power2::*;
use vstd::prelude::*;

verus! {

/// `base` to the power `exp`, reduced modulo `m`.
pub open spec fn mod_pow(base: int, exp: nat, m: int) -> int {
    pow(base, exp) % m
}

/// Anything to the power 0 is 1 for a modulus above 1.
pub proof fn lemma_mod_pow_exponent_zero(base: int, m: int)
    requires
        m > 1,
    ensures
        mod_pow(base, 0, m) == 1,
{
    lemma_pow0(base);
    lemma_small_mod(1, m as nat);
}

/// Modulo 1 every power is 0.
pub proof fn lemma_mod_pow_modulus_one(base: int, exp: nat)
    ensures
        mod_pow(base, exp, 1) == 0,
{
}

/// One round of square-and-multiply keeps `acc * b^e` unchanged modulo `m`:
/// the low bit of `e` is multiplied into the accumulator, `b` is squared,
/// and `e` is halved.
pub proof fn lemma_square_and_multiply(acc: int, b: int, e: nat, m: int)
    requires
        m > 0,
        e > 0,
    ensures
        e % 2 == 1 ==> (((acc * b) % m) * pow((b * b) % m, e / 2)) % m == (acc * pow(b, e)) % m,
        e % 2 == 0 ==> (acc * pow((b * b) % m, e / 2)) % m == (acc * pow(b, e)) % m,
{
    let h = e / 2;
    let sq = pow(b * b, h);
    assert(pow(b, 2 * h) == sq) by {
        lemma_square_is_pow2(b);
        lemma_pow_multiplies(b, 2, h);
    }
    // Squaring may be reduced before it is raised to a power.
    lemma_pow_mod_noop(b * b, h, m);
    let sq_red = pow((b * b) % m, h);
    if e % 2 == 1 {
        assert(pow(b, e) == sq * b) by {
            lemma_pow_adds(b, 2 * h, 1);
            lemma_pow1(b);
        }
        lemma_mul_mod_noop_general(acc * b, sq_red, m);
        lemma_mul_mod_noop_general(acc * b, sq, m);
        assert((acc * b) * sq == acc * (sq * b)) by (nonlinear_arith);
    } else {
        lemma_mul_mod_noop_general(acc, sq_red, m);
        lemma_mul_mod_noop_general(acc, sq, m);
    }
}

/// Modular exponentiation: `base` to the power `exp` modulo `modulo`, in
/// `[0, modulo)`, for `exp >= 0` and `modulo > 1`. The base is reduced once,
/// then each bit of the exponent, lowest first, decides whether the current
/// power is multiplied into the result; every product is reduced before it is
/// used again. A modulus of at most 1, or a negative exponent, is
/// `InvalidInput`.
pub fn exponenciacao_modular(base: &BigInteger, exp: &BigInteger, modulo: &BigInteger) -> (r:
    Result<BigInteger, RsaError>)
    ensures
        r is Err <==> modulo@ <= 1 || exp@ < 0,
        r matches Err(e) ==> e == RsaError::InvalidInput,
        r matches Ok(v) ==> v@ == mod_pow(base@, exp@ as nat, modulo@) && 0 <= v@ < modulo@,
        modulo@ > 1 && exp@ == 0 ==> (r matches Ok(v) && v@ == 1),
{
    let zero = big_zero();
    let one = big_one();
    let two = big_from_u64(2);
    if !big_lt(&one, modulo) || big_lt(exp, &zero) {
        return Err(RsaError::InvalidInput);
    }
    let mut resultado = big_one();
    let mut b = mod_floor(base, modulo);
    let mut e = exp.clone();
    proof {
        lemma_small_mod(1, modulo@ as nat);
        lemma_pow_mod_noop(base@, exp@ as nat, modulo@);
        lemma_pow0(base@);
    }
    while !big_is_zero(&e)
        invariant
            modulo@ > 1,
            two@ == 2,
            one@ == 1,
            e@ >= 0,
            0 <= resultado@ < modulo@,
            0 <= b@ < modulo@,
            (resultado@ * pow(b@, e@ as nat)) % modulo@ == mod_pow(base@, exp@ as nat, modulo@),
        decreases e@,
    {
        proof {
            lemma_square_and_multiply(resultado@, b@, e@ as nat, modulo@);
            lemma_fundamental_div_mod(e@, 2);
            lemma2_to64();
        }
        let low = big_rem(&e, &two);
        if big_eq(&low, &one) {
            resultado = mod_floor(&big_mul(&resultado, &b), modulo);
        }
        e = big_shr(&e, 1);
        b = mod_floor(&big_mul(&b, &b), modulo);
    }
    proof {
        lemma_pow0(b@);
        lemma_small_mod(resultado@ as nat, modulo@ as nat);
    }
    Ok(resultado)
}

} // verus!
