//! Arbitrary-precision signed integers.
//!
//! A [`BigInteger`] holds the two's-complement big-endian bytes of its value,
//! and its view is the mathematical integer those bytes denote. Arithmetic is
//! delegated to `num_bigint::BigInt`; each operation is a small trusted
//! function whose contract states the result over views.
//!
//! Every trusted function here moves its operands into `BigInt` with
//! `BigInt::from_signed_bytes_be` and its result back with
//! `BigInt::to_signed_bytes_be`. Both are taken to read and write the
//! two's-complement encoding that [`signed_be`] describes, with the empty
//! byte string read as zero.

use num_bigint::BigInt;
use num_bigint::RandBigInt;
use num_traits::One;
use num_traits::ToPrimitive;
use num_traits::Zero;
use vstd::arithmetic::div_mod::{
    lemma_div_multiples_vanish, lemma_fundamental_div_mod, lemma_fundamental_div_mod_converse,
    lemma_mod_bound,
};
use vstd::arithmetic::mul::lemma_mul_nonnegative;
use vstd::arithmetic::power::pow;
use vstd::arithmetic::power2::pow2;
use vstd::prelude::*;

verus! {

/// The natural number whose big-endian base-256 digits are `bytes`.
pub open spec fn unsigned_be(bytes: Seq<u8>) -> nat
    decreases bytes.len(),
{
    if bytes.len() == 0 {
        0
    } else {
        unsigned_be(bytes.drop_last()) * 256 + bytes.last() as nat
    }
}

/// The integer whose two's-complement big-endian representation is `bytes`.
/// The empty sequence denotes zero.
pub open spec fn signed_be(bytes: Seq<u8>) -> int {
    if bytes.len() > 0 && bytes[0] >= 128 {
        unsigned_be(bytes) - pow(256, bytes.len())
    } else {
        unsigned_be(bytes) as int
    }
}

/// Quotient of division that rounds toward zero.
pub open spec fn trunc_div(a: int, b: int) -> int {
    if a >= 0 && b > 0 {
        a / b
    } else if a >= 0 {
        -(a / (-b))
    } else if b > 0 {
        -((-a) / b)
    } else {
        (-a) / (-b)
    }
}

/// Remainder of division that rounds toward zero; it has the sign of `a`.
pub open spec fn trunc_rem(a: int, b: int) -> int {
    a - b * trunc_div(a, b)
}

/// An arbitrary-precision signed integer.
#[derive(Debug)]
pub struct BigInteger {
    /// Two's-complement big-endian bytes; any byte string is a valid value.
    pub bytes: Vec<u8>,
}

impl View for BigInteger {
    type V = int;

    open spec fn view(&self) -> int {
        signed_be(self.bytes@)
    }
}

/// Trusted: `Zero::zero` of `num_traits` for `BigInt`, taken to be 0.
#[verifier::external_body]
pub(crate) fn big_zero() -> (r: BigInteger)
    ensures
        r@ == 0,
{
    let z: BigInt = Zero::zero();
    BigInteger { bytes: z.to_signed_bytes_be() }
}

/// Trusted: `One::one` of `num_traits` for `BigInt`, taken to be 1.
#[verifier::external_body]
pub(crate) fn big_one() -> (r: BigInteger)
    ensures
        r@ == 1,
{
    let o: BigInt = One::one();
    BigInteger { bytes: o.to_signed_bytes_be() }
}

/// Trusted: `BigInt::from(u64)` of `num_bigint`, taken to keep the value.
#[verifier::external_body]
pub(crate) fn big_from_u64(v: u64) -> (r: BigInteger)
    ensures
        r@ == v,
{
    BigInteger { bytes: BigInt::from(v).to_signed_bytes_be() }
}

/// Trusted: `Zero::is_zero` of `num_traits` on a `BigInt`, taken to tell
/// whether the value is 0.
#[verifier::external_body]
pub(crate) fn big_is_zero(a: &BigInteger) -> (r: bool)
    ensures
        r == (a@ == 0),
{
    BigInt::from_signed_bytes_be(&a.bytes).is_zero()
}

/// Trusted: `ToPrimitive::to_u8` of `num_traits` on a `BigInt`, taken to
/// return the value when it lies in `0..=255` and `None` otherwise.
#[verifier::external_body]
pub(crate) fn big_to_u8(a: &BigInteger) -> (r: Option<u8>)
    ensures
        0 <= a@ <= 255 ==> r == Some(a@ as u8),
        !(0 <= a@ <= 255) ==> r.is_none(),
{
    BigInt::from_signed_bytes_be(&a.bytes).to_u8()
}

/// Trusted: `&BigInt + &BigInt` of `num_bigint`, taken to be the exact sum.
#[verifier::external_body]
pub(crate) fn big_add(a: &BigInteger, b: &BigInteger) -> (r: BigInteger)
    ensures
        r@ == a@ + b@,
{
    let x = BigInt::from_signed_bytes_be(&a.bytes);
    let y = BigInt::from_signed_bytes_be(&b.bytes);
    BigInteger { bytes: (&x + &y).to_signed_bytes_be() }
}

/// Trusted: `&BigInt - &BigInt` of `num_bigint`, taken to be the exact
/// difference.
#[verifier::external_body]
pub(crate) fn big_sub(a: &BigInteger, b: &BigInteger) -> (r: BigInteger)
    ensures
        r@ == a@ - b@,
{
    let x = BigInt::from_signed_bytes_be(&a.bytes);
    let y = BigInt::from_signed_bytes_be(&b.bytes);
    BigInteger { bytes: (&x - &y).to_signed_bytes_be() }
}

/// Trusted: `&BigInt * &BigInt` of `num_bigint`, taken to be the exact
/// product.
#[verifier::external_body]
pub(crate) fn big_mul(a: &BigInteger, b: &BigInteger) -> (r: BigInteger)
    ensures
        r@ == a@ * b@,
{
    let x = BigInt::from_signed_bytes_be(&a.bytes);
    let y = BigInt::from_signed_bytes_be(&b.bytes);
    BigInteger { bytes: (&x * &y).to_signed_bytes_be() }
}

/// Trusted: `&BigInt / &BigInt` of `num_bigint`, which panics on a zero
/// divisor and otherwise is taken to round the quotient toward zero.
#[verifier::external_body]
pub(crate) fn big_div(a: &BigInteger, b: &BigInteger) -> (r: BigInteger)
    requires
        b@ != 0,
    ensures
        r@ == trunc_div(a@, b@),
{
    let x = BigInt::from_signed_bytes_be(&a.bytes);
    let y = BigInt::from_signed_bytes_be(&b.bytes);
    BigInteger { bytes: (&x / &y).to_signed_bytes_be() }
}

/// Trusted: `&BigInt % &BigInt` of `num_bigint`, which panics on a zero
/// divisor and otherwise is taken to be the remainder of the division that
/// rounds toward zero.
#[verifier::external_body]
pub(crate) fn big_rem(a: &BigInteger, b: &BigInteger) -> (r: BigInteger)
    requires
        b@ != 0,
    ensures
        r@ == trunc_rem(a@, b@),
{
    let x = BigInt::from_signed_bytes_be(&a.bytes);
    let y = BigInt::from_signed_bytes_be(&b.bytes);
    BigInteger { bytes: (&x % &y).to_signed_bytes_be() }
}

/// Trusted: `&BigInt >> u32` of `num_bigint`, taken to divide by a power of
/// two and round toward negative infinity.
#[verifier::external_body]
pub(crate) fn big_shr(a: &BigInteger, bits: u32) -> (r: BigInteger)
    ensures
        r@ == a@ / (pow2(bits as nat) as int),
{
    let x = BigInt::from_signed_bytes_be(&a.bytes);
    BigInteger { bytes: (&x >> bits).to_signed_bytes_be() }
}

/// Trusted: `&BigInt << u32` of `num_bigint`, taken to multiply by a power
/// of two.
#[verifier::external_body]
pub(crate) fn big_shl(a: &BigInteger, bits: u32) -> (r: BigInteger)
    ensures
        r@ == a@ * pow2(bits as nat),
{
    let x = BigInt::from_signed_bytes_be(&a.bytes);
    BigInteger { bytes: (&x << bits).to_signed_bytes_be() }
}

/// Trusted: `==` on `BigInt` of `num_bigint`, taken to compare values.
#[verifier::external_body]
pub(crate) fn big_eq(a: &BigInteger, b: &BigInteger) -> (r: bool)
    ensures
        r == (a@ == b@),
{
    BigInt::from_signed_bytes_be(&a.bytes) == BigInt::from_signed_bytes_be(&b.bytes)
}

/// Trusted: `<` on `BigInt` of `num_bigint`, taken to compare values.
#[verifier::external_body]
pub(crate) fn big_lt(a: &BigInteger, b: &BigInteger) -> (r: bool)
    ensures
        r == (a@ < b@),
{
    BigInt::from_signed_bytes_be(&a.bytes) < BigInt::from_signed_bytes_be(&b.bytes)
}

/// Trusted: `RandBigInt::gen_bigint_range` of `num_bigint` on
/// `rand::thread_rng()`, which panics unless `low < high`. The draw is
/// random, so the contract states only the range every outcome lies in.
#[verifier::external_body]
pub(crate) fn big_random_range(low: &BigInteger, high: &BigInteger) -> (r: BigInteger)
    requires
        low@ < high@,
    ensures
        low@ <= r@ < high@,
{
    let lo = BigInt::from_signed_bytes_be(&low.bytes);
    let hi = BigInt::from_signed_bytes_be(&high.bytes);
    BigInteger { bytes: rand::thread_rng().gen_bigint_range(&lo, &hi).to_signed_bytes_be() }
}

/// The truncating remainder for a positive divisor is the floor remainder,
/// or lies below it by the divisor when it is negative.
pub proof fn lemma_trunc_rem_floor(a: int, m: int)
    requires
        m > 0,
    ensures
        trunc_rem(a, m) >= 0 ==> trunc_rem(a, m) == a % m,
        trunc_rem(a, m) < 0 ==> trunc_rem(a, m) + m == a % m,
{
    if a >= 0 {
        lemma_fundamental_div_mod(a, m);
    } else {
        let q = (-a) / m;
        let r = (-a) % m;
        lemma_fundamental_div_mod(-a, m);
        lemma_mod_bound(-a, m);
        assert(trunc_rem(a, m) == -r) by (nonlinear_arith)
            requires
                trunc_rem(a, m) == a - m * (-q),
                -a == m * q + r,
        ;
        if r == 0 {
            assert(a == (-q) * m + 0) by (nonlinear_arith)
                requires
                    -a == m * q + r,
                    r == 0,
            ;
            lemma_fundamental_div_mod_converse(a, m, -q, 0);
        } else {
            assert(a == (-q - 1) * m + (m - r)) by (nonlinear_arith)
                requires
                    -a == m * q + r,
            ;
            lemma_fundamental_div_mod_converse(a, m, -q - 1, m - r);
        }
    }
}

/// Truncating division of an exact multiple by a positive divisor gives the
/// cofactor.
pub proof fn lemma_trunc_div_exact(k: int, m: int)
    requires
        m > 0,
    ensures
        trunc_div(m * k, m) == k,
{
    if k >= 0 {
        lemma_mul_nonnegative(m, k);
        lemma_div_multiples_vanish(k, m);
    } else {
        assert(m * k < 0) by (nonlinear_arith)
            requires
                m > 0,
                k < 0,
        ;
        assert(-(m * k) == m * (-k)) by (nonlinear_arith);
        lemma_div_multiples_vanish(-k, m);
    }
}

/// The floor remainder for a positive divisor, in `[0, m)`, from the
/// truncating remainder of the underlying integers: a negative remainder is
/// moved up by the divisor.
pub(crate) fn mod_floor(a: &BigInteger, m: &BigInteger) -> (r: BigInteger)
    requires
        m@ > 0,
    ensures
        r@ == a@ % m@,
        0 <= r@ < m@,
{
    let t = big_rem(a, m);
    let zero = big_zero();
    proof {
        lemma_trunc_rem_floor(a@, m@);
        lemma_mod_bound(a@, m@);
    }
    if big_lt(&t, &zero) {
        big_add(&t, m)
    } else {
        t
    }
}

/// Floor quotient and remainder for a positive divisor; the quotient is
/// recovered by dividing the exact multiple that is left once the remainder
/// is taken away.
pub(crate) fn div_mod_floor(a: &BigInteger, m: &BigInteger) -> (r: (BigInteger, BigInteger))
    requires
        m@ > 0,
    ensures
        r.0@ == a@ / m@,
        r.1@ == a@ % m@,
        0 <= r.1@ < m@,
{
    let rem = mod_floor(a, m);
    let exact = big_sub(a, &rem);
    let quot = big_div(&exact, m);
    proof {
        lemma_fundamental_div_mod(a@, m@);
        lemma_trunc_div_exact(a@ / m@, m@);
    }
    (quot, rem)
}

impl BigInteger {
    /// The integer `v`.
    pub fn from_u64(v: u64) -> (r: BigInteger)
        ensures
            r@ == v,
    {
        big_from_u64(v)
    }

    /// The integer whose two's-complement big-endian bytes are `bytes`.
    pub fn from_signed_bytes_be(bytes: Vec<u8>) -> (r: BigInteger)
        ensures
            r.bytes@ == bytes@,
            r@ == signed_be(bytes@),
    {
        BigInteger { bytes }
    }

    /// The value as a byte, when it lies in `0..=255`.
    pub fn to_u8(&self) -> (r: Option<u8>)
        ensures
            0 <= self@ <= 255 ==> r == Some(self@ as u8),
            !(0 <= self@ <= 255) ==> r.is_none(),
    {
        big_to_u8(self)
    }
}

impl Clone for BigInteger {
    fn clone(&self) -> (r: BigInteger)
        ensures
            r@ == self@,
            r.bytes@ == self.bytes@,
    {
        BigInteger { bytes: self.bytes.clone() }
    }
}

impl PartialEq for BigInteger {
    fn eq(&self, other: &BigInteger) -> (r: bool) {
        big_eq(self, other)
    }
}

impl vstd::std_specs::cmp::PartialEqSpecImpl for BigInteger {
    open spec fn obeys_eq_spec() -> bool {
        true
    }

    open spec fn eq_spec(&self, other: &BigInteger) -> bool {
        self@ == other@
    }
}

} // verus!
