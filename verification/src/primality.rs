//! Miller-Rabin primality testing and the search for random primes.

use crate::big_integer::{
    big_add, big_eq, big_from_u64, big_is_zero, big_lt, big_mul, big_one, big_random_range,
    big_rem, big_shl, big_shr, big_sub, mod_floor, BigInteger,
};
use crate::error::RsaError;
use crate::modexp::{exponenciacao_modular, mod_pow};
use crate::primes::{is_prime, lemma_fermat, lemma_square_root_of_one};
use vstd::arithmetic::div_mod::*;
use vstd::arithmetic::mul::*;
use vstd::arithmetic::power::*;
use vstd::arithmetic::power2::*;
use vstd::prelude::*;

verus! {

/// What is left of `n` once every factor 2 is divided out.
pub open spec fn odd_part(n: nat) -> nat
    decreases n,
{
    if n == 0 || n % 2 == 1 {
        n
    } else {
        odd_part(n / 2)
    }
}

/// How many times 2 divides `n`.
pub open spec fn two_exponent(n: nat) -> nat
    decreases n,
{
    if n == 0 || n % 2 == 1 {
        0
    } else {
        1 + two_exponent(n / 2)
    }
}

/// The Miller-Rabin condition of an odd `n > 2` for the base `a`: with
/// `n - 1 == d * 2^s` and `d` odd, either `a^d` is 1 modulo `n`, or one of
/// `a^d, a^(2d), ..., a^(2^(s-1) d)` is `n - 1` modulo `n`.
pub open spec fn passes_round(n: int, a: int) -> bool {
    let d = odd_part((n - 1) as nat);
    let s = two_exponent((n - 1) as nat);
    &&& n > 2
    &&& n % 2 == 1
    &&& (mod_pow(a, d, n) == 1 || exists|r: nat|
        r < s && #[trigger] mod_pow(a, d * pow2(r), n) == n - 1)
}

/// Every base of `bases` satisfies the Miller-Rabin condition of `n`.
pub open spec fn passes_all(n: int, bases: Seq<int>) -> bool {
    forall|i: int| 0 <= i < bases.len() ==> passes_round(n, #[trigger] bases[i])
}

/// The verdict of the test on `n` with the given bases: 2 and 3 are prime,
/// other numbers below 5 and even numbers are not, and an odd `n > 3` is
/// taken for prime when every base satisfies its Miller-Rabin condition.
pub open spec fn probable_prime(n: int, bases: Seq<int>) -> bool {
    n == 2 || n == 3 || (n > 3 && n % 2 == 1 && passes_all(n, bases))
}

/// `n` can come out of the test with `k` rounds as prime: it is 2 or 3, or
/// it is odd and some `k` bases in `[2, n - 2]` all satisfy its Miller-Rabin
/// condition.
pub open spec fn accepted(n: int, k: nat) -> bool {
    n == 2 || n == 3 || (n > 3 && n % 2 == 1 && exists|bases: Seq<int>|
        {
            &&& bases.len() == k
            &&& forall|i: int| 0 <= i < bases.len() ==> 2 <= #[trigger] bases[i] <= n - 2
            &&& passes_all(n, bases)
        })
}

/// `n == odd_part(n) * 2^two_exponent(n)`, and the odd part of a positive
/// number is odd.
pub proof fn lemma_odd_part(n: nat)
    requires
        n > 0,
    ensures
        odd_part(n) % 2 == 1,
        odd_part(n) * pow2(two_exponent(n)) == n,
    decreases n,
{
    if n % 2 == 1 {
        lemma2_to64();
        assert(n * 1 == n);
    } else {
        let h = (n / 2) as nat;
        lemma_odd_part(h);
        let e = two_exponent(h);
        lemma_pow2_unfold(e + 1);
        assert(odd_part(h) * (2 * pow2(e)) == 2 * (odd_part(h) * pow2(e))) by (nonlinear_arith);
    }
}

/// Doubling `d * 2^j` reaches `d * 2^s` exactly when `j + 1 == s`.
proof fn lemma_double_reaches(d: int, j: nat, s: nat)
    requires
        d > 0,
        j < s,
    ensures
        2 * (d * pow2(j)) == d * pow2(s) <==> j + 1 == s,
{
    lemma_pow2_unfold(j + 1);
    assert(2 * (d * pow2(j)) == d * pow2(j + 1)) by (nonlinear_arith)
        requires
            pow2(j + 1) == 2 * pow2(j),
    ;
    if j + 1 < s {
        lemma_pow2_strictly_increases(j + 1, s);
        lemma_mul_strict_inequality(pow2(j + 1) as int, pow2(s) as int, d);
        lemma_mul_is_commutative(d, pow2(j + 1) as int);
        lemma_mul_is_commutative(d, pow2(s) as int);
    }
}

/// Walking down from `a^(d * 2^r)` congruent to 1 modulo a prime `n`, by
/// square roots: either some `a^(d * 2^j)` with `j < r` is `n - 1`, or the
/// walk reaches `a^d` congruent to 1.
proof fn lemma_square_roots_descend(n: int, a: int, d: nat, r: nat)
    requires
        is_prime(n),
        mod_pow(a, d * pow2(r), n) == 1,
    ensures
        mod_pow(a, d, n) == 1 || exists|j: nat|
            j < r && #[trigger] mod_pow(a, d * pow2(j), n) == n - 1,
    decreases r,
{
    if r == 0 {
        lemma2_to64();
        assert(d * pow2(0) == d) by (nonlinear_arith)
            requires
                pow2(0) == 1,
        ;
    } else {
        let h = d * pow2((r - 1) as nat);
        let y = mod_pow(a, h, n);
        lemma_pow2_unfold(r);
        assert(d * pow2(r) == h + h) by (nonlinear_arith)
            requires
                pow2(r) == 2 * pow2((r - 1) as nat),
                h == d * pow2((r - 1) as nat),
        ;
        lemma_pow_adds(a, h, h);
        lemma_mul_mod_noop_general(pow(a, h), pow(a, h), n);
        lemma_mod_bound(pow(a, h), n);
        // y * y is congruent to 1, so y is 1 or n - 1; the latter is the
        // witness at r - 1
        lemma_square_root_of_one(n, y);
        if y == 1 {
            lemma_square_roots_descend(n, a, d, (r - 1) as nat);
        }
    }
}

/// A prime above 2 satisfies its Miller-Rabin condition for every base that
/// it does not divide: the test never rejects a prime.
pub proof fn lemma_prime_passes_round(n: int, a: int)
    requires
        is_prime(n),
        n > 2,
        a % n != 0,
    ensures
        passes_round(n, a),
{
    let d = odd_part((n - 1) as nat);
    let s = two_exponent((n - 1) as nat);
    // a prime above 2 is odd
    assert(n % 2 == 1);
    lemma_odd_part((n - 1) as nat);
    lemma_fermat(n, a);
    lemma_square_roots_descend(n, a, d, s);
}

/// A prime is taken for prime by the test with any bases that it does not
/// divide.
pub proof fn lemma_prime_is_probable_prime(n: int, bases: Seq<int>)
    requires
        is_prime(n),
        forall|i: int| 0 <= i < bases.len() ==> #[trigger] bases[i] % n != 0,
    ensures
        probable_prime(n, bases),
{
    if n > 3 {
        assert forall|i: int| 0 <= i < bases.len() implies passes_round(
            n,
            #[trigger] bases[i],
        ) by {
            lemma_prime_passes_round(n, bases[i]);
        }
    }
}

/// A prime can come out of the test as prime, whatever the number of
/// rounds.
pub proof fn lemma_prime_accepted(n: int, k: nat)
    requires
        is_prime(n),
    ensures
        accepted(n, k),
{
    if n > 3 {
        let bases = Seq::new(k, |i: int| 2int);
        lemma_small_mod(2, n as nat);
        lemma_prime_is_probable_prime(n, bases);
        assert(passes_all(n, bases));
    }
}

/// One Miller-Rabin round: whether the base `a` satisfies the condition of
/// `n`. Numbers below 3 and even numbers have no condition to satisfy and
/// give `false`.
pub fn miller_rabin_round(n: &BigInteger, a: &BigInteger) -> (r: bool)
    ensures
        r == passes_round(n@, a@),
{
    let one = big_one();
    let two = big_from_u64(2);
    if !big_lt(&two, n) {
        return false;
    }
    if big_is_zero(&big_rem(n, &two)) {
        return false;
    }
    let n_minus_1 = big_sub(n, &one);
    let ghost nm1 = n_minus_1@ as nat;
    let mut d = n_minus_1.clone();
    while big_is_zero(&big_rem(&d, &two))
        invariant
            two@ == 2,
            d@ > 0,
            odd_part(nm1) == odd_part(d@ as nat),
        decreases d@,
    {
        proof {
            lemma2_to64();
        }
        d = big_shr(&d, 1);
    }
    let ghost s = two_exponent(nm1);
    proof {
        lemma_odd_part(nm1);
        // n - 1 is even, so at least one factor 2 was divided out
        assert(s >= 1);
    }
    // The modulus exceeds 1 and the exponent is positive, so this succeeds.
    let mut x = match exponenciacao_modular(a, &d, n) {
        Ok(v) => v,
        Err(_) => {
            return false;
        },
    };
    if big_eq(&x, &one) {
        return true;
    }
    if big_eq(&x, &n_minus_1) {
        proof {
            lemma2_to64();
            assert(mod_pow(a@, (d@ * pow2(0)) as nat, n@) == n@ - 1);
        }
        return true;
    }
    let mut t = d.clone();
    let ghost mut j: nat = 0;
    proof {
        lemma2_to64();
        assert(t@ == d@ * pow2(0));
    }
    while !big_eq(&big_add(&t, &t), &n_minus_1)
        invariant
            n@ > 2,
            n_minus_1@ == n@ - 1,
            nm1 == n@ - 1,
            d@ > 0,
            d@ == odd_part(nm1),
            s == two_exponent(nm1),
            d@ * pow2(s) == nm1,
            j < s,
            t@ == d@ * pow2(j),
            0 <= x@ < n@,
            x@ == mod_pow(a@, t@ as nat, n@),
            mod_pow(a@, d@ as nat, n@) != 1,
            forall|r: nat|
                r <= j ==> #[trigger] mod_pow(a@, (d@ * pow2(r)) as nat, n@) != n@ - 1,
        decreases s - j,
    {
        proof {
            lemma_double_reaches(d@, j, s);
            lemma_pow2_unfold(j + 1);
            assert(2 * (d@ * pow2(j)) == d@ * pow2(j + 1)) by (nonlinear_arith)
                requires
                    pow2(j + 1) == 2 * pow2(j),
            ;
            lemma_mul_nonnegative(d@, pow2(j) as int);
            lemma_pow_adds(a@, t@ as nat, t@ as nat);
            lemma_mul_mod_noop_general(pow(a@, t@ as nat), pow(a@, t@ as nat), n@);
        }
        x = mod_floor(&big_mul(&x, &x), n);
        t = big_add(&t, &t);
        proof {
            j = j + 1;
        }
        if big_eq(&x, &n_minus_1) {
            proof {
                assert(mod_pow(a@, odd_part(nm1) * pow2(j), n@) == n@ - 1);
            }
            return true;
        }
    }
    proof {
        lemma_double_reaches(d@, j, s);
        assert forall|r: nat| r < s implies #[trigger] mod_pow(a@, (d@ * pow2(r)) as nat, n@)
            != n@ - 1 by {}
    }
    false
}

/// The values of a sequence of big integers.
pub open spec fn values(v: Seq<BigInteger>) -> Seq<int> {
    v.map_values(|b: BigInteger| b@)
}

/// The Miller-Rabin test of `n` with the given bases, one round for each, in
/// order, stopping at the first base that fails.
pub fn eh_primo_com_bases(n: &BigInteger, bases: &Vec<BigInteger>) -> (r: bool)
    ensures
        r == probable_prime(n@, values(bases@)),
{
    let two = big_from_u64(2);
    let three = big_from_u64(3);
    if big_lt(n, &two) {
        return false;
    }
    if big_eq(n, &two) || big_eq(n, &three) {
        return true;
    }
    if big_is_zero(&big_rem(n, &two)) {
        return false;
    }
    let mut i: usize = 0;
    while i < bases.len()
        invariant
            i <= bases.len(),
            n@ > 3,
            n@ % 2 == 1,
            forall|j: int| 0 <= j < i ==> passes_round(n@, #[trigger] values(bases@)[j]),
        decreases bases.len() - i,
    {
        if !miller_rabin_round(n, &bases[i]) {
            assert(!passes_round(n@, values(bases@)[i as int]));
            return false;
        }
        i += 1;
    }
    true
}

/// How many rounds the search for primes asks of the test.
pub const GENERATION_ROUNDS: u32 = 20;

/// Probabilistic primality test with `k` Miller-Rabin rounds. 2 and 3 are
/// prime; numbers below 2 and even numbers above 2 are not; for an odd
/// `n > 3` each round draws a base in `[2, n - 2]` at random, and `n` is
/// rejected as soon as a base fails its round. With `k == 0` no round is run
/// and every odd number above 3 is accepted.
///
/// The bases are random, so the contract states what every outcome obeys: an
/// accepted number passed `k` rounds with bases in range, a rejected odd
/// number above 3 has a base in range that fails, and a prime is never
/// rejected.
pub fn eh_primo(n: &BigInteger, k: u32) -> (r: bool)
    ensures
        r ==> accepted(n@, k as nat),
        n@ == 2 || n@ == 3 ==> r,
        n@ < 2 || (n@ > 2 && n@ % 2 == 0) ==> !r,
        !r && n@ > 3 && n@ % 2 == 1 ==> exists|a: int|
            2 <= a <= n@ - 2 && !#[trigger] passes_round(n@, a),
        is_prime(n@) ==> r,
{
    let one = big_one();
    let two = big_from_u64(2);
    let three = big_from_u64(3);
    if big_lt(n, &two) {
        return false;
    }
    if big_eq(n, &two) || big_eq(n, &three) {
        return true;
    }
    if big_is_zero(&big_rem(n, &two)) {
        return false;
    }
    let n_minus_1 = big_sub(n, &one);
    let ghost mut drawn: Seq<int> = Seq::empty();
    let mut i: u32 = 0;
    while i < k
        invariant
            i <= k,
            n@ > 3,
            two@ == 2,
            n_minus_1@ == n@ - 1,
            drawn.len() == i,
            forall|j: int| 0 <= j < drawn.len() ==> 2 <= #[trigger] drawn[j] <= n@ - 2,
            passes_all(n@, drawn),
        decreases k - i,
    {
        let a = big_random_range(&two, &n_minus_1);
        if !miller_rabin_round(n, &a) {
            proof {
                if is_prime(n@) {
                    lemma_small_mod(a@ as nat, n@ as nat);
                    lemma_prime_passes_round(n@, a@);
                }
            }
            return false;
        }
        proof {
            drawn = drawn.push(a@);
        }
        i += 1;
    }
    true
}

/// `v` has exactly `bits` significant bits.
pub open spec fn has_bit_length(v: int, bits: nat) -> bool {
    bits >= 1 && pow2((bits - 1) as nat) <= v < pow2(bits)
}

/// How many candidates the search for a prime of `bits` bits may draw.
pub open spec fn candidate_budget(bits: u32) -> int {
    64 * bits
}

/// Doubling a number and adding 1 gives an odd number with one more bit.
pub proof fn lemma_candidate_bit_length(draw: int, bits: nat)
    requires
        has_bit_length(draw, bits),
    ensures
        has_bit_length(2 * draw + 1, bits + 1),
        (2 * draw + 1) % 2 == 1,
{
    lemma_pow2_unfold(bits);
    lemma_pow2_unfold(bits + 1);
}

/// The odd candidate that a draw stands for: the draw shifted up by one bit,
/// with the bottom bit set. A draw of `bits - 1` bits gives a candidate of
/// `bits` bits.
pub fn odd_candidate(draw: &BigInteger) -> (c: BigInteger)
    ensures
        c@ == 2 * draw@ + 1,
{
    big_add(&big_add(draw, draw), &big_one())
}

/// A random probable prime of exactly `bits` bits, for `bits >= 2`. Each
/// candidate is drawn uniformly among the odd numbers of that length (top and
/// bottom bit set) and put to the test with `GENERATION_ROUNDS` rounds; the
/// first one accepted is returned. Fewer than 2 bits is `InvalidInput`; the
/// search ends with `KeyGenerationFailed` only when `64 * bits` odd
/// candidates of that length were drawn and none of them was prime.
pub fn gerar_primo(bits: u32) -> (r: Result<BigInteger, RsaError>)
    ensures
        r == Err::<BigInteger, RsaError>(RsaError::InvalidInput) <==> bits < 2,
        r matches Err(e) ==> e == RsaError::InvalidInput || e == RsaError::KeyGenerationFailed,
        r matches Ok(p) ==> {
            &&& has_bit_length(p@, bits as nat)
            &&& p@ % 2 == 1
            &&& accepted(p@, GENERATION_ROUNDS as nat)
        },
        bits == 2 ==> (r matches Ok(p) && p@ == 3),
        r == Err::<BigInteger, RsaError>(RsaError::KeyGenerationFailed) ==> exists|
            rejected: Seq<int>,
        |
            {
                &&& #[trigger] rejected.len() == candidate_budget(bits)
                &&& forall|i: int|
                    0 <= i < rejected.len() ==> {
                        &&& has_bit_length(#[trigger] rejected[i], bits as nat)
                        &&& rejected[i] % 2 == 1
                        &&& !is_prime(rejected[i])
                    }
            },
{
    if bits < 2 {
        return Err(RsaError::InvalidInput);
    }
    let one = big_one();
    let low = big_shl(&one, bits - 2);
    let high = big_shl(&one, bits - 1);
    proof {
        lemma_pow2_unfold((bits - 1) as nat);
        lemma_pow2_pos((bits - 2) as nat);
        lemma2_to64();
    }
    let budget: u64 = 64 * (bits as u64);
    let mut tried: u64 = 0;
    let ghost mut rejected: Seq<int> = Seq::empty();
    while tried < budget
        invariant
            bits >= 2,
            low@ == pow2((bits - 2) as nat),
            high@ == pow2((bits - 1) as nat),
            low@ < high@,
            bits == 2 ==> low@ == 1 && high@ == 2,
            tried <= budget,
            budget == candidate_budget(bits),
            bits == 2 ==> tried == 0,
            rejected.len() == tried,
            forall|i: int|
                0 <= i < rejected.len() ==> {
                    &&& has_bit_length(#[trigger] rejected[i], bits as nat)
                    &&& rejected[i] % 2 == 1
                    &&& !is_prime(rejected[i])
                },
        decreases budget - tried,
    {
        let draw = big_random_range(&low, &high);
        let candidate = odd_candidate(&draw);
        proof {
            lemma_candidate_bit_length(draw@, (bits - 1) as nat);
        }
        if eh_primo(&candidate, GENERATION_ROUNDS) {
            return Ok(candidate);
        }
        proof {
            rejected = rejected.push(candidate@);
        }
        tried += 1;
    }
    Err(RsaError::KeyGenerationFailed)
}

} // verus!
