//! Prime numbers: Euclid's lemma and Fermat's little theorem.

use crate::euclid::{ext_gcd, gcd, lemma_ext_gcd_bezout, lemma_gcd_divides};
use vstd::arithmetic::div_mod::*;
use vstd::arithmetic::mul::*;
use vstd::arithmetic::power::*;
use vstd::prelude::*;
use vstd::set_lib::set_int_range;

verus! {

/// `n` is prime: at least 2, and divisible by nothing strictly between 1 and
/// itself.
pub open spec fn is_prime(n: int) -> bool {
    n >= 2 && forall|d: int| 1 < d < n ==> #[trigger] (n % d) != 0
}

/// A positive divisor of a positive number is at most that number.
pub proof fn lemma_divisor_bound(n: int, d: int)
    requires
        n > 0,
        d > 0,
        n % d == 0,
    ensures
        d <= n,
{
    if d > n {
        lemma_small_mod(n as nat, d as nat);
    }
}

/// A prime shares no factor with a number it does not divide: Bezout
/// coefficients `x`, `y` with `a * x + p * y == 1` exist.
pub proof fn lemma_prime_coprime(p: int, a: int) -> (c: (int, int))
    requires
        is_prime(p),
        a % p != 0,
    ensures
        a * c.0 + p * c.1 == 1,
{
    let r = a % p;
    lemma_mod_bound(a, p);
    let g = gcd(r, p);
    lemma_gcd_divides(r, p);
    lemma_divisor_bound(p, g);
    lemma_divisor_bound(r, g);
    // g divides the prime p and is at most r, which is below p
    assert(g == 1);
    let t = ext_gcd(r, p);
    lemma_ext_gcd_bezout(r, p);
    // a == p * (a / p) + r
    lemma_fundamental_div_mod(a, p);
    let q = a / p;
    assert(a * t.1 + p * (t.2 - q * t.1) == 1) by (nonlinear_arith)
        requires
            r * t.1 + p * t.2 == 1,
            a == p * q + r,
    ;
    (t.1, t.2 - q * t.1)
}

/// Euclid's lemma: a prime that divides a product divides one of the
/// factors.
pub proof fn lemma_euclid(p: int, a: int, b: int)
    requires
        is_prime(p),
        (a * b) % p == 0,
    ensures
        a % p == 0 || b % p == 0,
{
    if a % p != 0 {
        let c = lemma_prime_coprime(p, a);
        lemma_fundamental_div_mod(a * b, p);
        let k = (a * b) / p;
        assert(b == (c.0 * k + c.1 * b) * p) by (nonlinear_arith)
            requires
                a * c.0 + p * c.1 == 1,
                a * b == p * k,
        ;
        lemma_mod_multiples_basic(c.0 * k + c.1 * b, p);
    }
}

/// Modulo a prime, 1 has no square roots but 1 and -1.
pub proof fn lemma_square_root_of_one(p: int, x: int)
    requires
        is_prime(p),
        0 <= x < p,
        (x * x) % p == 1,
    ensures
        x == 1 || x == p - 1,
{
    lemma_small_mod(1, p as nat);
    lemma_small_mod(0, p as nat);
    // 0 is no root, and for x > 0 the prime divides (x - 1) * (x + 1)
    if x > 0 {
        lemma_mod_equivalence(x * x, 1, p);
        assert(x * x - 1 == (x - 1) * (x + 1)) by (nonlinear_arith);
        lemma_euclid(p, x - 1, x + 1);
        lemma_small_mod((x - 1) as nat, p as nat);
        if x + 1 < p {
            lemma_small_mod((x + 1) as nat, p as nat);
        }
    }
}

/// The product `1 * 2 * ... * n`.
pub open spec fn factorial(n: nat) -> int
    decreases n,
{
    if n == 0 {
        1
    } else {
        n * factorial((n - 1) as nat)
    }
}

/// The product of the entries of `s`.
pub open spec fn seq_product(s: Seq<int>) -> int
    decreases s.len(),
{
    if s.len() == 0 {
        1
    } else {
        seq_product(s.drop_last()) * s.last()
    }
}

/// The residues modulo `p` of the first `k` multiples of `a`:
/// `a % p, 2a % p, ..., ka % p`.
pub open spec fn multiples(a: int, p: int, k: nat) -> Seq<int> {
    Seq::new(k, |i: int| (a * (i + 1)) % p)
}

/// An entry can be taken out of a product as a factor.
pub proof fn lemma_product_remove(s: Seq<int>, j: int)
    requires
        0 <= j < s.len(),
    ensures
        seq_product(s) == s[j] * seq_product(s.remove(j)),
    decreases s.len(),
{
    let init = s.drop_last();
    if j == s.len() - 1 {
        lemma_mul_is_commutative(seq_product(init), s.last());
    } else {
        lemma_product_remove(init, j);
        let rest = s.remove(j);
        assert(rest.drop_last() =~= init.remove(j));
        lemma_mul_is_associative(s[j], seq_product(init.remove(j)), s.last());
    }
}

/// A sequence of `n` different numbers from `1..=n` has `n` among them.
pub proof fn lemma_full_range_has_top(s: Seq<int>) -> (j: int)
    requires
        s.len() > 0,
        s.no_duplicates(),
        forall|i: int| 0 <= i < s.len() ==> 1 <= #[trigger] s[i] <= s.len(),
    ensures
        0 <= j < s.len(),
        s[j] == s.len(),
{
    let n = s.len() as int;
    let range = set_int_range(1, n + 1);
    s.unique_seq_to_set();
    vstd::seq_lib::seq_to_set_is_finite(s);
    vstd::set_lib::lemma_int_range(1, n + 1);
    // The entries form a set of `n` numbers inside `1..=n`, hence all of it.
    assert(s.to_set().subset_of(range));
    vstd::set_lib::lemma_subset_equality(s.to_set(), range);
    assert(s.to_set().contains(n));
    choose|j: int| 0 <= j < s.len() && s[j] == n
}

/// The product of `n` different numbers from `1..=n` is `n!`.
pub proof fn lemma_permutation_product(s: Seq<int>)
    requires
        s.no_duplicates(),
        forall|i: int| 0 <= i < s.len() ==> 1 <= #[trigger] s[i] <= s.len(),
    ensures
        seq_product(s) == factorial(s.len()),
    decreases s.len(),
{
    if s.len() > 0 {
        let n = s.len() as int;
        let j = lemma_full_range_has_top(s);
        let rest = s.remove(j);
        lemma_product_remove(s, j);
        // What is left are the entries of `s` other than its top, `s[j]`.
        assert forall|i: int| 0 <= i < rest.len() implies 1 <= #[trigger] rest[i]
            <= rest.len() by {
            let k = if i < j { i } else { i + 1 };
            assert(rest[i] == s[k] && s[k] != s[j]);
        }
        assert(rest.no_duplicates());
        lemma_permutation_product(rest);
    }
}

/// Modulo `p`, the product of the first `k` multiples of `a` is
/// `a^k * k!`.
pub proof fn lemma_multiples_product(a: int, p: int, k: nat)
    requires
        p > 0,
    ensures
        seq_product(multiples(a, p, k)) % p == (pow(a, k) * factorial(k)) % p,
    decreases k,
{
    if k == 0 {
        lemma_pow0(a);
    } else {
        let s = multiples(a, p, k);
        let init = multiples(a, p, (k - 1) as nat);
        assert(s.drop_last() =~= init);
        lemma_multiples_product(a, p, (k - 1) as nat);
        let x = pow(a, (k - 1) as nat) * factorial((k - 1) as nat);
        // seq_product(s) == seq_product(init) * ((a * k) % p), and both
        // factors may be replaced by anything congruent to them
        lemma_mul_mod_noop_general(seq_product(init), a * k, p);
        lemma_mul_mod_noop_general(x, a * k, p);
        assert(x * (a * k) == (a * pow(a, (k - 1) as nat)) * (k * factorial((k - 1) as nat)))
            by (nonlinear_arith)
            requires
                x == pow(a, (k - 1) as nat) * factorial((k - 1) as nat),
        ;
        reveal(pow);
    }
}

/// A prime divides no factorial below it.
pub proof fn lemma_factorial_coprime(p: int, k: nat)
    requires
        is_prime(p),
        k < p,
    ensures
        factorial(k) % p != 0,
    decreases k,
{
    if k == 0 {
        lemma_small_mod(1, p as nat);
    } else {
        lemma_factorial_coprime(p, (k - 1) as nat);
        lemma_small_mod(k, p as nat);
        if factorial(k) % p == 0 {
            lemma_euclid(p, k as int, factorial((k - 1) as nat));
        }
    }
}

/// For a prime `p` that does not divide `a`, the residues of
/// `a, 2a, ..., (p - 1)a` are `p - 1` different numbers from `1..=p - 1`.
pub proof fn lemma_multiples_permute(a: int, p: int)
    requires
        is_prime(p),
        a % p != 0,
    ensures
        multiples(a, p, (p - 1) as nat).no_duplicates(),
        forall|i: int|
            0 <= i < p - 1 ==> 1 <= #[trigger] multiples(a, p, (p - 1) as nat)[i] <= p - 1,
{
    let s = multiples(a, p, (p - 1) as nat);
    assert forall|i: int| 0 <= i < p - 1 implies 1 <= #[trigger] s[i] <= p - 1 by {
        lemma_mod_bound(a * (i + 1), p);
        lemma_small_mod((i + 1) as nat, p as nat);
        if s[i] == 0 {
            lemma_euclid(p, a, i + 1);
        }
    }
    assert forall|i: int, j: int| 0 <= i < s.len() && 0 <= j < s.len() && i != j implies s[i]
        != s[j] by {
        if s[i] == s[j] {
            let (lo, hi) = if i < j { (i, j) } else { (j, i) };
            lemma_mod_equivalence(a * (hi + 1), a * (lo + 1), p);
            assert(a * (hi + 1) - a * (lo + 1) == a * (hi - lo)) by (nonlinear_arith);
            lemma_euclid(p, a, hi - lo);
            lemma_small_mod((hi - lo) as nat, p as nat);
        }
    }
}

/// Fermat's little theorem: for a prime `p` that does not divide `a`,
/// `a^(p - 1)` is congruent to 1 modulo `p`.
pub proof fn lemma_fermat(p: int, a: int)
    requires
        is_prime(p),
        a % p != 0,
    ensures
        pow(a, (p - 1) as nat) % p == 1,
{
    let k = (p - 1) as nat;
    let s = multiples(a, p, k);
    let f = factorial(k);
    let x = pow(a, k);
    lemma_multiples_permute(a, p);
    lemma_permutation_product(s);
    lemma_multiples_product(a, p, k);
    // f % p == (x * f) % p, so p divides (x - 1) * f, and p does not divide f
    lemma_mod_equivalence(x * f, f, p);
    assert(x * f - f == (x - 1) * f) by (nonlinear_arith);
    lemma_factorial_coprime(p, k);
    lemma_euclid(p, x - 1, f);
    lemma_mod_equivalence(x, 1, p);
    lemma_small_mod(1, p as nat);
}

/// For a prime `p`, raising `m` to `1 + k * (p - 1)` gives `m` back modulo
/// `p`, whether or not `p` divides `m`.
pub proof fn lemma_power_cycle(p: int, m: int, k: nat)
    requires
        is_prime(p),
    ensures
        k * (p - 1) >= 0,
        pow(m, (1 + k * (p - 1)) as nat) % p == m % p,
{
    lemma_mul_nonnegative(k as int, p - 1);
    let t = (k * (p - 1)) as nat;
    lemma_pow_adds(m, 1, t);
    lemma_pow1(m);
    lemma_mul_mod_noop_general(m, pow(m, t), p);
    if m % p == 0 {
        assert(0 * (pow(m, t) % p) == 0);
        lemma_small_mod(0, p as nat);
    } else {
        lemma_fermat(p, m);
        let f = pow(m, (p - 1) as nat);
        lemma_pow_multiplies(m, (p - 1) as nat, k);
        lemma_mul_is_commutative(k as int, p - 1);
        lemma_pow_mod_noop(f, k, p);
        lemma1_pow(k);
        lemma_small_mod(1, p as nat);
        assert(m * 1 == m);
    }
}

/// Two different primes that both divide a number divide it together.
pub proof fn lemma_two_primes_divide(p: int, q: int, z: int)
    requires
        is_prime(p),
        is_prime(q),
        p != q,
        z % p == 0,
        z % q == 0,
    ensures
        p * q > 0,
        z % (p * q) == 0,
{
    lemma_mul_strictly_positive(p, q);
    lemma_fundamental_div_mod(z, p);
    let u = z / p;
    assert(p % q != 0) by {
        if q > p {
            lemma_small_mod(p as nat, q as nat);
        }
    }
    lemma_euclid(q, p, u);
    lemma_fundamental_div_mod(u, q);
    let v = u / q;
    assert(z == v * (p * q)) by (nonlinear_arith)
        requires
            z == p * u,
            u == q * v,
    ;
    lemma_mod_multiples_basic(v, p * q);
}

/// The heart of RSA: for different primes `p` and `q` and exponents with
/// `e * d` congruent to 1 modulo `(p - 1) * (q - 1)`, raising to `e * d`
/// modulo `p * q` gives every residue back.
pub proof fn lemma_rsa_exponents(p: int, q: int, e: int, d: int, m: int)
    requires
        is_prime(p),
        is_prime(q),
        p != q,
        e >= 0,
        d >= 0,
        (e * d) % ((p - 1) * (q - 1)) == 1,
    ensures
        p * q > 0,
        e * d >= 0,
        pow(m, (e * d) as nat) % (p * q) == m % (p * q),
{
    let phi = (p - 1) * (q - 1);
    lemma_mul_strictly_positive(p - 1, q - 1);
    lemma_mul_nonnegative(e, d);
    lemma_fundamental_div_mod(e * d, phi);
    let k = (e * d) / phi;
    lemma_div_pos_is_pos(e * d, phi);
    lemma_mul_nonnegative(k, q - 1);
    lemma_mul_nonnegative(k, p - 1);
    let x = pow(m, (e * d) as nat);
    assert(e * d == 1 + (k * (q - 1)) * (p - 1) && e * d == 1 + (k * (p - 1)) * (q - 1))
        by (nonlinear_arith)
        requires
            e * d == phi * k + 1,
            phi == (p - 1) * (q - 1),
    ;
    lemma_power_cycle(p, m, (k * (q - 1)) as nat);
    lemma_power_cycle(q, m, (k * (p - 1)) as nat);
    lemma_mod_equivalence(x, m, p);
    lemma_mod_equivalence(x, m, q);
    lemma_two_primes_divide(p, q, x - m);
    lemma_mod_equivalence(x, m, p * q);
}

} // verus!
