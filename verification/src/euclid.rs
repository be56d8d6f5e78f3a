//! The extended Euclidean algorithm and the modular inverse built on it.

use crate::big_integer::{
    big_eq, big_is_zero, big_lt, big_mul, big_one, big_sub, big_zero, div_mod_floor, mod_floor,
    BigInteger,
};
use crate::error::RsaError;
use vstd::arithmetic::div_mod::*;
use vstd::arithmetic::mul::*;
use vstd::prelude::*;

verus! {

/// The triple `(g, x, y)` that the extended Euclidean recursion yields for
/// `a >= 0`: `(b, 0, 1)` when `a` is 0, and otherwise the triple of
/// `(b mod a, a)` substituted back.
pub open spec fn ext_gcd(a: int, b: int) -> (int, int, int)
    decreases a,
{
    if a <= 0 {
        (b, 0, 1)
    } else {
        let t = ext_gcd(b % a, a);
        (t.0, t.2 - (b / a) * t.1, t.1)
    }
}

/// The greatest common divisor of `a >= 0` and `b`, as the recursion finds it.
pub open spec fn gcd(a: int, b: int) -> int {
    ext_gcd(a, b).0
}

/// The coefficients of the extended Euclidean recursion satisfy Bezout's
/// identity.
pub proof fn lemma_ext_gcd_bezout(a: int, b: int)
    requires
        a >= 0,
    ensures
        a * ext_gcd(a, b).1 + b * ext_gcd(a, b).2 == ext_gcd(a, b).0,
    decreases a,
{
    if a > 0 {
        let r = b % a;
        let q = b / a;
        let t = ext_gcd(r, a);
        lemma_mod_bound(b, a);
        lemma_ext_gcd_bezout(r, a);
        lemma_fundamental_div_mod(b, a);
        assert(a * (t.2 - q * t.1) + b * t.1 == r * t.1 + a * t.2) by (nonlinear_arith)
            requires
                b == a * q + r,
        ;
    } else {
        assert(a * 0 + b * 1 == b) by (nonlinear_arith);
    }
}

/// Unless both arguments are zero, the greatest common divisor is positive
/// and divides both.
pub proof fn lemma_gcd_divides(a: int, b: int)
    requires
        a >= 0,
        a > 0 || b > 0,
    ensures
        gcd(a, b) > 0,
        a % gcd(a, b) == 0,
        b % gcd(a, b) == 0,
    decreases a,
{
    if a > 0 {
        let r = b % a;
        let q = b / a;
        lemma_mod_bound(b, a);
        lemma_gcd_divides(r, a);
        let g = gcd(r, a);
        lemma_fundamental_div_mod(b, a);
        // b == a * q + r, and g divides both a and r
        lemma_fundamental_div_mod(a, g);
        lemma_fundamental_div_mod(r, g);
        let ka = a / g;
        let kr = r / g;
        assert(b == g * (ka * q + kr)) by (nonlinear_arith)
            requires
                b == a * q + r,
                a == g * ka,
                r == g * kr,
        ;
        lemma_mod_multiples_basic(ka * q + kr, g);
    } else {
        lemma_mod_self_0(b);
    }
}

/// Every common divisor of `a` and `b` divides their greatest common divisor.
pub proof fn lemma_gcd_greatest(a: int, b: int, d: int)
    requires
        a >= 0,
        d > 0,
        a % d == 0,
        b % d == 0,
    ensures
        gcd(a, b) % d == 0,
{
    let t = ext_gcd(a, b);
    lemma_ext_gcd_bezout(a, b);
    lemma_fundamental_div_mod(a, d);
    lemma_fundamental_div_mod(b, d);
    let ka = a / d;
    let kb = b / d;
    assert(a * t.1 + b * t.2 == (ka * t.1 + kb * t.2) * d) by (nonlinear_arith)
        requires
            a == d * ka,
            b == d * kb,
    ;
    lemma_mod_multiples_basic(ka * t.1 + kb * t.2, d);
}

/// The inverse of `e` modulo `m` as the extended Euclidean recursion gives
/// it, reduced into `[0, m)`.
pub open spec fn mod_inverse(e: int, m: int) -> int {
    ext_gcd(e, m).1 % m
}

/// For coprime `e` and `m`, `e * mod_inverse(e, m)` is congruent to 1
/// modulo `m`, and the inverse lies in `[0, m)`.
pub proof fn lemma_mod_inverse(e: int, m: int)
    requires
        e >= 0,
        m > 0,
        gcd(e, m) == 1,
    ensures
        0 <= mod_inverse(e, m) < m,
        (e * mod_inverse(e, m)) % m == 1int % m,
{
    let t = ext_gcd(e, m);
    lemma_ext_gcd_bezout(e, m);
    lemma_mod_bound(t.1, m);
    lemma_mul_mod_noop_right(e, t.1, m);
    assert(e * t.1 == m * (-t.2) + 1) by (nonlinear_arith)
        requires
            e * t.1 + m * t.2 == 1,
    ;
    lemma_mod_multiples_vanish(-t.2, 1, m);
}

/// When `e` and `m` share a factor, no `x` makes `e * x` congruent to 1
/// modulo `m`.
pub proof fn lemma_no_inverse(e: int, m: int, x: int)
    requires
        e > 0,
        m > 1,
        gcd(e, m) != 1,
    ensures
        (e * x) % m != 1,
{
    let g = gcd(e, m);
    lemma_gcd_divides(e, m);
    if (e * x) % m == 1 {
        lemma_fundamental_div_mod(e * x, m);
        lemma_fundamental_div_mod(e, g);
        lemma_fundamental_div_mod(m, g);
        let ke = e / g;
        let km = m / g;
        let q = (e * x) / m;
        assert(1 == g * (ke * x - km * q)) by (nonlinear_arith)
            requires
                e * x == m * q + 1,
                e == g * ke,
                m == g * km,
        ;
        assert(false) by (nonlinear_arith)
            requires
                1 == g * (ke * x - km * q),
                g > 1,
        ;
    }
}

/// Two inverses of `e` modulo `m` in `[0, m)` are equal.
pub proof fn lemma_inverse_unique(e: int, m: int, x: int, y: int)
    requires
        m > 0,
        0 <= x < m,
        0 <= y < m,
        (e * x) % m == 1int % m,
        (e * y) % m == 1int % m,
    ensures
        x == y,
{
    // x == x * (e * y) == (x * e) * y == y modulo m
    lemma_mul_mod_noop_right(x, e * y, m);
    lemma_mul_mod_noop_right(x, 1, m);
    lemma_mul_mod_noop_left(e * x, y, m);
    lemma_mul_mod_noop_left(1, y, m);
    assert(x * (e * y) == (e * x) * y) by (nonlinear_arith);
    lemma_small_mod(x as nat, m as nat);
    lemma_small_mod(y as nat, m as nat);
}

/// The triple of `ext_gcd(a, b)`, found without recursion. The loop walks
/// down the pairs `(b mod a, a)` and carries the four coefficients that give
/// the triple of the first pair from the triple of the current one, so that
/// nothing is left to substitute back when the walk ends.
fn ext_gcd_loop(a: &BigInteger, b: &BigInteger) -> (r: (BigInteger, BigInteger, BigInteger))
    requires
        a@ >= 0,
    ensures
        (r.0@, r.1@, r.2@) == ext_gcd(a@, b@),
{
    let mut lo = a.clone();
    let mut hi = b.clone();
    // x0 == xx * x + xy * y and y0 == yx * x + yy * y, where (_, x0, y0) is
    // the triple of (a, b) and (_, x, y) that of (lo, hi)
    let mut xx = big_one();
    let mut xy = big_zero();
    let mut yx = big_zero();
    let mut yy = big_one();
    proof {
        let t = ext_gcd(a@, b@);
        assert(1 * t.1 + 0 * t.2 == t.1 && 0 * t.1 + 1 * t.2 == t.2);
    }
    while !big_is_zero(&lo)
        invariant
            lo@ >= 0,
            ext_gcd(a@, b@) == (
                ext_gcd(lo@, hi@).0,
                xx@ * ext_gcd(lo@, hi@).1 + xy@ * ext_gcd(lo@, hi@).2,
                yx@ * ext_gcd(lo@, hi@).1 + yy@ * ext_gcd(lo@, hi@).2,
            ),
        decreases lo@,
    {
        let (q, rem) = div_mod_floor(&hi, &lo);
        proof {
            let next = ext_gcd(rem@, lo@);
            assert(ext_gcd(lo@, hi@) == (next.0, next.2 - q@ * next.1, next.1));
            lemma_substitute_back(xx@, xy@, q@, next.1, next.2);
            lemma_substitute_back(yx@, yy@, q@, next.1, next.2);
        }
        let new_xx = big_sub(&xy, &big_mul(&q, &xx));
        let new_yx = big_sub(&yy, &big_mul(&q, &yx));
        xy = xx;
        yy = yx;
        xx = new_xx;
        yx = new_yx;
        hi = lo;
        lo = rem;
    }
    proof {
        assert(xx@ * 0 + xy@ * 1 == xy@ && yx@ * 0 + yy@ * 1 == yy@);
    }
    (hi, xy, yy)
}

/// Substituting one step back: a combination of the pair
/// `(y - q * x, x)` is a combination of `(x, y)`.
proof fn lemma_substitute_back(c: int, d: int, q: int, x: int, y: int)
    ensures
        c * (y - q * x) + d * x == (d - q * c) * x + c * y,
{
    assert(c * (y - q * x) + d * x == (d - q * c) * x + c * y) by (nonlinear_arith);
}

/// Extended Euclidean algorithm: for `a >= 0`, not both arguments zero, the
/// triple `(g, x, y)` with `a * x + b * y == g`, where `g` is the greatest
/// common divisor of `a` and `b`. A negative `a`, or `a == b == 0`, is
/// rejected as `InvalidInput`.
pub fn algoritmo_euclidiano_estendido(a: &BigInteger, b: &BigInteger) -> (r: Result<
    (BigInteger, BigInteger, BigInteger),
    RsaError,
>)
    ensures
        r is Err <==> a@ < 0 || (a@ == 0 && b@ == 0),
        r matches Err(e) ==> e == RsaError::InvalidInput,
        r matches Ok(t) ==> {
            &&& (t.0@, t.1@, t.2@) == ext_gcd(a@, b@)
            &&& a@ * t.1@ + b@ * t.2@ == t.0@
            &&& a@ > 0 ==> t.0@ > 0 && a@ % t.0@ == 0 && b@ % t.0@ == 0
            &&& forall|d: int| d > 0 && a@ % d == 0 && b@ % d == 0 ==> #[trigger] (t.0@ % d) == 0
        },
{
    let zero = big_zero();
    if big_lt(a, &zero) || (big_is_zero(a) && big_is_zero(b)) {
        return Err(RsaError::InvalidInput);
    }
    let t = ext_gcd_loop(a, b);
    proof {
        lemma_ext_gcd_bezout(a@, b@);
        if a@ > 0 {
            lemma_gcd_divides(a@, b@);
        }
        assert forall|d: int| d > 0 && a@ % d == 0 && b@ % d == 0 implies #[trigger] (t.0@ % d)
            == 0 by {
            lemma_gcd_greatest(a@, b@, d);
        }
    }
    Ok(t)
}

/// Modular inverse: for `e > 0` and `phi_n > 0` that are coprime, the one
/// `x` in `[0, phi_n)` with `e * x` congruent to 1 modulo `phi_n`. It is the
/// coefficient of `e` from the extended Euclidean algorithm, reduced into
/// that range. A non-positive argument is `InvalidInput`; a common factor is
/// `NoInverseExists`.
pub fn inverso_modular(e: &BigInteger, phi_n: &BigInteger) -> (r: Result<BigInteger, RsaError>)
    ensures
        r is Ok <==> e@ > 0 && phi_n@ > 0 && gcd(e@, phi_n@) == 1,
        r == Err::<BigInteger, RsaError>(RsaError::InvalidInput) <==> e@ <= 0 || phi_n@ <= 0,
        r == Err::<BigInteger, RsaError>(RsaError::NoInverseExists) <==> e@ > 0 && phi_n@ > 0
            && gcd(e@, phi_n@) != 1,
        r matches Ok(x) ==> {
            &&& x@ == mod_inverse(e@, phi_n@)
            &&& 0 <= x@ < phi_n@
            &&& (e@ * x@) % phi_n@ == 1int % phi_n@
        },
{
    let zero = big_zero();
    if !big_lt(&zero, e) || !big_lt(&zero, phi_n) {
        return Err(RsaError::InvalidInput);
    }
    let (g, x, _y) = ext_gcd_loop(e, phi_n);
    if !big_eq(&g, &big_one()) {
        return Err(RsaError::NoInverseExists);
    }
    proof {
        lemma_mod_inverse(e@, phi_n@);
    }
    Ok(mod_floor(&x, phi_n))
}

} // verus!
