use num_bigint::BigInt;
use rsa_simulado::big_integer::BigInteger;
use rsa_simulado::error::RsaError;
use rsa_simulado::euclid::{algoritmo_euclidiano_estendido, inverso_modular};

fn big(v: i64) -> BigInteger {
    BigInteger::from_signed_bytes_be(BigInt::from(v).to_signed_bytes_be())
}

fn value(x: &BigInteger) -> BigInt {
    BigInt::from_signed_bytes_be(&x.bytes)
}

fn triple(a: i64, b: i64) -> (BigInt, BigInt, BigInt) {
    let (g, x, y) = algoritmo_euclidiano_estendido(&big(a), &big(b)).unwrap();
    (value(&g), value(&x), value(&y))
}

fn expect(g: i64, x: i64, y: i64) -> (BigInt, BigInt, BigInt) {
    (BigInt::from(g), BigInt::from(x), BigInt::from(y))
}

#[test]
fn extended_euclid_exact_triples() {
    assert_eq!(triple(240, 46), expect(2, -9, 47));
    assert_eq!(triple(46, 240), expect(2, 47, -9));
    assert_eq!(triple(17, 3120), expect(1, -367, 2));
    assert_eq!(triple(65537, 3120), expect(1, -367, 7709));
}

#[test]
fn extended_euclid_base_case() {
    assert_eq!(triple(0, 5), expect(5, 0, 1));
    assert_eq!(triple(5, 0), expect(5, 1, 0));
}

#[test]
fn extended_euclid_negative_second_argument() {
    assert_eq!(triple(7, -3), expect(1, 1, 2));
    assert_eq!(triple(12, -18), expect(6, 2, 1));
}

#[test]
fn extended_euclid_bezout_identity() {
    for (a, b) in [(1i64, 1i64), (3, 7), (1071, 462), (99, 78), (1, 0), (35, -14), (270, 192)] {
        let (g, x, y) = triple(a, b);
        assert_eq!(BigInt::from(a) * &x + BigInt::from(b) * &y, g);
        assert!(g > BigInt::from(0));
        assert_eq!(BigInt::from(a) % &g, BigInt::from(0));
        assert_eq!(BigInt::from(b) % &g, BigInt::from(0));
    }
}

#[test]
fn extended_euclid_rejects_degenerate_input() {
    assert_eq!(
        algoritmo_euclidiano_estendido(&big(0), &big(0)).err(),
        Some(RsaError::InvalidInput)
    );
    assert_eq!(
        algoritmo_euclidiano_estendido(&big(-4), &big(6)).err(),
        Some(RsaError::InvalidInput)
    );
}

#[test]
fn extended_euclid_large_operands() {
    let a = BigInt::parse_bytes(b"123456789012345678901234567890123456789", 10).unwrap();
    let b = BigInt::parse_bytes(b"987654321098765432109876543210987654321098765", 10).unwrap();
    let (g, x, y) = algoritmo_euclidiano_estendido(
        &BigInteger::from_signed_bytes_be(a.to_signed_bytes_be()),
        &BigInteger::from_signed_bytes_be(b.to_signed_bytes_be()),
    )
    .unwrap();
    assert_eq!(&a * value(&x) + &b * value(&y), value(&g));
    assert_eq!(&a % value(&g), BigInt::from(0));
    assert_eq!(&b % value(&g), BigInt::from(0));
}

#[test]
fn modular_inverse_exact_values() {
    assert_eq!(inverso_modular(&big(3), &big(11)), Ok(big(4)));
    assert_eq!(inverso_modular(&big(17), &big(3120)), Ok(big(2753)));
    assert_eq!(inverso_modular(&big(65537), &big(3120)), Ok(big(2753)));
    assert_eq!(inverso_modular(&big(1), &big(1)), Ok(big(0)));
}

#[test]
fn modular_inverse_times_argument_is_one() {
    for (e, m) in [(3i64, 7i64), (5, 12), (7, 40), (65537, 3120), (2, 9), (10, 21), (20, 7)] {
        let x = value(&inverso_modular(&big(e), &big(m)).unwrap());
        assert!(x >= BigInt::from(0) && x < BigInt::from(m));
        assert_eq!((BigInt::from(e) * x) % BigInt::from(m), BigInt::from(1));
    }
}

#[test]
fn modular_inverse_without_inverse() {
    assert_eq!(inverso_modular(&big(6), &big(9)), Err(RsaError::NoInverseExists));
    assert_eq!(inverso_modular(&big(4), &big(8)), Err(RsaError::NoInverseExists));
}

#[test]
fn modular_inverse_rejects_non_positive_arguments() {
    assert_eq!(inverso_modular(&big(0), &big(7)), Err(RsaError::InvalidInput));
    assert_eq!(inverso_modular(&big(-3), &big(7)), Err(RsaError::InvalidInput));
    assert_eq!(inverso_modular(&big(3), &big(0)), Err(RsaError::InvalidInput));
    assert_eq!(inverso_modular(&big(3), &big(-7)), Err(RsaError::InvalidInput));
}
