use num_bigint::BigInt;
use rsa_simulado::big_integer::BigInteger;
use rsa_simulado::codec::{numeros_para_string, string_para_numeros};
use rsa_simulado::error::RsaError;
use rsa_simulado::keys::{
    assemble_keypair, decrypt, decrypt_blocks, encrypt, encrypt_blocks, generate_keypair,
};

fn big(v: i64) -> BigInteger {
    BigInteger::from_signed_bytes_be(BigInt::from(v).to_signed_bytes_be())
}

fn value(x: &BigInteger) -> BigInt {
    BigInt::from_signed_bytes_be(&x.bytes)
}

#[test]
fn keypair_of_61_and_53() {
    let k = assemble_keypair(&big(61), &big(53)).unwrap();
    assert_eq!(k.n, big(3233));
    assert_eq!(k.e, big(65537));
    assert_eq!(k.d, big(2753));
}

#[test]
fn keypair_rejects_equal_or_tiny_factors() {
    assert_eq!(assemble_keypair(&big(61), &big(61)).err(), Some(RsaError::InvalidInput));
    assert_eq!(assemble_keypair(&big(1), &big(1009)).err(), Some(RsaError::InvalidInput));
    assert_eq!(assemble_keypair(&big(1009), &big(0)).err(), Some(RsaError::InvalidInput));
}

#[test]
fn keypair_rejects_modulus_within_a_block() {
    assert_eq!(assemble_keypair(&big(3), &big(5)).err(), Some(RsaError::InvalidInput));
    assert_eq!(assemble_keypair(&big(11), &big(13)).err(), Some(RsaError::InvalidInput));
    assert_eq!(assemble_keypair(&big(5), &big(51)).err(), Some(RsaError::InvalidInput));
    assert!(assemble_keypair(&big(2), &big(128)).is_ok());
}

#[test]
fn keypair_without_inverse() {
    // 917519 - 1 is twice the public exponent.
    assert_eq!(assemble_keypair(&big(917519), &big(7)).err(), Some(RsaError::NoInverseExists));
}

#[test]
fn block_round_trip_with_small_key() {
    let k = assemble_keypair(&big(61), &big(53)).unwrap();
    let c = encrypt(&big(65), &k.e, &k.n).unwrap();
    assert_eq!(c, big(2790));
    assert_eq!(decrypt(&c, &k.d, &k.n), Ok(big(65)));
}

#[test]
fn every_block_round_trips_with_small_key() {
    let k = assemble_keypair(&big(61), &big(53)).unwrap();
    for m in 0..3233i64 {
        let c = encrypt(&big(m), &k.e, &k.n).unwrap();
        assert_eq!(decrypt(&c, &k.d, &k.n), Ok(big(m)), "m = {}", m);
    }
}

#[test]
fn encrypt_rejects_block_outside_modulus() {
    let k = assemble_keypair(&big(61), &big(53)).unwrap();
    assert_eq!(encrypt(&big(3233), &k.e, &k.n), Err(RsaError::InvalidInput));
    assert_eq!(encrypt(&big(-1), &k.e, &k.n), Err(RsaError::InvalidInput));
    assert_eq!(decrypt(&big(5000), &k.d, &k.n), Err(RsaError::InvalidInput));
    assert_eq!(encrypt(&big(0), &big(3), &big(1)), Err(RsaError::InvalidInput));
    assert_eq!(encrypt(&big(2), &big(-3), &big(7)), Err(RsaError::InvalidInput));
}

#[test]
fn largest_byte_fits_a_generated_modulus() {
    let k = generate_keypair(10).unwrap();
    assert!(value(&k.n) > BigInt::from(255));
    let c = encrypt(&big(255), &k.e, &k.n).unwrap();
    assert!(value(&c) < value(&k.n));
    assert_eq!(decrypt(&c, &k.d, &k.n), Ok(big(255)));
}

#[test]
fn key_generation_fails_fast_for_modulus_within_a_block() {
    for bits in [0u32, 1, 2, 4, 8, 9] {
        assert_eq!(generate_keypair(bits).err(), Some(RsaError::InvalidInput), "bits = {}", bits);
    }
}

#[test]
fn generated_keypair_is_consistent() {
    let k = generate_keypair(64).unwrap();
    assert_eq!(k.e, big(65537));
    let bits = value(&k.n).bits();
    assert!(bits == 63 || bits == 64);
    assert!(value(&k.d) > BigInt::from(0));
    for m in [0i64, 1, 2, 79, 255, 123456789] {
        let c = encrypt(&big(m), &k.e, &k.n).unwrap();
        assert_eq!(decrypt(&c, &k.d, &k.n), Ok(big(m)));
    }
}

#[test]
fn blocks_are_transformed_in_order() {
    let k = assemble_keypair(&big(61), &big(53)).unwrap();
    let blocks = vec![big(65), big(0), big(1), big(255)];
    let cipher = encrypt_blocks(&blocks, &k.e, &k.n).unwrap();
    assert_eq!(cipher.len(), 4);
    assert_eq!(cipher[0], big(2790));
    assert_eq!(cipher[1], big(0));
    assert_eq!(cipher[2], big(1));
    assert_eq!(decrypt_blocks(&cipher, &k.d, &k.n), Ok(blocks));
}

#[test]
fn blocks_with_an_invalid_member_are_rejected() {
    let k = assemble_keypair(&big(61), &big(53)).unwrap();
    let blocks = vec![big(65), big(4000)];
    assert_eq!(encrypt_blocks(&blocks, &k.e, &k.n), Err(RsaError::InvalidInput));
    assert_eq!(decrypt_blocks(&blocks, &k.d, &k.n), Err(RsaError::InvalidInput));
    assert_eq!(encrypt_blocks(&vec![], &k.e, &big(1)), Err(RsaError::InvalidInput));
    assert_eq!(encrypt_blocks(&vec![], &k.e, &k.n), Ok(vec![]));
}

#[test]
fn ola_round_trip_with_512_bit_key() {
    let k = generate_keypair(512).unwrap();
    let blocks = string_para_numeros("Ola!");
    assert_eq!(blocks, vec![big(79), big(108), big(97), big(33)]);
    let cipher = encrypt_blocks(&blocks, &k.e, &k.n).unwrap();
    assert_eq!(cipher.len(), 4);
    for c in &cipher {
        assert!(value(c) >= BigInt::from(0) && value(c) < value(&k.n));
    }
    let plain = decrypt_blocks(&cipher, &k.d, &k.n).unwrap();
    assert_eq!(plain, blocks);
    assert_eq!(numeros_para_string(&plain), Ok(String::from("Ola!")));
}
