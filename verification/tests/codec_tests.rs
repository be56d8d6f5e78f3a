use num_bigint::BigInt;
use rsa_simulado::big_integer::BigInteger;
use rsa_simulado::codec::{numeros_para_string, string_para_numeros};
use rsa_simulado::error::RsaError;

fn big(v: i64) -> BigInteger {
    BigInteger::from_signed_bytes_be(BigInt::from(v).to_signed_bytes_be())
}

#[test]
fn text_becomes_one_block_per_byte() {
    assert_eq!(string_para_numeros("Ola!"), vec![big(79), big(108), big(97), big(33)]);
    assert_eq!(string_para_numeros(""), Vec::<BigInteger>::new());
}

#[test]
fn non_ascii_text_is_encoded_by_its_utf8_bytes() {
    assert_eq!(string_para_numeros("é"), vec![big(195), big(169)]);
}

#[test]
fn blocks_become_one_character_each() {
    let blocks = vec![big(79), big(108), big(97), big(33)];
    assert_eq!(numeros_para_string(&blocks), Ok(String::from("Ola!")));
    assert_eq!(numeros_para_string(&vec![]), Ok(String::new()));
    assert_eq!(numeros_para_string(&vec![big(0), big(255)]), Ok(String::from("\u{0}\u{ff}")));
}

#[test]
fn block_outside_a_byte_fails_to_decode() {
    assert_eq!(numeros_para_string(&vec![big(79), big(256)]), Err(RsaError::DecodingFailed));
    assert_eq!(numeros_para_string(&vec![big(-1)]), Err(RsaError::DecodingFailed));
    assert_eq!(numeros_para_string(&vec![big(3233), big(65)]), Err(RsaError::DecodingFailed));
}

#[test]
fn ascii_text_round_trips() {
    let text = "The quick brown fox, 0123456789 ~!";
    assert_eq!(numeros_para_string(&string_para_numeros(text)), Ok(String::from(text)));
}

#[test]
fn integer_from_u64_and_byte_conversion() {
    assert_eq!(BigInteger::from_u64(0), big(0));
    assert_eq!(BigInteger::from_u64(65537), big(65537));
    assert_eq!(
        BigInt::from_signed_bytes_be(&BigInteger::from_u64(u64::MAX).bytes),
        BigInt::from(u64::MAX)
    );
    assert_eq!(big(200).to_u8(), Some(200));
    assert_eq!(big(255).to_u8(), Some(255));
    assert_eq!(big(256).to_u8(), None);
    assert_eq!(big(-1).to_u8(), None);
}

#[test]
fn integers_compare_by_value() {
    let padded = BigInteger::from_signed_bytes_be(vec![0, 0, 0, 7]);
    assert_eq!(padded, big(7));
    assert_eq!(BigInteger::from_signed_bytes_be(vec![]), big(0));
    assert_eq!(BigInteger::from_signed_bytes_be(vec![0xff]), big(-1));
    assert_eq!(BigInteger::from_signed_bytes_be(vec![0xff, 0x00]), big(-256));
    assert_ne!(big(7), big(-7));
    assert_eq!(padded.clone(), padded);
}
