use num_bigint::BigInt;
use rsa_simulado::big_integer::BigInteger;
use rsa_simulado::error::RsaError;
use rsa_simulado::modexp::exponenciacao_modular;
use rsa_simulado::primality::{
    eh_primo, eh_primo_com_bases, gerar_primo, miller_rabin_round, odd_candidate,
};

fn big(v: i64) -> BigInteger {
    BigInteger::from_signed_bytes_be(BigInt::from(v).to_signed_bytes_be())
}

fn value(x: &BigInteger) -> BigInt {
    BigInt::from_signed_bytes_be(&x.bytes)
}

#[test]
fn known_primes_are_accepted() {
    for p in [2i64, 3, 5, 97, 7919] {
        for _ in 0..20 {
            assert!(eh_primo(&big(p), 10), "{} is prime", p);
        }
    }
}

#[test]
fn known_composites_are_rejected() {
    for c in [4i64, 9, 100, 561] {
        assert!(!eh_primo(&big(c), 10), "{} is composite", c);
    }
}

#[test]
fn numbers_below_two_are_not_prime() {
    for v in [-7i64, -1, 0, 1] {
        assert!(!eh_primo(&big(v), 10));
    }
}

#[test]
fn small_numbers_agree_with_trial_division() {
    for n in 2i64..400 {
        let prime = (2..n).all(|d| n % d != 0);
        assert_eq!(eh_primo(&big(n), 20), prime, "n = {}", n);
    }
}

#[test]
fn large_prime_and_composite() {
    // 2^127 - 1 is prime; 2^128 + 1 is not.
    let mersenne: BigInt = (BigInt::from(1u32) << 127u32) - BigInt::from(1u32);
    let fermat: BigInt = (BigInt::from(1u32) << 128u32) + BigInt::from(1u32);
    assert!(eh_primo(&BigInteger::from_signed_bytes_be(mersenne.to_signed_bytes_be()), 20));
    assert!(!eh_primo(&BigInteger::from_signed_bytes_be(fermat.to_signed_bytes_be()), 20));
}

#[test]
fn single_round_exact_verdicts() {
    assert!(!miller_rabin_round(&big(561), &big(2)));
    assert!(miller_rabin_round(&big(561), &big(50)));
    assert!(miller_rabin_round(&big(2047), &big(2)));
    assert!(!miller_rabin_round(&big(2047), &big(3)));
    assert!(miller_rabin_round(&big(7919), &big(2)));
    assert!(miller_rabin_round(&big(97), &big(5)));
}

#[test]
fn single_round_has_no_verdict_for_even_or_tiny_numbers() {
    assert!(!miller_rabin_round(&big(2), &big(1)));
    assert!(!miller_rabin_round(&big(10), &big(3)));
    assert!(!miller_rabin_round(&big(1), &big(1)));
}

#[test]
fn fixed_bases_exact_verdicts() {
    assert!(eh_primo_com_bases(&big(2047), &vec![big(2)]));
    assert!(!eh_primo_com_bases(&big(2047), &vec![big(2), big(3)]));
    assert!(eh_primo_com_bases(&big(7919), &vec![big(2), big(3), big(5), big(7)]));
    assert!(!eh_primo_com_bases(&big(561), &vec![big(50), big(2)]));
    assert!(eh_primo_com_bases(&big(2), &vec![]));
    assert!(eh_primo_com_bases(&big(3), &vec![big(0)]));
    assert!(!eh_primo_com_bases(&big(4), &vec![]));
    assert!(!eh_primo_com_bases(&big(1), &vec![]));
    assert!(eh_primo_com_bases(&big(9), &vec![]));
}

#[test]
fn generated_prime_has_requested_bit_length() {
    for bits in [2u32, 3, 4, 8, 16, 31, 64, 128] {
        let p = value(&gerar_primo(bits).unwrap());
        assert_eq!(p.bits(), bits as u64, "bits = {}", bits);
        assert!(p.bit(0));
    }
}

#[test]
fn generated_prime_passes_more_rounds() {
    for bits in [8u32, 24, 96] {
        let p = gerar_primo(bits).unwrap();
        assert!(eh_primo(&p, 40));
    }
}

#[test]
fn generated_small_primes_are_prime() {
    for _ in 0..50 {
        let p = value(&gerar_primo(10).unwrap());
        let n: i64 = p.to_string().parse().unwrap();
        assert!((512..1024).contains(&n));
        assert!((2..n).all(|d| n % d != 0), "{} is not prime", n);
    }
}

#[test]
fn two_bit_prime_is_three() {
    assert_eq!(gerar_primo(2), Ok(big(3)));
}

#[test]
fn prime_generation_rejects_fewer_than_two_bits() {
    assert_eq!(gerar_primo(0), Err(RsaError::InvalidInput));
    assert_eq!(gerar_primo(1), Err(RsaError::InvalidInput));
}

#[test]
fn generated_primes_vary() {
    let first = gerar_primo(64).unwrap();
    let differs = (0..8).any(|_| gerar_primo(64).unwrap() != first);
    assert!(differs);
}

#[test]
fn candidate_of_a_draw_is_odd_and_one_bit_longer() {
    assert_eq!(odd_candidate(&big(1)), big(3));
    assert_eq!(odd_candidate(&big(4)), big(9));
    assert_eq!(odd_candidate(&big(7)), big(15));
    let draw: BigInt = (BigInt::from(1u32) << 254u32) + BigInt::from(12345u32);
    let c = value(&odd_candidate(&BigInteger::from_signed_bytes_be(draw.to_signed_bytes_be())));
    assert_eq!(c.bits(), 256);
    assert!(c.bit(0));
}

#[test]
fn power_below_a_prime_is_one() {
    for p in [3i64, 5, 97, 7919, 65537] {
        for a in [1i64, 2, 3, 10, 96, 12345] {
            if a % p != 0 {
                assert_eq!(exponenciacao_modular(&big(a), &big(p - 1), &big(p)), Ok(big(1)));
            }
        }
    }
}

#[test]
fn primes_pass_every_base_in_range() {
    for p in [5i64, 7, 13, 97, 257] {
        for a in 2..=(p - 2) {
            assert!(miller_rabin_round(&big(p), &big(a)), "p = {}, a = {}", p, a);
        }
    }
}
