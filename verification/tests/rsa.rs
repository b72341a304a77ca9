use crypto_labs::rsa::{
    build_rsa_params, decrypt_bytes, decrypt_bytes_until_error, encrypt_bytes,
    encrypt_bytes_until_error, extended_gcd, gcd, is_prime, mod_inverse, mod_pow, RsaParams,
    parse_cipher_blocks, RsaDataError,
};

#[test]
fn rsa_params_are_built_correctly() {
    let params = build_rsa_params(251, 241, 17).expect("valid rsa params");
    assert_eq!(params.r, 60491);
    assert_eq!(params.phi, 60000);
    assert_eq!(gcd(params.d, params.phi), 1);
    assert_eq!((params.e * params.d) % params.phi, 1);
}

#[test]
fn rsa_params_reject_non_prime_input() {
    let err = build_rsa_params(256, 241, 17).expect_err("p=256 is not prime");
    assert!(err.contains("простым"));
}

#[test]
fn encrypt_then_decrypt_bytes_round_trip() {
    let params = build_rsa_params(251, 241, 17).expect("valid rsa params");
    let source = vec![0u8, 1, 2, 42, 127, 200, 255];
    let cipher = encrypt_bytes(&source, &params).expect("encrypt");
    let blocks = parse_cipher_blocks(&cipher).expect("read blocks");
    assert_eq!(blocks.len(), source.len());
    let restored = decrypt_bytes(&cipher, &params).expect("decrypt");
    assert_eq!(restored, source);
}

#[test]
fn rsa_public_exponent_is_inverse_of_private() {
    let params = build_rsa_params(251, 241, 17).expect("valid rsa params");
    assert_eq!(params.e, 42353);
    assert_eq!(params.p, 251);
    assert_eq!(params.q, 241);
    assert_eq!(params.d, 17);
    let copy = params.clone();
    assert_eq!((copy.p, copy.q, copy.r, copy.phi, copy.d, copy.e), (251, 241, 60491, 60000, 17, 42353));
}

#[test]
fn rsa_params_errors_in_order() {
    assert_eq!(build_rsa_params(1, 241, 17).unwrap_err(), "p должно быть простым числом (> 1).");
    assert_eq!(build_rsa_params(251, 240, 17).unwrap_err(), "q должно быть простым числом (> 1).");
    assert_eq!(build_rsa_params(251, 251, 17).unwrap_err(), "p и q не должны совпадать.");
    assert_eq!(
        build_rsa_params(4294967311, 4294967357, 17).unwrap_err(),
        "Переполнение при вычислении r = p*q."
    );
    assert_eq!(
        build_rsa_params(3, 5, 7).unwrap_err(),
        "r = p*q должно быть больше 255 (чтобы шифровать любой байт 0..255)."
    );
    assert_eq!(
        build_rsa_params(257, 263, 5).unwrap_err(),
        "r = p*q должно помещаться в 2 байта (<= 65535)."
    );
    assert_eq!(
        build_rsa_params(251, 241, 1).unwrap_err(),
        "Закрытый ключ d должен быть: 1 < d < phi(r)."
    );
    assert_eq!(
        build_rsa_params(251, 241, 60000).unwrap_err(),
        "Закрытый ключ d должен быть: 1 < d < phi(r)."
    );
    assert_eq!(
        build_rsa_params(251, 241, 10).unwrap_err(),
        "d и phi(r) должны быть взаимно простыми (НОД = 1)."
    );
}

#[test]
fn primality_by_trial_division() {
    let primes: Vec<u64> = (0..60).filter(|&n| is_prime(n)).collect();
    assert_eq!(primes, vec![2, 3, 5, 7, 11, 13, 17, 19, 23, 29, 31, 37, 41, 43, 47, 53, 59]);
    assert!(is_prime(65521));
    assert!(!is_prime(65535));
    assert!(!is_prime(u64::MAX));
    assert!(is_prime(4294967311));
}

#[test]
fn modular_arithmetic_values() {
    assert_eq!(gcd(48, 18), 6);
    assert_eq!(gcd(0, 7), 7);
    assert_eq!(mod_pow(4, 13, 497), 445);
    assert_eq!(mod_pow(5, 0, 1), 0);
    assert_eq!(mod_pow(0, 0, 7), 1);
    assert_eq!(mod_inverse(3, 11), Some(4));
    assert_eq!(mod_inverse(4, 8), None);
    assert_eq!(mod_inverse(17, 60000), Some(42353));
}

#[test]
fn rsa_data_errors() {
    let params = build_rsa_params(251, 241, 17).expect("valid rsa params");
    assert_eq!(decrypt_bytes(&[1, 2, 3], &params), Err(RsaDataError::OddCipherLength));
    assert_eq!(
        decrypt_bytes(&[0xff, 0xff], &params),
        Err(RsaDataError::BlockNotBelowModulus { block: 65535, modulus: 60491 })
    );
    assert_eq!(
        RsaDataError::BlockNotBelowModulus { block: 65535, modulus: 60491 }.message(),
        "Зашифрованный блок 65535 должен быть меньше r = 60491."
    );
    assert_eq!(parse_cipher_blocks(&[1]), Err(RsaDataError::OddBlockData));
    assert_eq!(parse_cipher_blocks(&[1, 2, 0, 7]), Ok(vec![258, 7]));
    let mut small = params.clone();
    small.r = 100;
    assert_eq!(encrypt_bytes(&[200], &small), Err(RsaDataError::ByteNotBelowModulus));
    assert!(RsaDataError::ByteNotBelowModulus.is_invalid_input());
    assert!(!RsaDataError::NotAByte.is_invalid_input());
}

#[test]
fn extended_gcd_coefficients() {
    assert_eq!(extended_gcd(240, 46), (2, -9, 47));
    assert_eq!(extended_gcd(-240, 46), (2, 9, 47));
    assert_eq!(extended_gcd(7, 0), (7, 1, 0));
    assert_eq!(extended_gcd(i128::MIN, 1), (1, 0, 1));
    assert_eq!(extended_gcd(i128::MIN, i128::MIN), (i128::MIN, 0, 1));
    assert_eq!(extended_gcd(i128::MIN, -2), (-2, 0, 1));
    assert_eq!(extended_gcd(i128::MIN, 5), (-1, 2, 68056473384187692692674921486353642291));
    assert_eq!(extended_gcd(5, i128::MIN), (-1, 68056473384187692692674921486353642291, 2));
    for (a, b) in [(17i128, 60000i128), (-35, -15), (12, -18), (0, -5), (-1, 1)] {
        let (g, x, y) = extended_gcd(a, b);
        assert_eq!(a * x + b * y, g);
        assert_eq!(g.abs() as u64, gcd(a.unsigned_abs() as u64, b.unsigned_abs() as u64));
    }
}

#[test]
fn bytes_before_an_error_are_kept() {
    let small = RsaParams { p: 0, q: 0, r: 100, phi: 0, d: 7, e: 3 };
    assert_eq!(
        encrypt_bytes_until_error(&[1, 2, 200, 3], &small),
        (vec![0, 1, 0, 8], Some(RsaDataError::ByteNotBelowModulus))
    );
    assert_eq!(encrypt_bytes_until_error(&[1, 2], &small), (vec![0, 1, 0, 8], None));
    let params = build_rsa_params(251, 241, 17).expect("valid rsa params");
    assert_eq!(
        decrypt_bytes_until_error(&[0, 1, 0xFF, 0xFF, 0, 1], &params),
        (vec![1], Some(RsaDataError::BlockNotBelowModulus { block: 65535, modulus: 60491 }))
    );
    assert_eq!(
        decrypt_bytes_until_error(&[0, 1, 0], &params),
        (vec![], Some(RsaDataError::OddCipherLength))
    );
}
