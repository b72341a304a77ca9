use crypto_labs::alphabet::{position, ENGLISH_ALPHABET, RUSSIAN_ALPHABET};
use crypto_labs::decimation::{
    decrypt_decimation, encrypt_decimation, gcd, mod_inverse, parse_key_number,
};

#[test]
fn decimation_encrypts_letters_and_keeps_case() {
    assert_eq!(encrypt_decimation("Hello, World!", "3").unwrap(), "Vmhhq, Oqzhj!");
}

#[test]
fn decimation_round_trip() {
    let text = "The quick brown fox jumps over the lazy dog. 123";
    for key in ["1", "3", "5", "7", "25", "k=17x"] {
        let enc = encrypt_decimation(text, key).unwrap();
        assert_eq!(decrypt_decimation(&enc, key).unwrap(), text);
    }
}

#[test]
fn decimation_key_errors() {
    assert_eq!(encrypt_decimation("abc", "xyz").unwrap_err(), "Ключ должен содержать цифры.");
    assert_eq!(
        encrypt_decimation("abc", "99999999999").unwrap_err(),
        "Ключ должен быть целым числом."
    );
    assert_eq!(encrypt_decimation("abc", "2").unwrap_err(), "НОД(26, 2) должен быть равен 1.");
    assert_eq!(decrypt_decimation("abc", "13").unwrap_err(), "НОД(26, 13) должен быть равен 1.");
}

#[test]
fn decimation_decrypts_with_inverse() {
    // 3 * 9 = 27 ≡ 1 (mod 26)
    assert_eq!(decrypt_decimation("Vmhhq", "3").unwrap(), "Hello");
    assert_eq!(encrypt_decimation("Vmhhq", "9").unwrap(), "Hello");
}

#[test]
fn decimation_helpers() {
    assert_eq!(gcd(26, 3), 1);
    assert_eq!(gcd(-12, 18), 6);
    assert_eq!(gcd(i32::MIN, 3), 1);
    assert_eq!(gcd(0, 0), 0);
    assert_eq!(mod_inverse(3, 26), Some(9));
    assert_eq!(mod_inverse(2, 26), None);
    assert_eq!(parse_key_number(" 42 "), Ok(42));
    assert_eq!(parse_key_number("x"), Err("Ключ должен быть целым числом.".to_string()));
}

#[test]
fn alphabet_positions() {
    assert_eq!(position('a', ENGLISH_ALPHABET), Some(0));
    assert_eq!(position('z', ENGLISH_ALPHABET), Some(25));
    assert_eq!(position('A', ENGLISH_ALPHABET), None);
    assert_eq!(position('ё', RUSSIAN_ALPHABET), Some(6));
    assert_eq!(position('я', RUSSIAN_ALPHABET), Some(32));
}

#[test]
fn decimation_encrypting_a_decryption() {
    let text = "Pack my box with five dozen liquor jugs! 42";
    for key in ["1", "3", "11", "21", "25", "key 19"] {
        let dec = decrypt_decimation(text, key).unwrap();
        assert_eq!(encrypt_decimation(&dec, key).unwrap(), text);
    }
}
