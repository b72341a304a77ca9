use crypto_labs::vigenere::{decrypt_vigenere_ru, encrypt_vigenere_ru};

#[test]
fn vigenere_shifts_by_key_letters() {
    assert_eq!(encrypt_vigenere_ru("абв", "б").unwrap(), "бвг");
    assert_eq!(encrypt_vigenere_ru("Я", "б").unwrap(), "А");
    assert_eq!(encrypt_vigenere_ru("ая", "бв").unwrap(), "бб");
}

#[test]
fn vigenere_skips_non_letters_for_the_key() {
    // the key index advances only on Russian letters
    assert_eq!(encrypt_vigenere_ru("а, а!", "бв").unwrap(), "б, в!");
}

#[test]
fn vigenere_round_trip() {
    let text = "Привет, Мир! Ёжик в тумане. abc";
    let key = "Ключ-2024";
    let enc = encrypt_vigenere_ru(text, key).unwrap();
    assert_ne!(enc, text);
    assert_eq!(decrypt_vigenere_ru(&enc, key).unwrap(), text);
}

#[test]
fn vigenere_key_without_russian_letters() {
    assert_eq!(encrypt_vigenere_ru("абв", "key").unwrap_err(), "Ключ должен содержать русские буквы.");
    assert_eq!(decrypt_vigenere_ru("абв", "").unwrap_err(), "Ключ должен содержать русские буквы.");
}

#[test]
fn russian_case_mappings() {
    let alphabet = crypto_labs::alphabet::RUSSIAN_ALPHABET;
    assert_eq!(alphabet.chars().count(), 33);
    for c in alphabet.chars() {
        assert_eq!(c.to_lowercase().next(), Some(c));
        assert!(!c.is_uppercase());
        let upper = c.to_uppercase().next().unwrap();
        assert!(upper.is_uppercase());
        assert_eq!(upper.to_lowercase().next(), Some(c));
        let expected = if c == 'ё' { 'Ё' } else { char::from_u32(c as u32 - 32).unwrap() };
        assert_eq!(upper, expected);
    }
    // no other character has a small Russian letter as the start of its lowercase
    let is_ru_small = |c: char| ('а'..='я').contains(&c) || c == 'ё';
    let is_ru_capital = |c: char| ('А'..='Я').contains(&c) || c == 'Ё';
    for c in (0u32..=0x10FFFF).filter_map(char::from_u32) {
        if !is_ru_small(c) && !is_ru_capital(c) {
            assert!(!is_ru_small(c.to_lowercase().next().unwrap()), "{c:?}");
        }
    }
}

#[test]
fn vigenere_round_trip_on_every_letter() {
    let lower = crypto_labs::alphabet::RUSSIAN_ALPHABET;
    let upper: String = lower.chars().flat_map(|c| c.to_uppercase()).collect();
    let text = format!("{lower} {upper}");
    for key in ["а", "я", "Ёж", "шифр", "ЪЫЬ"] {
        let enc = encrypt_vigenere_ru(&text, key).unwrap();
        assert_eq!(enc.chars().count(), text.chars().count());
        assert_eq!(decrypt_vigenere_ru(&enc, key).unwrap(), text);
    }
    // the key "а" shifts by nothing
    assert_eq!(encrypt_vigenere_ru(&text, "а").unwrap(), text);
}

#[test]
fn vigenere_encrypting_a_decryption() {
    let text = "Съешь же ещё этих мягких французских булок, да выпей чаю.";
    for key in ["а", "ключ", "Ёлка"] {
        let dec = decrypt_vigenere_ru(text, key).unwrap();
        assert_eq!(encrypt_vigenere_ru(&dec, key).unwrap(), text);
    }
}
