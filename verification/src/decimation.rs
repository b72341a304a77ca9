//! The decimation cipher on the English alphabet: the letter at position `p`
//! becomes the letter at position `p * k mod 26`, keeping its case.
use crate::alphabet::{
    lemma_english_alphabet, lemma_english_position, position, ENGLISH_ALPHABET, ENGLISH_LEN,
};
use crate::chars::{
    all_digits, ascii_lower, ascii_upper, digits_of, digits_value, is_uppercase, keep_ascii_digits,
    parse_i32, parsed_i32, to_ascii_lowercase, to_ascii_uppercase, trim, trimmed,
};
use crate::number_theory;
use crate::number_theory::{lemma_trunc_rem, trunc_rem};
use crate::text::{chars_of, decimal, push_char, push_decimal, push_str};
use vstd::arithmetic::div_mod::*;
use vstd::arithmetic::mul::*;
use vstd::prelude::*;

verus! {

pub const ERR_KEY_NO_DIGITS: &'static str = "Ключ должен содержать цифры.";

pub const ERR_KEY_NOT_INTEGER: &'static str = "Ключ должен быть целым числом.";

pub const ERR_NO_INVERSE: &'static str = "Нет обратного элемента.";

/// `i32::rem_euclid`: the least non-negative remainder.
pub assume_specification[<i32>::rem_euclid](x: i32, rhs: i32) -> (r: i32)
    requires
        rhs != 0,
        !(x == i32::MIN && rhs == -1),
    ensures
        r == x % rhs,
;

/// `i32::abs`: the absolute value (which overflows for `i32::MIN`).
pub assume_specification[<i32>::abs](x: i32) -> (r: i32)
    requires
        x != i32::MIN,
    ensures
        r == if x < 0 { -x } else { x as int },
;

/// Greatest common divisor by Euclid's algorithm with Rust's signed
/// remainder; the result is non-negative.
pub fn gcd(a: i32, b: i32) -> (r: i32)
    requires
        !(a == i32::MIN && b == -1),
        !(a == -1 && b == i32::MIN),
        number_theory::gcd(number_theory::abs(a as int) as nat, number_theory::abs(b as int) as nat) != 0x8000_0000,
    ensures
        r == number_theory::gcd(number_theory::abs(a as int) as nat, number_theory::abs(b as int) as nat),
{
    let ghost g = number_theory::gcd(number_theory::abs(a as int) as nat, number_theory::abs(b as int) as nat);
    let mut a = a;
    let mut b = b;
    while b != 0
        invariant
            number_theory::gcd(number_theory::abs(a as int) as nat, number_theory::abs(b as int) as nat) == g,
            g != 0x8000_0000,
            a == i32::MIN ==> b != -1,
            b == i32::MIN ==> a != -1,
        decreases number_theory::abs(b as int),
    {
        proof {
            lemma_trunc_rem(a as int, b as int);
            if b == i32::MIN && a != i32::MIN {
                assert(number_theory::abs(a as int) < number_theory::abs(b as int));
            }
        }
        let temp = b;
        b = a % b;
        a = temp;
    }
    a.abs()
}

/// The key's digits, the step they spell, and the checks on it: there must be
/// a digit, the number must fit in `i32`, and it must be coprime to 26.
pub open spec fn decimation_step(key: Seq<char>) -> Result<int, Seq<char>> {
    let f = digits_of(key);
    if f.len() == 0 {
        Err(ERR_KEY_NO_DIGITS@)
    } else if digits_value(f) > i32::MAX {
        Err(ERR_KEY_NOT_INTEGER@)
    } else if number_theory::gcd(26, digits_value(f)) != 1 {
        Err(gcd_error_message(digits_value(f)))
    } else {
        Ok(digits_value(f) as int)
    }
}

/// The message for a step that is not coprime to 26.
pub open spec fn gcd_error_message(step: nat) -> Seq<char> {
    "НОД("@ + decimal(26) + ", "@ + decimal(step) + ") должен быть равен 1."@
}

/// The position of a character's ASCII lowercase in the English alphabet.
pub open spec fn english_pos(c: char) -> Option<int> {
    let l = ascii_lower(c);
    if 'a' <= l <= 'z' {
        Some(l as int - 97)
    } else {
        None
    }
}

/// The English letter at position `i`.
pub open spec fn english_letter(i: int) -> char {
    (97 + i) as char
}

/// One character under the decimation with factor `k`.
pub open spec fn decimate_char(c: char, k: int) -> char {
    match english_pos(c) {
        Some(p) => {
            let n = english_letter((p * k) % 26);
            if 'A' <= c <= 'Z' {
                ascii_upper(n)
            } else {
                n
            }
        },
        None => c,
    }
}

/// A text under the decimation with factor `k`.
pub open spec fn decimate(text: Seq<char>, k: int) -> Seq<char> {
    text.map_values(|c: char| decimate_char(c, k))
}

/// `x * a ≡ 1 (mod m)` under Rust's remainder.
pub open spec fn inverts(a: int, m: int, x: int) -> bool {
    trunc_rem(a * x, m) == 1
}

/// `a * x` fits in `i32`.
pub open spec fn product_fits_i32(a: int, x: int) -> bool {
    i32::MIN <= a * x <= i32::MAX
}

/// The first `x` in `start..m` with `x * a ≡ 1 (mod m)` under Rust's remainder.
pub open spec fn inverse_search(a: int, m: int, start: int) -> Option<int>
    decreases m - start,
{
    if start >= m {
        None
    } else if inverts(a, m, start) {
        Some(start)
    } else {
        inverse_search(a, m, start + 1)
    }
}

/// The least `x` in `1..m` with `x * a ≡ 1 (mod m)`.
pub open spec fn least_inverse(a: int, m: int) -> Option<int> {
    inverse_search(a, m, 1)
}

/// The last candidate that the search for an inverse tries.
pub open spec fn inverse_search_end(a: int, m: int) -> int {
    match least_inverse(a, m) {
        Some(x) => x,
        None => m - 1,
    }
}

/// The search returns a candidate with the property, and none before it has it.
proof fn lemma_inverse_search(a: int, m: int, start: int)
    requires
        start >= 1,
    ensures
        match inverse_search(a, m, start) {
            Some(x) => start <= x < m && inverts(a, m, x) && forall|y: int|
                start <= y < x ==> !#[trigger] inverts(a, m, y),
            None => forall|y: int| start <= y < m ==> !#[trigger] inverts(a, m, y),
        },
    decreases m - start,
{
    if start < m && !inverts(a, m, start) {
        lemma_inverse_search(a, m, start + 1);
    }
}

/// The inverse of `a` modulo `m` found by trying `1, 2, ..., m - 1`.
pub fn mod_inverse(a: i32, m: i32) -> (r: Option<i32>)
    requires
        forall|x: int|
            1 <= x <= inverse_search_end(a as int, m as int) ==> #[trigger] product_fits_i32(a as int, x),
    ensures
        match (r, least_inverse(a as int, m as int)) {
            (Some(x), Some(y)) => x == y,
            (None, None) => true,
            _ => false,
        },
{
    let mut x: i32 = 1;
    proof {
        lemma_inverse_search(a as int, m as int, 1);
    }
    while x < m
        invariant
            1 <= x,
            inverse_search(a as int, m as int, x as int) == least_inverse(a as int, m as int),
            forall|y: int|
                1 <= y <= inverse_search_end(a as int, m as int) ==> #[trigger] product_fits_i32(
                    a as int,
                    y,
                ),
            match least_inverse(a as int, m as int) {
                Some(s) => x <= s,
                None => true,
            },
        decreases m - x,
    {
        assert(x <= inverse_search_end(a as int, m as int));
        assert(product_fits_i32(a as int, x as int));
        let prod = a * x;
        if prod % m == 1 {
            return Some(x);
        }
        proof {
            lemma_inverse_search(a as int, m as int, x + 1);
        }
        x = x + 1;
    }
    None
}

/// Every letter of the text times the step fits in `i32` (the product is
/// formed in `i32` before it is reduced).
pub open spec fn products_fit(text: Seq<char>, k: int) -> bool {
    forall|i: int|
        0 <= i < text.len() ==> (english_pos(#[trigger] text[i]) matches Some(p) ==> p * k
            <= i32::MAX)
}

/// Reads a key number: trims it and parses it as `i32`.
pub fn parse_key_number(key: &str) -> (res: Result<i32, String>)
    ensures
        match parsed_i32(trimmed(key@)) {
            Some(v) => res == Ok::<i32, String>(v),
            None => res matches Err(e) && e@ == ERR_KEY_NOT_INTEGER@,
        },
        key@.len() > 0 && all_digits(key@) ==> match res {
            Ok(v) => v == digits_value(key@),
            Err(_) => digits_value(key@) > i32::MAX,
        },
{
    proof {
        if key@.len() > 0 && all_digits(key@) {
            crate::chars::lemma_trim_digits(key@);
            crate::chars::lemma_parse_digits(key@);
        }
    }
    let t = trim(key);
    match parse_i32(t) {
        Some(v) => Ok(v),
        None => Err(String::from_str(ERR_KEY_NOT_INTEGER)),
    }
}

/// The step of a decimation key, or the message that rejects the key.
fn decimation_key(key: &str) -> (res: Result<i32, String>)
    ensures
        match decimation_step(key@) {
            Ok(k) => res == Ok::<i32, String>(k as i32),
            Err(msg) => res matches Err(e) && e@ == msg,
        },
{
    let filtered_key = keep_ascii_digits(key);
    if filtered_key.as_str().is_empty() {
        return Err(String::from_str(ERR_KEY_NO_DIGITS));
    }
    proof {
        crate::chars::lemma_digits_of_all_digits(key@);
    }
    let step = parse_key_number(filtered_key.as_str())?;
    proof {
        number_theory::lemma_gcd_commutes(26, step as nat);
        number_theory::lemma_gcd_divides(26, step as nat);
        number_theory::lemma_divisor_le(number_theory::gcd(26, step as nat) as int, 26);
    }
    if gcd(ENGLISH_LEN, step) != 1 {
        let mut msg = String::new();
        push_str(&mut msg, "НОД(");
        push_decimal(&mut msg, 26);
        push_str(&mut msg, ", ");
        push_decimal(&mut msg, step as u64);
        push_str(&mut msg, ") должен быть равен 1.");
        return Err(msg);
    }
    Ok(step)
}

/// One character under the decimation with factor `k`, given the alphabet's letters.
fn decimate_one(c: char, k: i32, letters: &Vec<char>) -> (r: char)
    requires
        letters@ == ENGLISH_ALPHABET@,
        k >= 0,
        english_pos(c) matches Some(p) ==> p * k <= i32::MAX,
    ensures
        r == decimate_char(c, k as int),
{
    let lower = to_ascii_lowercase(c);
    proof {
        lemma_english_position(lower);
        lemma_english_alphabet();
    }
    match position(lower, ENGLISH_ALPHABET) {
        Some(pos) => {
            let is_upper = is_uppercase(c);
            assert(0 <= pos * k <= i32::MAX) by (nonlinear_arith)
                requires
                    pos * k <= i32::MAX,
                    k >= 0,
            ;
            let new_pos = (pos as i32 * k).rem_euclid(ENGLISH_LEN) as usize;
            let mut new_char = letters[new_pos];
            if is_upper {
                new_char = to_ascii_uppercase(new_char);
            }
            new_char
        },
        None => c,
    }
}

/// Applies the decimation with factor `k` to every character of `text`.
fn decimate_text(text: &str, k: i32) -> (res: String)
    requires
        k >= 0,
        products_fit(text@, k as int),
    ensures
        res@ == decimate(text@, k as int),
{
    let letters = chars_of(ENGLISH_ALPHABET);
    let mut result = String::new();
    for c in it: text.chars()
        invariant
            it.seq() == text@,
            letters@ == ENGLISH_ALPHABET@,
            k >= 0,
            products_fit(text@, k as int),
            result@ == decimate(text@.take(it.index() as int), k as int),
    {
        assert(c == text@[it.index() as int]);
        let n = decimate_one(c, k, &letters);
        push_char(&mut result, n);
        assert(decimate(text@.take(it.index() + 1), k as int) =~= decimate(
            text@.take(it.index() as int),
            k as int,
        ).push(n));
    }
    assert(text@.take(text@.len() as int) =~= text@);
    result
}

/// Encrypts English text with the decimation cipher. The key's ASCII digits
/// form the step, which must be coprime to 26; letters keep their case and
/// every other character stays.
pub fn encrypt_decimation(text: &str, key: &str) -> (res: Result<String, String>)
    requires
        encryption_fits(text@, key@),
    ensures
        match decimation_spec(text@, key@, false) {
            Ok(t) => res matches Ok(s) && s@ == t,
            Err(msg) => res matches Err(e) && e@ == msg,
        },
{
    let step = decimation_key(key)?;
    Ok(decimate_text(text, step))
}

/// The factor that undoes the step `k`: its least inverse modulo 26.
pub open spec fn decimation_inverse(k: int) -> int {
    inverse_search_end(k, 26)
}

/// A step coprime to 26 has an inverse modulo 26 in `1..26`.
proof fn lemma_step_has_inverse(k: int)
    requires
        0 <= k <= i32::MAX,
        number_theory::gcd(26, k as nat) == 1,
    ensures
        least_inverse(k, 26) is Some,
        1 <= decimation_inverse(k) < 26,
        (k * decimation_inverse(k)) % 26 == 1,
{
    number_theory::lemma_gcd_commutes(26, k as nat);
    number_theory::lemma_mod_inverse_value(k, 26);
    let v = number_theory::mod_inverse_value(k, 26);
    lemma_small_mod(1, 26);
    if v == 0 {
        assert(k * v == 0);
    }
    lemma_mul_nonnegative(k, v);
    assert(inverts(k, 26, v));
    lemma_inverse_search(k, 26, 1);
    let x = decimation_inverse(k);
    lemma_mul_nonnegative(k, x);
}

/// Decrypts text made with the decimation cipher under the same key: the
/// factor becomes the step's inverse modulo 26.
pub fn decrypt_decimation(text: &str, key: &str) -> (res: Result<String, String>)
    requires
        decryption_fits(key@),
    ensures
        match decimation_spec(text@, key@, true) {
            Ok(t) => res matches Ok(s) && s@ == t,
            Err(msg) => res matches Err(e) && e@ == msg,
        },
{
    let step = decimation_key(key)?;
    proof {
        lemma_step_has_inverse(step as int);
        let x = decimation_inverse(step as int);
        assert forall|y: int| 1 <= y <= x implies #[trigger] product_fits_i32(step as int, y) by {
            assert(0 <= step * y <= step * x) by (nonlinear_arith)
                requires
                    1 <= y <= x,
                    step >= 0,
            ;
        }
    }
    let inverse = match mod_inverse(step, ENGLISH_LEN) {
        Some(v) => v,
        None => {
            return Err(String::from_str(ERR_NO_INVERSE));
        },
    };
    proof {
        assert forall|i: int| 0 <= i < text@.len() implies (english_pos(#[trigger] text@[i]) matches Some(
            p,
        ) ==> p * inverse <= i32::MAX) by {
            if let Some(p) = english_pos(text@[i]) {
                assert(p * inverse <= 25 * 25) by (nonlinear_arith)
                    requires
                        0 <= p <= 25,
                        1 <= inverse <= 25,
                ;
            }
        }
    }
    Ok(decimate_text(text, inverse))
}

/// Decimation by `k` and then by an inverse of `k` modulo 26 restores a character.
proof fn lemma_decimate_char_inverse(c: char, k: int, inv: int)
    requires
        k >= 0,
        inv >= 0,
        (k * inv) % 26 == 1,
    ensures
        decimate_char(decimate_char(c, k), inv) == c,
{
    if let Some(p) = english_pos(c) {
        let q = (p * k) % 26;
        lemma_mul_nonnegative(p, k);
        lemma_mod_bound(p * k, 26);
        let n = english_letter(q);
        let e = decimate_char(c, k);
        // the encrypted character is the letter at q, in c's case
        assert(english_pos(e) == Some(q));
        assert(('A' <= e <= 'Z') == ('A' <= c <= 'Z'));
        // q * inv ≡ p (mod 26)
        lemma_mul_mod_noop_left(p * k, inv, 26);
        lemma_mul_is_associative(p, k, inv);
        lemma_mul_mod_noop_right(p, k * inv, 26);
        lemma_small_mod(p as nat, 26);
        assert((q * inv) % 26 == p);
        assert(decimate_char(e, inv) == c);
    }
}

/// Decimation round trip, both ways: for every key the cipher accepts,
/// decrypting what encryption made of a text gives the text back, and
/// encrypting what decryption made of a text gives the text back.
pub proof fn lemma_decimation_round_trip(text: Seq<char>, key: Seq<char>)
    requires
        decimation_step(key) is Ok,
    ensures
        decimate(decimate(text, decimation_step(key)->Ok_0), decimation_inverse(
            decimation_step(key)->Ok_0,
        )) == text,
        decimate(decimate(text, decimation_inverse(decimation_step(key)->Ok_0)), decimation_step(
            key,
        )->Ok_0) == text,
        decimation_spec(text, key, false) matches Ok(c) && decimation_spec(c, key, true) == Ok::<
            Seq<char>,
            Seq<char>,
        >(text),
        decimation_spec(text, key, true) matches Ok(p) && decimation_spec(p, key, false) == Ok::<
            Seq<char>,
            Seq<char>,
        >(text),
{
    let k = decimation_step(key)->Ok_0;
    number_theory::lemma_gcd_commutes(26, k as nat);
    lemma_step_has_inverse(k);
    let inv = decimation_inverse(k);
    lemma_mul_is_commutative(k, inv);
    assert forall|i: int| 0 <= i < text.len() implies decimate(decimate(text, k), inv)[i]
        == text[i] by {
        lemma_decimate_char_inverse(text[i], k, inv);
    }
    assert(decimate(decimate(text, k), inv) =~= text);
    assert forall|i: int| 0 <= i < text.len() implies decimate(decimate(text, inv), k)[i]
        == text[i] by {
        lemma_decimate_char_inverse(text[i], inv, k);
    }
    assert(decimate(decimate(text, inv), k) =~= text);
}

/// What the decimation cipher gives for a text and a key, in either direction.
pub open spec fn decimation_spec(text: Seq<char>, key: Seq<char>, decrypt: bool) -> Result<
    Seq<char>,
    Seq<char>,
> {
    match decimation_step(key) {
        Ok(k) => Ok(decimate(text, if decrypt { decimation_inverse(k) } else { k })),
        Err(msg) => Err(msg),
    }
}

/// Encryption keeps every product in `i32` for this text and key.
pub open spec fn encryption_fits(text: Seq<char>, key: Seq<char>) -> bool {
    decimation_step(key) matches Ok(k) ==> products_fit(text, k)
}

/// The search for the inverse keeps every product in `i32` for this key.
pub open spec fn decryption_fits(key: Seq<char>) -> bool {
    decimation_step(key) matches Ok(k) ==> k * decimation_inverse(k) <= i32::MAX
}

/// Whether encrypting `text` with `key` keeps every product in `i32`
/// (`encrypt_decimation` requires it).
pub fn decimation_encryption_fits(text: &str, key: &str) -> (b: bool)
    ensures
        b == encryption_fits(text@, key@),
{
    let step = match decimation_key(key) {
        Ok(s) => s,
        Err(_) => {
            return true;
        },
    };
    let chars = chars_of(text);
    proof {
        lemma_english_alphabet();
    }
    for i in 0..chars.len()
        invariant
            chars@ == text@,
            decimation_step(key@) == Ok::<int, Seq<char>>(step as int),
            step >= 0,
            forall|j: int|
                0 <= j < i ==> (english_pos(#[trigger] text@[j]) matches Some(p) ==> p * step
                    <= i32::MAX),
    {
        let lower = to_ascii_lowercase(chars[i]);
        proof {
            lemma_english_position(lower);
        }
        if let Some(pos) = position(lower, ENGLISH_ALPHABET) {
            assert(pos < 26);
            assert(pos * step <= 25 * i32::MAX) by (nonlinear_arith)
                requires
                    pos < 26,
                    0 <= step <= i32::MAX,
            ;
            if (pos as u64) * (step as u64) > i32::MAX as u64 {
                assert(english_pos(text@[i as int]) == Some(pos as int));
                return false;
            }
        }
    }
    true
}

/// Whether the search for the inverse of the key's step keeps every product
/// in `i32` (`decrypt_decimation` requires it).
pub fn decimation_decryption_fits(key: &str) -> (b: bool)
    ensures
        b == decryption_fits(key@),
{
    let step = match decimation_key(key) {
        Ok(s) => s,
        Err(_) => {
            return true;
        },
    };
    proof {
        number_theory::lemma_gcd_commutes(26, step as nat);
        lemma_step_has_inverse(step as int);
        lemma_inverse_search(step as int, 26, 1);
    }
    assert(decimation_step(key@) == Ok::<int, Seq<char>>(step as int));
    let mut x: u64 = 1;
    while x < 26
        invariant
            1 <= x <= 26,
            step >= 0,
            decimation_step(key@) == Ok::<int, Seq<char>>(step as int),
            least_inverse(step as int, 26) matches Some(s) && x <= s,
            inverse_search(step as int, 26, x as int) == least_inverse(step as int, 26),
        decreases 26 - x,
    {
        proof {
            lemma_mul_nonnegative(step as int, x as int);
            assert(step * x <= i32::MAX * 26) by (nonlinear_arith)
                requires
                    0 <= step <= i32::MAX,
                    x <= 26,
            ;
        }
        if (step as u64 * x) % 26 == 1 {
            assert(inverts(step as int, 26, x as int));
            assert(decimation_inverse(step as int) == x);
            return step as u64 * x <= i32::MAX as u64;
        }
        proof {
            lemma_inverse_search(step as int, 26, x + 1);
        }
        x = x + 1;
    }
    true
}

/// An inverse of `k` modulo 26 in `0..26` is unique.
proof fn lemma_inverse_unique(k: int, x: int, y: int)
    requires
        0 <= x < 26,
        0 <= y < 26,
        (k * x) % 26 == 1,
        (k * y) % 26 == 1,
    ensures
        x == y,
{
    // x ≡ x * (k * y) = (x * k) * y ≡ y (mod 26)
    lemma_mul_mod_noop_right(x, k * y, 26);
    lemma_mul_is_associative(x, k, y);
    lemma_mul_is_commutative(x, k);
    lemma_mul_mod_noop_left(x * k, y, 26);
    lemma_small_mod(x as nat, 26);
    lemma_small_mod(y as nat, 26);
}

/// The decimation cipher letter by letter, in terms of the alphabet
/// a..z: a letter of the text at position `p` (by its lowercase) becomes,
/// under encryption, the letter at position `p * k mod 26`, where `k` is the
/// number the key's digits spell, and under decryption the letter at
/// `p * k' mod 26` for the `k'` in `0..26` with `k * k' ≡ 1 (mod 26)`; an
/// uppercase letter stays uppercase. Other characters stay as they are.
pub proof fn lemma_decimation_by_position(
    text: Seq<char>,
    key: Seq<char>,
    i: int,
    p: int,
    k_inverse: int,
)
    requires
        decimation_step(key) is Ok,
        0 <= i < text.len(),
        0 <= p < 26,
        ENGLISH_ALPHABET@[p] == ascii_lower(text[i]),
        0 <= k_inverse < 26,
        (decimation_step(key)->Ok_0 * k_inverse) % 26 == 1,
    ensures
        decimation_step(key)->Ok_0 == digits_value(digits_of(key)),
        decimation_spec(text, key, false) matches Ok(t) && t.len() == text.len() && t[i] == {
            let n = ENGLISH_ALPHABET@[(p * decimation_step(key)->Ok_0) % 26];
            if 'A' <= text[i] <= 'Z' {
                ascii_upper(n)
            } else {
                n
            }
        },
        decimation_spec(text, key, true) matches Ok(t) && t.len() == text.len() && t[i] == {
            let n = ENGLISH_ALPHABET@[(p * k_inverse) % 26];
            if 'A' <= text[i] <= 'Z' {
                ascii_upper(n)
            } else {
                n
            }
        },
{
    let k = decimation_step(key)->Ok_0;
    lemma_english_alphabet();
    let c = text[i];
    assert(ascii_lower(c) as u32 == 97 + p);
    assert(english_pos(c) == Some(p));
    number_theory::lemma_gcd_commutes(26, k as nat);
    lemma_step_has_inverse(k);
    lemma_inverse_unique(k, decimation_inverse(k), k_inverse);
    lemma_mul_nonnegative(p, k);
    lemma_mod_bound(p * k, 26);
    lemma_mul_nonnegative(p, k_inverse);
    lemma_mod_bound(p * k_inverse, 26);
}

/// Characters that are not English letters pass through the cipher unchanged.
pub proof fn lemma_decimation_keeps_other_characters(
    text: Seq<char>,
    key: Seq<char>,
    i: int,
    decrypt: bool,
)
    requires
        decimation_step(key) is Ok,
        0 <= i < text.len(),
        !('a' <= ascii_lower(text[i]) <= 'z'),
    ensures
        decimation_spec(text, key, decrypt) matches Ok(t) && t.len() == text.len() && t[i] == text[i],
{
}

} // verus!
