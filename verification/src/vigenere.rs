//! The Vigenère cipher on the Russian alphabet: the `n`-th letter of the text
//! is shifted by the position of the `n`-th key letter (cyclically), keeping
//! its case; every other character stays.
use crate::alphabet::{first_index, lemma_first_index, position, RUSSIAN_ALPHABET, RUSSIAN_LEN};
use crate::chars::{
    is_ru_capital, is_ru_small, is_uppercase, ru_capital_of, ru_small_of, to_lowercase_first,
    to_uppercase_first,
};
use crate::text::{chars_of, push_char, string_of};
use vstd::prelude::*;

verus! {

pub const ERR_KEY_NO_RUSSIAN: &'static str = "Ключ должен содержать русские буквы.";

/// The position in the Russian alphabet of a character's small letter, if it
/// is a Russian letter.
pub open spec fn ru_pos(c: char) -> Option<nat> {
    first_index(RUSSIAN_ALPHABET@, ru_small_of(c))
}

/// The character is a Russian letter of either case.
pub open spec fn is_ru_letter(c: char) -> bool {
    ru_pos(c) is Some
}

/// The Russian letters of a key, in order.
pub open spec fn key_letters(key: Seq<char>) -> Seq<char> {
    key.filter(|c: char| is_ru_letter(c))
}

/// The shifts that the key's letters give.
pub open spec fn key_shifts(key: Seq<char>) -> Seq<int> {
    key_letters(key).map_values(|c: char| ru_pos(c)->0 as int)
}

/// How many Russian letters come before position `i` of the text.
pub open spec fn letters_before(text: Seq<char>, i: int) -> nat {
    text.take(i).filter(|c: char| is_ru_letter(c)).len()
}

/// One character shifted by `shift` (backwards when decrypting).
pub open spec fn shift_char(c: char, shift: int, decrypt: bool) -> char {
    match ru_pos(c) {
        Some(p) => {
            let np = if decrypt {
                (p - shift) % 33
            } else {
                (p + shift) % 33
            };
            let n = RUSSIAN_ALPHABET@[np];
            if is_ru_capital(c) {
                ru_capital_of(n)
            } else {
                n
            }
        },
        None => c,
    }
}

/// The text under the Vigenère cipher with the given key shifts.
pub open spec fn vigenere(text: Seq<char>, shifts: Seq<int>, decrypt: bool) -> Seq<char> {
    Seq::new(
        text.len(),
        |i: int| shift_char(text[i], shifts[(letters_before(text, i) % shifts.len()) as int], decrypt),
    )
}

/// What the cipher gives for a text and a key: an error when the key has no
/// Russian letter.
pub open spec fn vigenere_spec(text: Seq<char>, key: Seq<char>, decrypt: bool) -> Result<
    Seq<char>,
    Seq<char>,
> {
    if key_letters(key).len() == 0 {
        Err(ERR_KEY_NO_RUSSIAN@)
    } else {
        Ok(vigenere(text, key_shifts(key), decrypt))
    }
}

/// The code point of the Russian letter at position `i`: `а..е` are
/// U+0430..U+0435, `ё` is U+0451, `ж..я` are U+0436..U+044F.
spec fn ru_code(i: int) -> int {
    if i < 6 {
        0x430 + i
    } else if i == 6 {
        0x451
    } else {
        0x42F + i
    }
}

/// The Russian alphabet is the 33 small Russian letters, each once.
pub proof fn lemma_russian_alphabet()
    ensures
        RUSSIAN_ALPHABET@.len() == 33,
        forall|i: int| 0 <= i < 33 ==> is_ru_small(#[trigger] RUSSIAN_ALPHABET@[i]),
        forall|i: int, j: int|
            0 <= i < 33 && 0 <= j < 33 && i != j ==> #[trigger] RUSSIAN_ALPHABET@[i]
                != #[trigger] RUSSIAN_ALPHABET@[j],
        forall|c: char| #[trigger] is_ru_small(c) ==> first_index(RUSSIAN_ALPHABET@, c) is Some,
        forall|c: char| !#[trigger] is_ru_small(c) ==> first_index(RUSSIAN_ALPHABET@, c) is None,
{
    reveal_strlit("абвгдеёжзийклмнопрстуфхцчшщъыьэюя");
    let a = RUSSIAN_ALPHABET@;
    assert(a =~= seq![
        'а', 'б', 'в', 'г', 'д', 'е', 'ё', 'ж', 'з', 'и', 'й', 'к', 'л', 'м', 'н', 'о', 'п',
        'р', 'с', 'т', 'у', 'ф', 'х', 'ц', 'ч', 'ш', 'щ', 'ъ', 'ы', 'ь', 'э', 'ю', 'я',
    ]);
    assert forall|i: int| 0 <= i < 33 implies #[trigger] a[i] as u32 == ru_code(i) by {}
    assert forall|c: char| #[trigger] is_ru_small(c) implies first_index(a, c) is Some by {
        let u = c as u32;
        let i: int = if u == 0x451 {
            6
        } else if u <= 0x435 {
            u - 0x430
        } else {
            u - 0x42F
        };
        assert(a[i] as u32 == u);
        vstd::utf8::char_u32_cast(a[i], u);
        vstd::utf8::char_u32_cast(c, u);
        lemma_first_index(a, c);
    }
    assert forall|c: char| !#[trigger] is_ru_small(c) implies first_index(a, c) is None by {
        lemma_first_index(a, c);
    }
}

/// The case mappings on the Russian letters: a character is a Russian letter
/// exactly when it is a capital or a small letter, and taking the small
/// letter and the capital undo each other.
pub proof fn lemma_russian_cases(c: char)
    ensures
        is_ru_letter(c) <==> (is_ru_capital(c) || is_ru_small(c)),
        is_ru_capital(c) ==> is_ru_small(ru_small_of(c)) && ru_capital_of(ru_small_of(c)) == c,
        is_ru_small(c) ==> ru_small_of(c) == c && !is_ru_capital(c),
        is_ru_small(c) ==> is_ru_capital(ru_capital_of(c)) && ru_small_of(ru_capital_of(c)) == c,
{
    lemma_russian_alphabet();
    let u = c as u32;
    if 'А' <= c && c <= 'Я' {
        let l = ru_small_of(c);
        assert(l == ((u + 32) as u32) as char);
        vstd::utf8::char_u32_cast(l, l as u32);
        assert(l as u32 == u + 32);
        assert(ru_capital_of(l) == ((u + 32 - 32) as u32) as char);
        vstd::utf8::char_u32_cast(c, u);
    }
    if 'а' <= c && c <= 'я' {
        let h = ru_capital_of(c);
        assert(h == ((u - 32) as u32) as char);
        assert(h as u32 == u - 32);
        vstd::utf8::char_u32_cast(c, u);
    }
    assert(is_ru_small(ru_small_of(c)) <==> (is_ru_capital(c) || is_ru_small(c)));
}

/// The Russian letters of a key.
fn clean_key(key: &str) -> (letters: Vec<char>)
    ensures
        letters@ == key_letters(key@),
{
    let mut letters: Vec<char> = Vec::new();
    for c in it: key.chars()
        invariant
            it.seq() == key@,
            letters@ == key_letters(key@.take(it.index() as int)),
    {
        proof {
            let t = key@.take(it.index() + 1);
            assert(t.drop_last() =~= key@.take(it.index() as int));
            reveal_with_fuel(Seq::filter, 1);
        }
        let lower = to_lowercase_first(c);
        proof {
            lemma_russian_alphabet();
            lemma_russian_cases(c);
        }
        if position(lower, RUSSIAN_ALPHABET).is_some() {
            letters.push(c);
        }
    }
    proof {
        assert(key@.take(key@.len() as int) =~= key@);
    }
    letters
}

/// Shifts one character by the key letter `key_char`.
fn shift_one(c: char, key_char: char, letters: &Vec<char>, decrypt: bool) -> (r: (char, bool))
    requires
        letters@ == RUSSIAN_ALPHABET@,
        is_ru_letter(key_char),
    ensures
        r.0 == shift_char(c, ru_pos(key_char)->0 as int, decrypt),
        r.1 == is_ru_letter(c),
{
    proof {
        lemma_russian_alphabet();
        lemma_russian_cases(c);
        lemma_russian_cases(key_char);
        lemma_first_index(RUSSIAN_ALPHABET@, ru_small_of(c));
        lemma_first_index(RUSSIAN_ALPHABET@, ru_small_of(key_char));
    }
    let lower_c = to_lowercase_first(c);
    match position(lower_c, RUSSIAN_ALPHABET) {
        Some(pos) => {
            let is_upper = is_uppercase(c);
            let key_lower = to_lowercase_first(key_char);
            let key_pos = match position(key_lower, RUSSIAN_ALPHABET) {
                Some(k) => k,
                None => {
                    assert(false);
                    0
                },
            };
            let new_pos = if decrypt {
                (pos as i32 - key_pos as i32).rem_euclid(RUSSIAN_LEN) as usize
            } else {
                (pos as i32 + key_pos as i32).rem_euclid(RUSSIAN_LEN) as usize
            };
            let mut new_char = letters[new_pos];
            assert(is_ru_small(new_char));
            if is_upper {
                new_char = to_uppercase_first(new_char);
            }
            (new_char, true)
        },
        None => (c, false),
    }
}

/// The Vigenère cipher in either direction.
fn vigenere_apply(text: &str, key: &str, decrypt: bool) -> (res: Result<String, String>)
    ensures
        match vigenere_spec(text@, key@, decrypt) {
            Ok(t) => res matches Ok(s) && s@ == t,
            Err(msg) => res matches Err(e) && e@ == msg,
        },
{
    let key_chars = clean_key(key);
    let key_len = key_chars.len();
    if key_len == 0 {
        return Err(String::from_str(ERR_KEY_NO_RUSSIAN));
    }
    let ghost shifts = key_shifts(key@);
    let letters = chars_of(RUSSIAN_ALPHABET);
    let chars = chars_of(text);
    let mut out: Vec<char> = Vec::new();
    let mut key_index: usize = 0;
    for i in 0..chars.len()
        invariant
            chars@ == text@,
            letters@ == RUSSIAN_ALPHABET@,
            key_chars@ == key_letters(key@),
            key_len == key_chars@.len(),
            key_len > 0,
            shifts == key_shifts(key@),
            key_index == letters_before(text@, i as int),
            key_index <= i,
            out@.len() == i,
            forall|j: int| 0 <= j < i ==> out@[j] == vigenere(text@, shifts, decrypt)[j],
    {
        let c = chars[i];
        let key_char = key_chars[key_index % key_len];
        proof {
            key@.lemma_filter_pred(|c: char| is_ru_letter(c), (key_index % key_len) as int);
        }
        let (n, is_letter) = shift_one(c, key_char, &letters, decrypt);
        out.push(n);
        proof {
            let t = text@.take(i + 1);
            assert(t =~= text@.take(i as int).push(c));
            text@.take(i as int).lemma_filter_push(c, |c: char| is_ru_letter(c));
        }
        if is_letter {
            key_index = key_index + 1;
        }
    }
    proof {
        assert(out@ =~= vigenere(text@, shifts, decrypt));
    }
    Ok(string_of(&out))
}

/// Encrypts Russian text with the Vigenère cipher. The key's Russian letters
/// (of either case) give the shifts; each Russian letter of the text uses the
/// next key letter in turn and keeps its case.
pub fn encrypt_vigenere_ru(text: &str, key: &str) -> (res: Result<String, String>)
    ensures
        match vigenere_spec(text@, key@, false) {
            Ok(t) => res matches Ok(s) && s@ == t,
            Err(msg) => res matches Err(e) && e@ == msg,
        },
{
    vigenere_apply(text, key, false)
}

/// Decrypts text made with the Vigenère cipher under the same key.
pub fn decrypt_vigenere_ru(text: &str, key: &str) -> (res: Result<String, String>)
    ensures
        match vigenere_spec(text@, key@, true) {
            Ok(t) => res matches Ok(s) && s@ == t,
            Err(msg) => res matches Err(e) && e@ == msg,
        },
{
    vigenere_apply(text, key, true)
}

/// Shifting a character one way and then back by the same amount restores
/// it, and it stays a Russian letter exactly when it was one.
proof fn lemma_shift_char_inverse(c: char, s: int, decrypt: bool)
    requires
        0 <= s < 33,
    ensures
        shift_char(shift_char(c, s, decrypt), s, !decrypt) == c,
        is_ru_letter(shift_char(c, s, decrypt)) == is_ru_letter(c),
{
    lemma_russian_alphabet();
    lemma_russian_cases(c);
    lemma_first_index(RUSSIAN_ALPHABET@, ru_small_of(c));
    if let Some(p) = ru_pos(c) {
        let np = if decrypt {
            (p - s) % 33
        } else {
            (p + s) % 33
        };
        let n = RUSSIAN_ALPHABET@[np];
        assert(is_ru_small(n));
        lemma_russian_cases(n);
        let e = shift_char(c, s, decrypt);
        lemma_russian_cases(e);
        assert(ru_small_of(e) == n);
        assert(is_ru_capital(e) == is_ru_capital(c));
        lemma_first_index(RUSSIAN_ALPHABET@, n);
        assert(first_index(RUSSIAN_ALPHABET@, n) == Some(np as nat)) by {
            match first_index(RUSSIAN_ALPHABET@, n) {
                Some(j) => {
                    assert(RUSSIAN_ALPHABET@[j as int] == RUSSIAN_ALPHABET@[np]);
                },
                None => {},
            }
        }
        if decrypt {
            assert((np + s) % 33 == p);
        } else {
            assert((np - s) % 33 == p);
        }
        assert(RUSSIAN_ALPHABET@[p as int] == ru_small_of(c));
    }
}

/// The key letters line up the same way in two texts whose Russian letters
/// stand at the same positions.
proof fn lemma_letters_before_preserved(t: Seq<char>, u: Seq<char>, i: int)
    requires
        t.len() == u.len(),
        0 <= i <= t.len(),
        forall|j: int| 0 <= j < t.len() ==> is_ru_letter(#[trigger] u[j]) == is_ru_letter(t[j]),
    ensures
        letters_before(u, i) == letters_before(t, i),
    decreases i,
{
    if i > 0 {
        lemma_letters_before_preserved(t, u, i - 1);
        assert(t.take(i) =~= t.take(i - 1).push(t[i - 1]));
        assert(u.take(i) =~= u.take(i - 1).push(u[i - 1]));
        t.take(i - 1).lemma_filter_push(t[i - 1], |c: char| is_ru_letter(c));
        u.take(i - 1).lemma_filter_push(u[i - 1], |c: char| is_ru_letter(c));
    }
}

/// Applying the cipher one way and then the other with the same shifts
/// gives the text back.
proof fn lemma_vigenere_inverse(text: Seq<char>, shifts: Seq<int>, decrypt: bool)
    requires
        shifts.len() > 0,
        forall|j: int| 0 <= j < shifts.len() ==> 0 <= #[trigger] shifts[j] < 33,
    ensures
        vigenere(vigenere(text, shifts, decrypt), shifts, !decrypt) == text,
{
    let once = vigenere(text, shifts, decrypt);
    let back = vigenere(once, shifts, !decrypt);
    assert forall|j: int| 0 <= j < text.len() implies is_ru_letter(#[trigger] once[j])
        == is_ru_letter(text[j]) by {
        let s = shifts[(letters_before(text, j) % shifts.len()) as int];
        lemma_shift_char_inverse(text[j], s, decrypt);
    }
    assert forall|j: int| 0 <= j < text.len() implies #[trigger] back[j] == text[j] by {
        lemma_letters_before_preserved(text, once, j);
        let s = shifts[(letters_before(text, j) % shifts.len()) as int];
        lemma_shift_char_inverse(text[j], s, decrypt);
    }
    assert(back =~= text);
}

/// Vigenère round trip, both ways: for a key with a Russian letter,
/// decrypting what encryption made of a text gives the text back, and
/// encrypting what decryption made of a text gives the text back.
pub proof fn lemma_vigenere_round_trip(text: Seq<char>, key: Seq<char>)
    requires
        key_letters(key).len() > 0,
    ensures
        vigenere(vigenere(text, key_shifts(key), false), key_shifts(key), true) == text,
        vigenere(vigenere(text, key_shifts(key), true), key_shifts(key), false) == text,
        vigenere_spec(text, key, false) matches Ok(c) && vigenere_spec(c, key, true) == Ok::<
            Seq<char>,
            Seq<char>,
        >(text),
        vigenere_spec(text, key, true) matches Ok(p) && vigenere_spec(p, key, false) == Ok::<
            Seq<char>,
            Seq<char>,
        >(text),
{
    let shifts = key_shifts(key);
    lemma_russian_alphabet();
    assert forall|j: int| 0 <= j < shifts.len() implies 0 <= #[trigger] shifts[j] < 33 by {
        key.lemma_filter_pred(|c: char| is_ru_letter(c), j);
        lemma_first_index(RUSSIAN_ALPHABET@, ru_small_of(key_letters(key)[j]));
    }
    lemma_vigenere_inverse(text, shifts, false);
    lemma_vigenere_inverse(text, shifts, true);
}

/// The alphabet position of a character's small letter is the unique index
/// that holds it.
proof fn lemma_ru_pos_is_index(c: char, p: int)
    requires
        0 <= p < 33,
        RUSSIAN_ALPHABET@[p] == ru_small_of(c),
    ensures
        ru_pos(c) == Some(p as nat),
{
    lemma_russian_alphabet();
    lemma_first_index(RUSSIAN_ALPHABET@, ru_small_of(c));
    match ru_pos(c) {
        Some(j) => {
            assert(RUSSIAN_ALPHABET@[j as int] == RUSSIAN_ALPHABET@[p]);
        },
        None => {},
    }
}

/// The Vigenère cipher letter by letter, in terms of the alphabet
/// абвгдеёжзийклмнопрстуфхцчшщъыьэюя: the `n`-th Russian letter of the text,
/// at position `p` of the alphabet (by its small letter), meets the key
/// letter `n mod m` of the key's `m` Russian letters, at position `s`;
/// encryption puts the letter at position `(p + s) mod 33` in its place,
/// decryption the one at `(p - s) mod 33`, as a capital when the text had a
/// capital. Characters that are not Russian letters stay as they are.
pub proof fn lemma_vigenere_by_position(
    text: Seq<char>,
    key: Seq<char>,
    i: int,
    p: int,
    s: int,
    decrypt: bool,
)
    requires
        key_letters(key).len() > 0,
        0 <= i < text.len(),
        0 <= p < 33,
        0 <= s < 33,
        RUSSIAN_ALPHABET@[p] == ru_small_of(text[i]),
        RUSSIAN_ALPHABET@[s] == ru_small_of(
            key_letters(key)[(letters_before(text, i) % key_letters(key).len()) as int],
        ),
    ensures
        vigenere_spec(text, key, decrypt) matches Ok(t) && t.len() == text.len() && t[i] == {
            let n = RUSSIAN_ALPHABET@[if decrypt {
                (p - s) % 33
            } else {
                (p + s) % 33
            }];
            if is_ru_capital(text[i]) {
                ru_capital_of(n)
            } else {
                n
            }
        },
{
    let letters = key_letters(key);
    let idx = (letters_before(text, i) % letters.len()) as int;
    lemma_ru_pos_is_index(text[i], p);
    lemma_ru_pos_is_index(letters[idx], s);
    assert(key_shifts(key)[idx] == s);
}

/// Characters that are not Russian letters pass through the cipher unchanged.
pub proof fn lemma_vigenere_keeps_other_characters(
    text: Seq<char>,
    key: Seq<char>,
    i: int,
    decrypt: bool,
)
    requires
        key_letters(key).len() > 0,
        0 <= i < text.len(),
        !is_ru_capital(text[i]),
        !is_ru_small(text[i]),
    ensures
        vigenere_spec(text, key, decrypt) matches Ok(t) && t.len() == text.len() && t[i] == text[i],
{
    lemma_russian_cases(text[i]);
}

} // verus!
