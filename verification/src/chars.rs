//! Characters: ASCII case and digits, Unicode case mappings, trimming and
//! parsing of decimal numbers.
use vstd::prelude::*;

verus! {

/// `'0'..='9'`
pub open spec fn is_digit(c: char) -> bool {
    '0' <= c <= '9'
}

/// Every character is an ASCII digit.
pub open spec fn all_digits(s: Seq<char>) -> bool {
    forall|i: int| 0 <= i < s.len() ==> #[trigger] is_digit(s[i])
}

/// The ASCII digits of `s`, in order.
pub open spec fn digits_of(s: Seq<char>) -> Seq<char> {
    s.filter(|c: char| is_digit(c))
}

/// The digits kept from a string are all digits.
pub proof fn lemma_digits_of_all_digits(s: Seq<char>)
    ensures
        all_digits(digits_of(s)),
{
    let f = digits_of(s);
    assert forall|i: int| 0 <= i < f.len() implies #[trigger] is_digit(f[i]) by {
        s.lemma_filter_pred(|c: char| is_digit(c), i);
    }
}

/// The number that a string of decimal digits spells.
pub open spec fn digits_value(s: Seq<char>) -> nat
    decreases s.len(),
{
    if s.len() == 0 {
        0
    } else {
        digits_value(s.drop_last()) * 10 + (s.last() as nat - 48) as nat
    }
}

/// `char::is_ascii_digit`
pub fn is_ascii_digit(c: char) -> (b: bool)
    ensures
        b == is_digit(c),
{
    '0' <= c && c <= '9'
}

/// `char::to_ascii_lowercase`: `'A'..='Z'` become `'a'..='z'`, every other
/// character stays.
pub open spec fn ascii_lower(c: char) -> char {
    if 'A' <= c <= 'Z' {
        ((c as u32) + 32) as char
    } else {
        c
    }
}

/// `char::to_ascii_uppercase`: `'a'..='z'` become `'A'..='Z'`, every other
/// character stays.
pub open spec fn ascii_upper(c: char) -> char {
    if 'a' <= c <= 'z' {
        ((c as u32) - 32) as char
    } else {
        c
    }
}

/// The ASCII lowercase of a character.
pub fn to_ascii_lowercase(c: char) -> (r: char)
    ensures
        r == ascii_lower(c),
{
    if 'A' <= c && c <= 'Z' {
        let b: u8 = c as u8 + 32;
        let r = b as char;
        assert(r as u32 == (c as u32) + 32);
        r
    } else {
        c
    }
}

/// The ASCII uppercase of a character.
pub fn to_ascii_uppercase(c: char) -> (r: char)
    ensures
        r == ascii_upper(c),
{
    if 'a' <= c && c <= 'z' {
        let b: u8 = c as u8 - 32;
        let r = b as char;
        assert(r as u32 == (c as u32) - 32);
        r
    } else {
        c
    }
}

/// A capital letter of the Russian alphabet: `'А'..='Я'` or `'Ё'`.
pub open spec fn is_ru_capital(c: char) -> bool {
    ('А' <= c && c <= 'Я') || c == 'Ё'
}

/// A small letter of the Russian alphabet: `'а'..='я'` or `'ё'`.
pub open spec fn is_ru_small(c: char) -> bool {
    ('а' <= c && c <= 'я') || c == 'ё'
}

/// The small letter of a Russian capital (U+0410..U+042F map 32 code points
/// up, U+0401 to U+0451); other characters stay.
pub open spec fn ru_small_of(c: char) -> char {
    if 'А' <= c && c <= 'Я' {
        ((c as u32) + 32) as char
    } else if c == 'Ё' {
        'ё'
    } else {
        c
    }
}

/// The capital of a small Russian letter; other characters stay.
pub open spec fn ru_capital_of(c: char) -> char {
    if 'а' <= c && c <= 'я' {
        ((c as u32) - 32) as char
    } else if c == 'ё' {
        'Ё'
    } else {
        c
    }
}

/// Whether `char::is_uppercase` holds of a character (its Unicode
/// `Uppercase` property).
pub uninterp spec fn uppercase_property(c: char) -> bool;

/// The first character of `char::to_lowercase` (its Unicode lowercase mapping).
pub uninterp spec fn lowercase_first(c: char) -> char;

/// The first character of `char::to_uppercase` (its Unicode uppercase mapping).
pub uninterp spec fn uppercase_first(c: char) -> char;

/// `char::is_uppercase`. The result is the character's Unicode `Uppercase`
/// property; for an ASCII character that property holds exactly on
/// `'A'..='Z'`, and on the Russian letters exactly on the capitals. Nothing
/// is stated of other characters beyond the name.
#[verifier::external_body]
pub(crate) fn is_uppercase(c: char) -> (b: bool)
    ensures
        b == uppercase_property(c),
        (c as u32) < 128 ==> (b <==> 'A' <= c <= 'Z'),
        is_ru_capital(c) ==> b,
        is_ru_small(c) ==> !b,
{
    c.is_uppercase()
}

/// The first character that `char::to_lowercase` yields (the iterator always
/// yields at least one). The mapping comes from the Unicode tables; stated
/// here is its part on the Russian letters: a capital maps to its small
/// letter, a small letter to itself, and no other character maps to a small
/// Russian letter. The rest is left to the name.
#[verifier::external_body]
pub(crate) fn to_lowercase_first(c: char) -> (r: char)
    ensures
        r == lowercase_first(c),
        is_ru_capital(c) || is_ru_small(c) ==> r == ru_small_of(c),
        !(is_ru_capital(c) || is_ru_small(c)) ==> !is_ru_small(r),
{
    c.to_lowercase().next().unwrap_or(c)
}

/// The first character that `char::to_uppercase` yields (the iterator always
/// yields at least one). The mapping comes from the Unicode tables; stated
/// here is its part on the small Russian letters, which map to their
/// capitals. The rest is left to the name.
#[verifier::external_body]
pub(crate) fn to_uppercase_first(c: char) -> (r: char)
    ensures
        r == uppercase_first(c),
        is_ru_small(c) ==> r == ru_capital_of(c),
{
    c.to_uppercase().next().unwrap_or(c)
}

/// Unicode `White_Space`: U+0009..U+000D, U+0020, U+0085, U+00A0, U+1680,
/// U+2000..U+200A, U+2028, U+2029, U+202F, U+205F and U+3000.
pub open spec fn is_white_space(c: char) -> bool {
    let u = c as u32;
    ||| 0x09 <= u <= 0x0D
    ||| u == 0x20
    ||| u == 0x85
    ||| u == 0xA0
    ||| u == 0x1680
    ||| 0x2000 <= u <= 0x200A
    ||| u == 0x2028
    ||| u == 0x2029
    ||| u == 0x202F
    ||| u == 0x205F
    ||| u == 0x3000
}

/// The string without its leading white space.
pub open spec fn trim_start(s: Seq<char>) -> Seq<char>
    decreases s.len(),
{
    if s.len() > 0 && is_white_space(s[0]) {
        trim_start(s.drop_first())
    } else {
        s
    }
}

/// The string without its trailing white space.
pub open spec fn trim_end(s: Seq<char>) -> Seq<char>
    decreases s.len(),
{
    if s.len() > 0 && is_white_space(s.last()) {
        trim_end(s.drop_last())
    } else {
        s
    }
}

/// What `str::trim` leaves of a string: no leading or trailing white space.
pub open spec fn trimmed(s: Seq<char>) -> Seq<char> {
    trim_end(trim_start(s))
}

/// `str::trim`: the string without leading and trailing white space, which
/// the documentation defines as the Unicode `White_Space` property.
#[verifier::external_body]
pub(crate) fn trim(s: &str) -> (r: &str)
    ensures
        r@ == trimmed(s@),
{
    s.trim()
}

/// A string of ASCII digits is its own trim.
pub proof fn lemma_trim_digits(s: Seq<char>)
    requires
        all_digits(s),
    ensures
        trimmed(s) == s,
{
    if s.len() > 0 {
        assert(is_digit(s[0]));
        assert(is_digit(s[s.len() - 1]));
    }
}

/// The sign and the digits of a number as `from_str` reads it: an optional
/// `+` (or, where the type is signed, `-`) in front of at least one more
/// character. The flag says whether the sign was `-`.
pub open spec fn sign_split(s: Seq<char>, signed: bool) -> (bool, Seq<char>) {
    if s.len() > 1 && s[0] == '+' {
        (false, s.drop_first())
    } else if signed && s.len() > 1 && s[0] == '-' {
        (true, s.drop_first())
    } else {
        (false, s)
    }
}

/// What `str::parse::<i32>` gives for a string (`None` for an error): an
/// optional sign and at least one ASCII digit, nothing else, and the value
/// in range.
pub open spec fn parsed_i32(s: Seq<char>) -> Option<i32> {
    let (neg, d) = sign_split(s, true);
    if d.len() == 0 || !all_digits(d) {
        None
    } else {
        let v: int = if neg {
            -(digits_value(d) as int)
        } else {
            digits_value(d) as int
        };
        if i32::MIN <= v <= i32::MAX {
            Some(v as i32)
        } else {
            None
        }
    }
}

/// What `str::parse::<u64>` gives for a string (`None` for an error): an
/// optional `+` and at least one ASCII digit, nothing else, and the value in
/// range.
pub open spec fn parsed_u64(s: Seq<char>) -> Option<u64> {
    let d = sign_split(s, false).1;
    if d.len() == 0 || !all_digits(d) {
        None
    } else if digits_value(d) <= u64::MAX {
        Some(digits_value(d) as u64)
    } else {
        None
    }
}

/// `str::parse::<i32>` (`i32::from_str`).
#[verifier::external_body]
pub(crate) fn parse_i32(s: &str) -> (r: Option<i32>)
    ensures
        r == parsed_i32(s@),
{
    s.parse::<i32>().ok()
}

/// `str::parse::<u64>` (`u64::from_str`).
#[verifier::external_body]
pub(crate) fn parse_u64(s: &str) -> (r: Option<u64>)
    ensures
        r == parsed_u64(s@),
{
    s.parse::<u64>().ok()
}

/// A non-empty string of ASCII digits parses to the number it spells when
/// that is in range.
pub proof fn lemma_parse_digits(s: Seq<char>)
    requires
        s.len() > 0,
        all_digits(s),
    ensures
        parsed_i32(s) == if digits_value(s) <= i32::MAX {
            Some(digits_value(s) as i32)
        } else {
            None::<i32>
        },
        parsed_u64(s) == if digits_value(s) <= u64::MAX {
            Some(digits_value(s) as u64)
        } else {
            None::<u64>
        },
{
    assert(is_digit(s[0]));
}

/// Keeps the ASCII digits of a string, in order.
pub fn keep_ascii_digits(s: &str) -> (r: String)
    ensures
        r@ == digits_of(s@),
{
    let mut r = String::new();
    for c in it: s.chars()
        invariant
            it.seq() == s@,
            r@ == digits_of(s@.take(it.index() as int)),
    {
        proof {
            let t = s@.take(it.index() + 1);
            assert(t.drop_last() =~= s@.take(it.index() as int));
            reveal_with_fuel(Seq::filter, 1);
        }
        if is_ascii_digit(c) {
            crate::text::push_char(&mut r, c);
        }
    }
    proof {
        assert(s@.take(s@.len() as int) =~= s@);
    }
    r
}

/// `'0'` or `'1'`
pub open spec fn is_bit_char(c: char) -> bool {
    c == '0' || c == '1'
}

/// The number that a string of binary digits spells.
pub open spec fn binary_value(s: Seq<char>) -> nat
    decreases s.len(),
{
    if s.len() == 0 {
        0
    } else {
        binary_value(s.drop_last()) * 2 + (if s.last() == '1' { 1nat } else { 0nat })
    }
}

/// A string of `n` binary digits spells a number below `2^n`.
pub proof fn lemma_binary_value_bound(s: Seq<char>)
    ensures
        binary_value(s) < vstd::arithmetic::power2::pow2(s.len()),
    decreases s.len(),
{
    vstd::arithmetic::power2::lemma2_to64();
    if s.len() > 0 {
        lemma_binary_value_bound(s.drop_last());
        vstd::arithmetic::power2::lemma_pow2_unfold(s.len());
    }
}

/// Every character is `'0'` or `'1'`.
pub open spec fn all_bits(s: Seq<char>) -> bool {
    forall|i: int| 0 <= i < s.len() ==> #[trigger] is_bit_char(s[i])
}

/// What `u64::from_str_radix(_, 2)` gives for a string (`None` for an
/// error): an optional `+` and at least one binary digit, nothing else, and
/// the value in range.
pub open spec fn parsed_binary_u64(s: Seq<char>) -> Option<u64> {
    let d = sign_split(s, false).1;
    if d.len() == 0 || !all_bits(d) {
        None
    } else if binary_value(d) <= u64::MAX {
        Some(binary_value(d) as u64)
    } else {
        None
    }
}

/// `u64::from_str_radix(s, 2)`.
#[verifier::external_body]
pub(crate) fn parse_binary_u64(s: &str) -> (r: Option<u64>)
    ensures
        r == parsed_binary_u64(s@),
{
    u64::from_str_radix(s, 2).ok()
}

/// A string of 1 to 64 binary digits parses to the number it spells.
pub proof fn lemma_parse_binary(s: Seq<char>)
    requires
        0 < s.len() <= 64,
        all_bits(s),
    ensures
        binary_value(s) <= u64::MAX,
        parsed_binary_u64(s) == Some(binary_value(s) as u64),
{
    assert(is_bit_char(s[0]));
    lemma_binary_value_bound(s);
    vstd::arithmetic::power2::lemma2_to64();
    vstd::arithmetic::power2::lemma2_to64_rest();
    if s.len() < 64 {
        vstd::arithmetic::power2::lemma_pow2_strictly_increases(s.len(), 64);
    }
}

} // verus!
