//! The English and Russian alphabets and letter positions in them.
use vstd::prelude::*;

verus! {

pub const ENGLISH_ALPHABET: &'static str = "abcdefghijklmnopqrstuvwxyz";

pub const RUSSIAN_ALPHABET: &'static str = "абвгдеёжзийклмнопрстуфхцчшщъыьэюя";

pub const ENGLISH_LEN: i32 = 26;

pub const RUSSIAN_LEN: i32 = 33;

/// The index of the first occurrence of `c` in `s`.
pub open spec fn first_index(s: Seq<char>, c: char) -> Option<nat>
    decreases s.len(),
{
    if s.len() == 0 {
        None
    } else if s[0] == c {
        Some(0)
    } else {
        match first_index(s.drop_first(), c) {
            Some(i) => Some(i + 1),
            None => None,
        }
    }
}

/// `first_index` is the least index holding `c`, and `None` exactly when
/// `c` does not occur.
pub proof fn lemma_first_index(s: Seq<char>, c: char)
    ensures
        match first_index(s, c) {
            Some(i) => i < s.len() && s[i as int] == c && forall|j: int| 0 <= j < i ==> s[j] != c,
            None => forall|j: int| 0 <= j < s.len() ==> s[j] != c,
        },
    decreases s.len(),
{
    if s.len() > 0 && s[0] != c {
        lemma_first_index(s.drop_first(), c);
        match first_index(s.drop_first(), c) {
            Some(i) => {
                assert forall|j: int| 0 <= j < i + 1 implies s[j] != c by {
                    if j > 0 {
                        assert(s[j] == s.drop_first()[j - 1]);
                    }
                }
            },
            None => {
                assert forall|j: int| 0 <= j < s.len() implies s[j] != c by {
                    if j > 0 {
                        assert(s[j] == s.drop_first()[j - 1]);
                    }
                }
            },
        }
    }
}

/// The position of `c` in `alphabet`, if it occurs there.
pub fn position(c: char, alphabet: &str) -> (r: Option<usize>)
    ensures
        match (r, first_index(alphabet@, c)) {
            (Some(i), Some(j)) => i == j,
            (None, None) => true,
            _ => false,
        },
{
    let letters = crate::text::chars_of(alphabet);
    proof {
        lemma_first_index(alphabet@, c);
    }
    for i in 0..letters.len()
        invariant
            letters@ == alphabet@,
            forall|j: int| 0 <= j < i ==> alphabet@[j] != c,
            match first_index(alphabet@, c) {
                Some(k) => k < alphabet@.len() && alphabet@[k as int] == c && forall|j: int|
                    0 <= j < k ==> alphabet@[j] != c,
                None => forall|j: int| 0 <= j < alphabet@.len() ==> alphabet@[j] != c,
            },
    {
        if letters[i] == c {
            return Some(i);
        }
    }
    None
}

/// The English alphabet is `'a'..='z'` in order.
pub proof fn lemma_english_alphabet()
    ensures
        ENGLISH_ALPHABET@.len() == 26,
        forall|i: int| 0 <= i < 26 ==> #[trigger] ENGLISH_ALPHABET@[i] == (97 + i) as char,
        forall|i: int| 0 <= i < 26 ==> #[trigger] ENGLISH_ALPHABET@[i] as u32 == 97 + i,
{
    reveal_strlit("abcdefghijklmnopqrstuvwxyz");
    assert(ENGLISH_ALPHABET@ =~= Seq::new(26, |i: int| (97 + i) as char));
}

/// A character's position in the English alphabet is its distance from `'a'`.
pub proof fn lemma_english_position(l: char)
    ensures
        first_index(ENGLISH_ALPHABET@, l) == if 'a' <= l <= 'z' {
            Some((l as u32 - 97) as nat)
        } else {
            None::<nat>
        },
{
    lemma_english_alphabet();
    lemma_first_index(ENGLISH_ALPHABET@, l);
    if 'a' <= l <= 'z' {
        let i = (l as u32 - 97) as int;
        assert(ENGLISH_ALPHABET@[i] as u32 == l as u32);
        vstd::utf8::char_u32_cast(ENGLISH_ALPHABET@[i], l as u32);
        vstd::utf8::char_u32_cast(l, l as u32);
        match first_index(ENGLISH_ALPHABET@, l) {
            Some(j) => {
                assert(ENGLISH_ALPHABET@[j as int] as u32 == l as u32);
            },
            None => {
                assert(ENGLISH_ALPHABET@[i] != l);
            },
        }
    } else {
        match first_index(ENGLISH_ALPHABET@, l) {
            Some(j) => {
                assert(ENGLISH_ALPHABET@[j as int] as u32 == 97 + j);
            },
            None => {},
        }
    }
}

} // verus!
