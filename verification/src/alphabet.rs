//! The two Base64 alphabets: tables from 6-bit values to characters and back.

use vstd::prelude::*;

verus! {

/// The padding character appended to encoded text, as a byte.
pub const PAD_BYTE: u8 = 61;

/// Which of the two Base64 alphabets an operation uses. The alphabets agree on
/// indices 0 through 61 and differ only in the symbols for 62 and 63.
#[derive(Clone, Copy, Debug, PartialEq, Eq, Structural)]
pub enum Alphabet {
    /// Indices 62 and 63 map to `+` and `/`.
    Standard,
    /// Indices 62 and 63 map to `-` and `_`.
    UrlSafe,
}

/// The character that the given alphabet assigns to a 6-bit value.
pub open spec fn char_of_index(a: Alphabet, i: int) -> char
    recommends
        0 <= i < 64,
{
    if 0 <= i < 26 {
        ((65 + i) as u8) as char
    } else if 26 <= i < 52 {
        ((97 + (i - 26)) as u8) as char
    } else if 52 <= i < 62 {
        ((48 + (i - 52)) as u8) as char
    } else if i == 62 {
        if (a is Standard) { '+' } else { '-' }
    } else {
        if (a is Standard) { '/' } else { '_' }
    }
}

/// The 6-bit value that the given alphabet assigns to a character, or -1 when
/// the character is not one of the alphabet's 64 symbols.
pub open spec fn index_of_char(a: Alphabet, c: char) -> int {
    let u = c as int;
    if 65 <= u < 91 {
        u - 65
    } else if 97 <= u < 123 {
        u - 97 + 26
    } else if 48 <= u < 58 {
        u - 48 + 52
    } else if c == (if (a is Standard) { '+' } else { '-' }) {
        62
    } else if c == (if (a is Standard) { '/' } else { '_' }) {
        63
    } else {
        -1
    }
}

/// True when the character is one of the alphabet's 64 symbols.
pub open spec fn in_alphabet(a: Alphabet, c: char) -> bool {
    index_of_char(a, c) >= 0
}

/// The symbol that the alphabet assigns to a 6-bit value, as an ASCII byte.
pub(crate) fn encode_symbol(a: Alphabet, i: u8) -> (r: u8)
    requires
        i < 64,
    ensures
        r < 128,
        r as char == char_of_index(a, i as int),
{
    if i < 26 {
        65 + i
    } else if i < 52 {
        97 + (i - 26)
    } else if i < 62 {
        48 + (i - 52)
    } else if i == 62 {
        match a {
            Alphabet::Standard => 43,
            Alphabet::UrlSafe => 45,
        }
    } else {
        match a {
            Alphabet::Standard => 47,
            Alphabet::UrlSafe => 95,
        }
    }
}

/// The 6-bit value of an ASCII byte's character, or `None` when that
/// character is not a symbol of the alphabet.
pub(crate) fn decode_symbol(a: Alphabet, b: u8) -> (r: Option<u8>)
    ensures
        match r {
            Some(i) => i < 64 && index_of_char(a, b as char) == i as int,
            None => index_of_char(a, b as char) < 0,
        },
{
    let plus_or_minus: u8 = match a {
        Alphabet::Standard => 43,
        Alphabet::UrlSafe => 45,
    };
    let slash_or_underscore: u8 = match a {
        Alphabet::Standard => 47,
        Alphabet::UrlSafe => 95,
    };
    if b >= 65 && b < 91 {
        Some(b - 65)
    } else if b >= 97 && b < 123 {
        Some(b - 97 + 26)
    } else if b >= 48 && b < 58 {
        Some(b - 48 + 52)
    } else if b == plus_or_minus {
        Some(62)
    } else if b == slash_or_underscore {
        Some(63)
    } else {
        None
    }
}

/// Looking a symbol up by its 6-bit value and mapping the symbol back yields
/// that value; in particular the 64 symbols are pairwise distinct.
pub proof fn lemma_char_index_inverse(a: Alphabet, i: int)
    requires
        0 <= i < 64,
    ensures
        index_of_char(a, char_of_index(a, i)) == i,
{
}

/// Mapping an alphabet symbol to its 6-bit value and looking that value up
/// again yields the symbol: the two tables are inverse on the alphabet.
pub proof fn lemma_index_char_inverse(a: Alphabet, c: char)
    requires
        in_alphabet(a, c),
    ensures
        char_of_index(a, index_of_char(a, c)) == c,
{
}

/// No alphabet symbol is the padding character, and every symbol is an ASCII
/// character strictly below code point 128.
pub proof fn lemma_alphabet_ascii(a: Alphabet, c: char)
    requires
        in_alphabet(a, c),
    ensures
        c != '=',
        0 <= (c as int) && (c as int) < 128,
{
}

/// A character beyond the ASCII range has a code point above 127, so it is
/// neither an alphabet symbol nor the padding character.
pub(crate) proof fn lemma_char_beyond_ascii(a: Alphabet, c: char)
    requires
        !('\0' <= c <= '\u{7f}'),
    ensures
        c as int > 127,
        !in_alphabet(a, c),
        c != '=',
{
}

/// The 6-bit value of a byte known to be one of the alphabet's symbols.
pub(crate) fn expect_symbol(a: Alphabet, b: u8) -> (i: u8)
    requires
        in_alphabet(a, b as char),
    ensures
        i < 64,
        index_of_char(a, b as char) == i as int,
{
    match decode_symbol(a, b) {
        Some(v) => v,
        None => {
            proof {
                assert(false);
            }
            0
        },
    }
}

} // verus!
