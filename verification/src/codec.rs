//! The Base64 encode and decode algorithm: its specification, the verified
//! executable codec, and the public operations for both alphabets.

use vstd::prelude::*;

use crate::alphabet::Alphabet;
use crate::alphabet::PAD_BYTE;
use crate::alphabet::char_of_index;
use crate::alphabet::decode_symbol;
use crate::alphabet::encode_symbol;
use crate::alphabet::expect_symbol;
use crate::alphabet::in_alphabet;
use crate::alphabet::index_of_char;

verus! {

/// Why a text could not be decoded.
#[derive(Clone, Copy, Debug, PartialEq, Eq, Structural)]
pub enum DecodeError {
    /// A character that is neither a symbol of the active alphabet nor `=`.
    InvalidCharacter,
    /// A length that is not a multiple of four.
    InvalidLength,
    /// A `=` away from the end of the text, more than two of them, or a
    /// final data symbol carrying bits that the padding says to discard.
    InvalidPadding,
}

impl DecodeError {
    /// A human-readable description of why decoding failed.
    pub fn message(&self) -> (r: String)
        ensures
            r@ == (match *self {
                DecodeError::InvalidCharacter => "invalid character: not in the active alphabet"@,
                DecodeError::InvalidLength => "invalid length: not a multiple of four"@,
                DecodeError::InvalidPadding => "invalid padding: misplaced, overlong, or non-zero unused bits"@,
            }),
    {
        match *self {
            DecodeError::InvalidCharacter => "invalid character: not in the active alphabet".to_owned(),
            DecodeError::InvalidLength => "invalid length: not a multiple of four".to_owned(),
            DecodeError::InvalidPadding => "invalid padding: misplaced, overlong, or non-zero unused bits".to_owned(),
        }
    }
}

/// The sequence of characters whose code points are the given bytes.
pub open spec fn chars_of_bytes(s: Seq<u8>) -> Seq<char> {
    Seq::new(s.len(), |i: int| s[i] as char)
}

/// The Base64 text that encodes a byte buffer: each group of three bytes
/// becomes four alphabet characters, and a final group of one or two bytes
/// becomes two or three characters completed to four with `=` padding.
pub open spec fn encode_spec(b: Seq<u8>, a: Alphabet) -> Seq<char>
    decreases b.len(),
{
    if b.len() == 0 {
        Seq::empty()
    } else if b.len() == 1 {
        let b0 = b[0] as int;
        seq![
            char_of_index(a, b0 / 4),
            char_of_index(a, (b0 % 4) * 16),
            '=',
            '=',
        ]
    } else if b.len() == 2 {
        let b0 = b[0] as int;
        let b1 = b[1] as int;
        seq![
            char_of_index(a, b0 / 4),
            char_of_index(a, (b0 % 4) * 16 + b1 / 16),
            char_of_index(a, (b1 % 16) * 4),
            '=',
        ]
    } else {
        let b0 = b[0] as int;
        let b1 = b[1] as int;
        let b2 = b[2] as int;
        seq![
            char_of_index(a, b0 / 4),
            char_of_index(a, (b0 % 4) * 16 + b1 / 16),
            char_of_index(a, (b1 % 16) * 4 + b2 / 64),
            char_of_index(a, b2 % 64),
        ] + encode_spec(b.skip(3), a)
    }
}

/// How many `=` characters end the text.
pub open spec fn pad_len(s: Seq<char>) -> int
    decreases s.len(),
{
    if s.len() > 0 && s.last() == '=' {
        1 + pad_len(s.drop_last())
    } else {
        0
    }
}

/// True when every character of the text is a symbol of the alphabet or `=`.
pub open spec fn chars_valid(s: Seq<char>, a: Alphabet) -> bool {
    forall|i: int| 0 <= i < s.len() ==> in_alphabet(a, s[i]) || s[i] == '='
}

/// True when `=` occurs only as a suffix of at most two characters.
pub open spec fn padding_valid(s: Seq<char>) -> bool {
    &&& pad_len(s) <= 2
    &&& forall|i: int| 0 <= i < s.len() - pad_len(s) ==> s[i] != '='
}

/// True when the bits that the trailing padding discards are zero. With two
/// `=` the final group carries one byte in twelve bits, so the low four bits
/// of its second symbol are unused; with one `=` it carries two bytes in
/// eighteen bits, so the low two bits of its third symbol are unused. Encode
/// always emits them as zero, and decode accepts only that canonical form.
pub open spec fn trailing_bits_zero(s: Seq<char>, a: Alphabet) -> bool {
    &&& pad_len(s) == 2 ==> index_of_char(a, s[s.len() - 3]) % 16 == 0
    &&& pad_len(s) == 1 ==> index_of_char(a, s[s.len() - 2]) % 4 == 0
}

/// The bytes that one four-character group decodes to. Trailing `=` marks
/// bytes of the group that carry no data and are dropped.
pub open spec fn group_bytes(a: Alphabet, c0: char, c1: char, c2: char, c3: char) -> Seq<u8> {
    let i0 = index_of_char(a, c0);
    let i1 = index_of_char(a, c1);
    let i2 = index_of_char(a, c2);
    let i3 = index_of_char(a, c3);
    if c2 == '=' {
        seq![(i0 * 4 + i1 / 16) as u8]
    } else if c3 == '=' {
        seq![(i0 * 4 + i1 / 16) as u8, ((i1 % 16) * 16 + i2 / 4) as u8]
    } else {
        seq![
            (i0 * 4 + i1 / 16) as u8,
            ((i1 % 16) * 16 + i2 / 4) as u8,
            ((i2 % 4) * 64 + i3) as u8,
        ]
    }
}

/// The bytes that a validated text decodes to, one four-character group after
/// another.
pub open spec fn decode_groups(s: Seq<char>, a: Alphabet) -> Seq<u8>
    decreases s.len(),
{
    if s.len() < 4 {
        Seq::empty()
    } else {
        group_bytes(a, s[0], s[1], s[2], s[3]) + decode_groups(s.skip(4), a)
    }
}

/// What decoding a text against an alphabet yields: the decoded bytes, or the
/// first failed check in this order — a character outside the alphabet and
/// `=`, then a length that is not a multiple of four, then malformed padding:
/// a `=` away from the trailing suffix, more than two of them, or non-zero
/// discarded bits in the final group. Only the canonical form that encode
/// produces is accepted: unpadded text of length 2 or 3 modulo 4 is rejected
/// through its length, and a final symbol with non-zero unused bits through
/// its padding.
pub open spec fn decode_spec(s: Seq<char>, a: Alphabet) -> Result<Seq<u8>, DecodeError> {
    if !chars_valid(s, a) {
        Err(DecodeError::InvalidCharacter)
    } else if s.len() % 4 != 0 {
        Err(DecodeError::InvalidLength)
    } else if !padding_valid(s) || !trailing_bits_zero(s, a) {
        Err(DecodeError::InvalidPadding)
    } else {
        Ok(decode_groups(s, a))
    }
}

/// The view of a decode result: the bytes it holds on success, the error
/// unchanged on failure.
pub open spec fn decoded_bytes_of(r: Result<Vec<u8>, DecodeError>) -> Result<
    Seq<u8>,
    DecodeError,
> {
    match r {
        Ok(v) => Ok(v@),
        Err(e) => Err(e),
    }
}

/// Encoding splits at any whole-group boundary: the text of a buffer is the
/// text of its first `3 * k` bytes followed by the text of the rest.
pub(crate) proof fn lemma_encode_split(b: Seq<u8>, k: int, a: Alphabet)
    requires
        0 <= 3 * k <= b.len(),
    ensures
        encode_spec(b, a) == encode_spec(b.take(3 * k), a) + encode_spec(b.skip(3 * k), a),
    decreases k,
{
    if k <= 0 {
        assert(b.skip(0) =~= b);
        assert(b.take(0) =~= Seq::<u8>::empty());
        assert(encode_spec(b.take(0), a) + encode_spec(b.skip(0), a) =~= encode_spec(b, a));
    } else {
        lemma_encode_split(b.skip(3), k - 1, a);
        assert(b.skip(3).take(3 * k - 3) =~= b.take(3 * k).skip(3));
        assert(b.skip(3).skip(3 * k - 3) =~= b.skip(3 * k));
        let t = b.take(3 * k);
        assert(t.len() == 3 * k >= 3);
        assert(t[0] == b[0] && t[1] == b[1] && t[2] == b[2]);
        assert(encode_spec(b, a) =~= encode_spec(b.take(3 * k), a) + encode_spec(
            b.skip(3 * k),
            a,
        ));
    }
}

/// Decoding splits at any group boundary: the bytes of a text are the bytes
/// of its first `4 * k` characters followed by the bytes of the rest.
pub(crate) proof fn lemma_decode_split(s: Seq<char>, k: int, a: Alphabet)
    requires
        0 <= 4 * k <= s.len(),
    ensures
        decode_groups(s, a) == decode_groups(s.take(4 * k), a) + decode_groups(s.skip(4 * k), a),
    decreases k,
{
    if k <= 0 {
        assert(s.skip(0) =~= s);
        assert(s.take(0) =~= Seq::<char>::empty());
        assert(decode_groups(s.take(0), a) + decode_groups(s.skip(0), a) =~= decode_groups(s, a));
    } else {
        lemma_decode_split(s.skip(4), k - 1, a);
        assert(s.skip(4).take(4 * k - 4) =~= s.take(4 * k).skip(4));
        assert(s.skip(4).skip(4 * k - 4) =~= s.skip(4 * k));
        let t = s.take(4 * k);
        assert(t.len() == 4 * k >= 4);
        assert(t[0] == s[0] && t[1] == s[1] && t[2] == s[2] && t[3] == s[3]);
        assert(decode_groups(s, a) =~= decode_groups(s.take(4 * k), a) + decode_groups(
            s.skip(4 * k),
            a,
        ));
    }
}

/// Appending in front of a text whose padding is shorter than the text itself
/// leaves the count of trailing `=` unchanged.
pub(crate) proof fn lemma_pad_len_append(s: Seq<char>, t: Seq<char>)
    requires
        pad_len(t) < t.len(),
    ensures
        pad_len(s + t) == pad_len(t),
    decreases t.len(),
{
    assert((s + t).len() > 0);
    assert((s + t).last() == t.last());
    if t.last() == '=' {
        assert((s + t).drop_last() =~= s + t.drop_last());
        lemma_pad_len_append(s, t.drop_last());
    }
}

/// The count of trailing `=` never exceeds the length of the text.
pub(crate) proof fn lemma_pad_len_bound(s: Seq<char>)
    ensures
        0 <= pad_len(s) <= s.len(),
    decreases s.len(),
{
    if s.len() > 0 && s.last() == '=' {
        lemma_pad_len_bound(s.drop_last());
    }
}

/// The last `pad_len` characters of a text are all `=`.
pub(crate) proof fn lemma_pad_len_suffix(s: Seq<char>)
    ensures
        forall|j: int| s.len() - pad_len(s) <= j < s.len() ==> s[j] == '=',
    decreases s.len(),
{
    if s.len() > 0 && s.last() == '=' {
        lemma_pad_len_suffix(s.drop_last());
        lemma_pad_len_bound(s.drop_last());
        assert forall|j: int| s.len() - pad_len(s) <= j < s.len() implies s[j] == '=' by {
            if j < s.len() - 1 {
                assert(s[j] == s.drop_last()[j]);
            }
        }
    }
}

/// A text whose last `k` characters are `=` and whose character before them,
/// if any, is not, has exactly `k` characters of trailing padding.
pub(crate) proof fn lemma_pad_len_trailing(s: Seq<char>, k: int)
    requires
        0 <= k <= s.len(),
        forall|j: int| s.len() - k <= j < s.len() ==> s[j] == '=',
        k == s.len() || s[s.len() - k - 1] != '=',
    ensures
        pad_len(s) == k,
    decreases k,
{
    if k == 0 {
    } else {
        assert(s.last() == '=');
        lemma_pad_len_trailing(s.drop_last(), k - 1);
    }
}

/// Encodes a byte buffer into the ASCII bytes of its Base64 text.
#[verifier::rlimit(50)]
#[verifier::spinoff_prover]
fn encode_ascii(data: &[u8], a: Alphabet) -> (out: Vec<u8>)
    ensures
        chars_of_bytes(out@) == encode_spec(data@, a),
        forall|i: int| 0 <= i < out@.len() ==> out@[i] < 128,
{
    let n = data.len();
    let full = n / 3;
    let mut out: Vec<u8> = Vec::new();
    let mut g: usize = 0;
    while g < full
        invariant
            0 <= g <= full,
            full == n / 3,
            n == data@.len(),
            chars_of_bytes(out@) == encode_spec(data@.take(3 * g), a),
            out@.len() == 4 * g,
            forall|i: int| 0 <= i < out@.len() ==> out@[i] < 128,
        decreases full - g,
    {
        let b0 = data[3 * g];
        let b1 = data[3 * g + 1];
        let b2 = data[3 * g + 2];
        let s0 = encode_symbol(a, b0 / 4);
        let s1 = encode_symbol(a, (b0 % 4) * 16 + b1 / 16);
        let s2 = encode_symbol(a, (b1 % 16) * 4 + b2 / 64);
        let s3 = encode_symbol(a, b2 % 64);
        let ghost old_out = out@;
        out.push(s0);
        out.push(s1);
        out.push(s2);
        out.push(s3);
        proof {
            let pre = data@.take(3 * g);
            let post = data@.take(3 * g + 3);
            lemma_encode_split(post, g as int, a);
            assert(post.take(3 * g) =~= pre);
            let grp = post.skip(3 * g);
            assert(grp.len() == 3);
            assert(grp[0] == data@[3 * g] && grp[1] == data@[3 * g + 1] && grp[2] == data@[3 * g
                + 2]);
            assert(grp.skip(3) =~= Seq::<u8>::empty());
            assert(encode_spec(grp.skip(3), a) =~= Seq::<char>::empty());
            assert(encode_spec(grp, a) =~= seq![
                char_of_index(a, grp[0] as int / 4),
                char_of_index(a, (grp[0] as int % 4) * 16 + grp[1] as int / 16),
                char_of_index(a, (grp[1] as int % 16) * 4 + grp[2] as int / 64),
                char_of_index(a, grp[2] as int % 64),
            ]);
            assert(chars_of_bytes(out@) =~= chars_of_bytes(old_out) + seq![
                s0 as char,
                s1 as char,
                s2 as char,
                s3 as char,
            ]);
            assert(chars_of_bytes(out@) =~= encode_spec(post, a));
        }
        g += 1;
    }
    proof {
        lemma_encode_split(data@, full as int, a);
    }
    if n % 3 == 1 {
        let b0 = data[n - 1];
        let ghost old_out = out@;
        out.push(encode_symbol(a, b0 / 4));
        out.push(encode_symbol(a, (b0 % 4) * 16));
        out.push(PAD_BYTE);
        out.push(PAD_BYTE);
        proof {
            let rest = data@.skip(3 * full);
            assert(rest.len() == 1);
            assert(rest[0] == data@[n - 1]);
            assert(chars_of_bytes(out@) =~= chars_of_bytes(old_out) + encode_spec(rest, a));
            assert(chars_of_bytes(out@) =~= encode_spec(data@, a));
        }
    } else if n % 3 == 2 {
        let b0 = data[n - 2];
        let b1 = data[n - 1];
        let ghost old_out = out@;
        out.push(encode_symbol(a, b0 / 4));
        out.push(encode_symbol(a, (b0 % 4) * 16 + b1 / 16));
        out.push(encode_symbol(a, (b1 % 16) * 4));
        out.push(PAD_BYTE);
        proof {
            let rest = data@.skip(3 * full);
            assert(rest.len() == 2);
            assert(rest[0] == data@[n - 2] && rest[1] == data@[n - 1]);
            assert(chars_of_bytes(out@) =~= chars_of_bytes(old_out) + encode_spec(rest, a));
            assert(chars_of_bytes(out@) =~= encode_spec(data@, a));
        }
    } else {
        proof {
            let rest = data@.skip(3 * full);
            assert(rest.len() == 0);
            assert(encode_spec(rest, a) =~= Seq::<char>::empty());
            assert(data@.take(3 * full) =~= data@);
            assert(chars_of_bytes(out@) =~= encode_spec(data@, a));
        }
    }
    out
}

/// Relies on `String::from_utf8`: decoding bytes that are all ASCII yields
/// the string whose characters have exactly those bytes as code points.
#[verifier::external_body]
fn string_from_ascii(bytes: Vec<u8>) -> (s: String)
    requires
        forall|i: int| 0 <= i < bytes@.len() ==> bytes@[i] < 128,
    ensures
        s@ == chars_of_bytes(bytes@),
{
    match String::from_utf8(bytes) {
        Ok(s) => s,
        Err(_) => String::new(),
    }
}

/// Encodes a byte buffer with the given alphabet into padded Base64 text.
fn encode_with(data: &[u8], a: Alphabet) -> (r: String)
    ensures
        r@ == encode_spec(data@, a),
{
    let out = encode_ascii(data, a);
    string_from_ascii(out)
}

/// Encodes a byte buffer into Base64 text with the standard alphabet.
pub fn base64_encode(data: &[u8]) -> (r: String)
    ensures
        r@ == encode_spec(data@, Alphabet::Standard),
{
    encode_with(data, Alphabet::Standard)
}

/// Encodes a byte buffer into Base64 text with the URL-safe alphabet.
pub fn base64_encode_url_safe(data: &[u8]) -> (r: String)
    ensures
        r@ == encode_spec(data@, Alphabet::UrlSafe),
{
    encode_with(data, Alphabet::UrlSafe)
}

/// A text with a character beyond the ASCII range has a character outside
/// every alphabet, so decoding it fails on that character.
proof fn lemma_non_ascii_invalid(s: Seq<char>, a: Alphabet)
    requires
        !vstd::utf8::is_ascii_chars(s),
    ensures
        !chars_valid(s, a),
{
    let w = choose|i: int| 0 <= i < s.len() && !('\0' <= #[trigger] s[i] <= '\u{7f}');
    crate::alphabet::lemma_char_beyond_ascii(a, s[w]);
}

/// Decodes the ASCII bytes of a Base64 text back into the encoded buffer.
#[verifier::rlimit(100)]
#[verifier::spinoff_prover]
fn decode_ascii(text: &[u8], a: Alphabet) -> (r: Result<Vec<u8>, DecodeError>)
    ensures
        decoded_bytes_of(r) == decode_spec(chars_of_bytes(text@), a),
{
    let ghost s = chars_of_bytes(text@);
    let n = text.len();
    let mut i: usize = 0;
    while i < n
        invariant
            n == text@.len(),
            s == chars_of_bytes(text@),
            0 <= i <= n,
            forall|j: int| 0 <= j < i ==> in_alphabet(a, s[j]) || s[j] == '=',
        decreases n - i,
    {
        let b = text[i];
        if b != PAD_BYTE {
            if decode_symbol(a, b).is_none() {
                proof {
                    assert(s[i as int] == text@[i as int] as char);
                    assert(!(in_alphabet(a, s[i as int]) || s[i as int] == '='));
                    assert(!chars_valid(s, a));
                }
                return Err(DecodeError::InvalidCharacter);
            }
        }
        i += 1;
    }
    assert(chars_valid(s, a));
    if n % 4 != 0 {
        return Err(DecodeError::InvalidLength);
    }
    if n == 0 {
        let empty: Vec<u8> = Vec::new();
        assert(s =~= Seq::<char>::empty());
        return Ok(empty);
    }
    let mut k: usize = 0;
    while k < n && text[n - 1 - k] == PAD_BYTE
        invariant
            n == text@.len(),
            s == chars_of_bytes(text@),
            0 <= k <= n,
            forall|j: int| n - k <= j < n ==> s[j] == '=',
        decreases n - k,
    {
        k += 1;
    }
    proof {
        lemma_pad_len_trailing(s, k as int);
    }
    if k > 2 {
        return Err(DecodeError::InvalidPadding);
    }
    let data_end = n - k;
    let mut j: usize = 0;
    while j < data_end
        invariant
            n == text@.len(),
            s == chars_of_bytes(text@),
            data_end == n - k,
            k <= 2,
            pad_len(s) == k,
            chars_valid(s, a),
            n % 4 == 0,
            n > 0,
            0 <= j <= data_end,
            forall|i2: int| 0 <= i2 < j ==> s[i2] != '=',
        decreases data_end - j,
    {
        if text[j] == PAD_BYTE {
            proof {
                assert(s[j as int] == '=');
                assert(!padding_valid(s));
            }
            return Err(DecodeError::InvalidPadding);
        }
        j += 1;
    }
    assert(padding_valid(s));
    let groups = n / 4;
    let mut out: Vec<u8> = Vec::new();
    let mut g: usize = 0;
    while g < groups - 1
        invariant
            n == text@.len(),
            s == chars_of_bytes(text@),
            chars_valid(s, a),
            padding_valid(s),
            pad_len(s) == k,
            data_end == n - k,
            forall|i2: int| 0 <= i2 < data_end ==> s[i2] != '=',
            forall|j2: int| n - k <= j2 < n ==> s[j2] == '=',
            k <= 2,
            n % 4 == 0,
            n > 0,
            groups == n / 4,
            0 <= g <= groups - 1,
            out@ == decode_groups(s.take(4 * g), a),
            out@.len() == 3 * g,
        decreases groups - g,
    {
        proof {
            assert(4 * g + 3 < data_end);
            assert(in_alphabet(a, s[4 * g]) && in_alphabet(a, s[4 * g + 1]) && in_alphabet(
                a,
                s[4 * g + 2],
            ) && in_alphabet(a, s[4 * g + 3]));
        }
        let i0 = expect_symbol(a, text[4 * g]);
        let i1 = expect_symbol(a, text[4 * g + 1]);
        let i2 = expect_symbol(a, text[4 * g + 2]);
        let i3 = expect_symbol(a, text[4 * g + 3]);
        let ghost old_out = out@;
        out.push(i0 * 4 + i1 / 16);
        out.push((i1 % 16) * 16 + i2 / 4);
        out.push((i2 % 4) * 64 + i3);
        proof {
            let pre = s.take(4 * g);
            let post = s.take(4 * g + 4);
            lemma_decode_split(post, g as int, a);
            assert(post.take(4 * g) =~= pre);
            let grp = post.skip(4 * g);
            assert(grp.len() == 4);
            assert(grp[0] == s[4 * g] && grp[1] == s[4 * g + 1] && grp[2] == s[4 * g + 2]
                && grp[3] == s[4 * g + 3]);
            assert(grp.skip(4) =~= Seq::<char>::empty());
            assert(decode_groups(grp.skip(4), a) =~= Seq::<u8>::empty());
            assert(decode_groups(grp, a) =~= group_bytes(a, grp[0], grp[1], grp[2], grp[3]));
            assert(out@ =~= decode_groups(post, a));
        }
        g += 1;
    }
    let base = n - 4;
    proof {
        assert(4 * (groups - 1) == base);
        assert(base + 1 < data_end);
        assert(in_alphabet(a, s[base as int]) && in_alphabet(a, s[base + 1]));
    }
    let i0 = expect_symbol(a, text[base]);
    let i1 = expect_symbol(a, text[base + 1]);
    let ghost grp = s.skip(4 * (groups - 1));
    proof {
        lemma_decode_split(s, groups - 1, a);
        assert(grp.len() == 4);
        assert(grp[0] == s[base as int] && grp[1] == s[base + 1] && grp[2] == s[base + 2]
            && grp[3] == s[base + 3]);
        assert(grp.skip(4) =~= Seq::<char>::empty());
        assert(decode_groups(grp.skip(4), a) =~= Seq::<u8>::empty());
        assert(decode_groups(grp, a) =~= group_bytes(a, grp[0], grp[1], grp[2], grp[3]));
    }
    if k == 2 {
        proof {
            assert(s[base + 2] == '=');
        }
        if i1 % 16 != 0 {
            proof {
                assert(index_of_char(a, s[base + 1]) % 16 != 0);
                assert(!trailing_bits_zero(s, a));
            }
            return Err(DecodeError::InvalidPadding);
        }
        out.push(i0 * 4 + i1 / 16);
    } else if k == 1 {
        proof {
            assert(base + 2 < data_end);
            assert(s[base + 2] != '=' && in_alphabet(a, s[base + 2]));
            assert(s[base + 3] == '=');
        }
        let i2 = expect_symbol(a, text[base + 2]);
        if i2 % 4 != 0 {
            proof {
                assert(index_of_char(a, s[base + 2]) % 4 != 0);
                assert(!trailing_bits_zero(s, a));
            }
            return Err(DecodeError::InvalidPadding);
        }
        out.push(i0 * 4 + i1 / 16);
        out.push((i1 % 16) * 16 + i2 / 4);
    } else {
        proof {
            assert(base + 3 < data_end);
            assert(s[base + 2] != '=' && in_alphabet(a, s[base + 2]));
            assert(s[base + 3] != '=' && in_alphabet(a, s[base + 3]));
        }
        let i2 = expect_symbol(a, text[base + 2]);
        let i3 = expect_symbol(a, text[base + 3]);
        out.push(i0 * 4 + i1 / 16);
        out.push((i1 % 16) * 16 + i2 / 4);
        out.push((i2 % 4) * 64 + i3);
    }
    proof {
        assert(trailing_bits_zero(s, a));
        assert(out@ =~= decode_groups(s, a));
    }
    Ok(out)
}

/// Decodes a Base64 text with the given alphabet, or reports the first
/// offending condition.
fn decode_with(encoded_data: &str, a: Alphabet) -> (r: Result<Vec<u8>, DecodeError>)
    ensures
        decoded_bytes_of(r) == decode_spec(encoded_data@, a),
{
    if !encoded_data.is_ascii() {
        proof {
            lemma_non_ascii_invalid(encoded_data@, a);
        }
        return Err(DecodeError::InvalidCharacter);
    }
    let bytes = encoded_data.as_bytes();
    proof {
        broadcast use vstd::string::is_ascii_spec_bytes;

        assert(chars_of_bytes(bytes@) =~= encoded_data@);
    }
    decode_ascii(bytes, a)
}

/// Decodes Base64 text written with the standard alphabet.
pub fn base64_decode(encoded_data: &str) -> (r: Result<Vec<u8>, DecodeError>)
    ensures
        decoded_bytes_of(r) == decode_spec(encoded_data@, Alphabet::Standard),
{
    decode_with(encoded_data, Alphabet::Standard)
}

/// Decodes Base64 text written with the URL-safe alphabet.
pub fn base64_decode_url_safe(encoded_data: &str) -> (r: Result<Vec<u8>, DecodeError>)
    ensures
        decoded_bytes_of(r) == decode_spec(encoded_data@, Alphabet::UrlSafe),
{
    decode_with(encoded_data, Alphabet::UrlSafe)
}

} // verus!
