//! Laws that hold of the codec as a whole, proved once over its
//! specification: the shape of encoded text, the round trip from bytes
//! through text and back, the exclusivity of the two alphabets, and the
//! determinism of both directions.

use vstd::prelude::*;

use crate::alphabet::Alphabet;
use crate::alphabet::char_of_index;
use crate::alphabet::in_alphabet;
use crate::alphabet::index_of_char;
use crate::alphabet::lemma_alphabet_ascii;
use crate::alphabet::lemma_char_index_inverse;
use crate::codec::DecodeError;
use crate::codec::chars_valid;
use crate::codec::decode_groups;
use crate::codec::decode_spec;
use crate::codec::encode_spec;
use crate::codec::group_bytes;
use crate::codec::lemma_pad_len_append;
use crate::codec::lemma_pad_len_suffix;
use crate::codec::pad_len;
use crate::codec::padding_valid;
use crate::codec::trailing_bits_zero;
use crate::alphabet::lemma_index_char_inverse;

verus! {

/// The trailing padding of four characters whose last two are `=`.
proof fn lemma_pad_len_two(c0: char, c1: char)
    requires
        c1 != '=',
    ensures
        pad_len(seq![c0, c1, '=', '=']) == 2,
{
    let e = seq![c0, c1, '=', '='];
    assert(e.drop_last() =~= seq![c0, c1, '=']);
    assert(seq![c0, c1, '='].drop_last() =~= seq![c0, c1]);
    assert(pad_len(seq![c0, c1]) == 0);
    assert(pad_len(seq![c0, c1, '=']) == 1);
    assert(pad_len(e) == 2);
}

/// The trailing padding of four characters whose last alone is `=`.
proof fn lemma_pad_len_one(c0: char, c1: char, c2: char)
    requires
        c2 != '=',
    ensures
        pad_len(seq![c0, c1, c2, '=']) == 1,
{
    let e = seq![c0, c1, c2, '='];
    assert(e.drop_last() =~= seq![c0, c1, c2]);
    assert(pad_len(seq![c0, c1, c2]) == 0);
    assert(pad_len(e) == 1);
}

/// Encoded text always has the published shape: its length is four times the
/// number of byte groups, rounded up; a buffer of length 1 modulo 3 ends in
/// two `=`, of length 2 modulo 3 in one, of a whole number of groups in none;
/// and every character before the padding is a symbol of the alphabet, with
/// the bits that the padding discards emitted as zero. An empty buffer
/// encodes to the empty text.
#[verifier::rlimit(50)]
pub proof fn lemma_encode_shape(b: Seq<u8>, a: Alphabet)
    ensures
        encode_spec(b, a).len() == 4 * ((b.len() + 2) / 3),
        b.len() % 3 == 0 ==> pad_len(encode_spec(b, a)) == 0,
        b.len() % 3 == 1 ==> pad_len(encode_spec(b, a)) == 2,
        b.len() % 3 == 2 ==> pad_len(encode_spec(b, a)) == 1,
        chars_valid(encode_spec(b, a), a),
        padding_valid(encode_spec(b, a)),
        trailing_bits_zero(encode_spec(b, a), a),
        forall|i: int|
            0 <= i < encode_spec(b, a).len() - pad_len(encode_spec(b, a)) ==> in_alphabet(
                a,
                encode_spec(b, a)[i],
            ),
    decreases b.len(),
{
    let e = encode_spec(b, a);
    if b.len() == 0 {
        assert(e.len() == 0);
    } else if b.len() == 1 {
        let b0 = b[0] as int;
        lemma_char_index_inverse(a, b0 / 4);
        lemma_char_index_inverse(a, (b0 % 4) * 16);
        lemma_alphabet_ascii(a, char_of_index(a, b0 / 4));
        lemma_alphabet_ascii(a, char_of_index(a, (b0 % 4) * 16));
        lemma_pad_len_two(char_of_index(a, b0 / 4), char_of_index(a, (b0 % 4) * 16));
        assert(((b0 % 4) * 16) % 16 == 0);
    } else if b.len() == 2 {
        let b0 = b[0] as int;
        let b1 = b[1] as int;
        lemma_char_index_inverse(a, b0 / 4);
        lemma_char_index_inverse(a, (b0 % 4) * 16 + b1 / 16);
        lemma_char_index_inverse(a, (b1 % 16) * 4);
        lemma_alphabet_ascii(a, char_of_index(a, b0 / 4));
        lemma_alphabet_ascii(a, char_of_index(a, (b0 % 4) * 16 + b1 / 16));
        lemma_alphabet_ascii(a, char_of_index(a, (b1 % 16) * 4));
        lemma_pad_len_one(
            char_of_index(a, b0 / 4),
            char_of_index(a, (b0 % 4) * 16 + b1 / 16),
            char_of_index(a, (b1 % 16) * 4),
        );
        assert(((b1 % 16) * 4) % 4 == 0);
    } else {
        let b0 = b[0] as int;
        let b1 = b[1] as int;
        let b2 = b[2] as int;
        let i0 = b0 / 4;
        let i1 = (b0 % 4) * 16 + b1 / 16;
        let i2 = (b1 % 16) * 4 + b2 / 64;
        let i3 = b2 % 64;
        lemma_char_index_inverse(a, i0);
        lemma_char_index_inverse(a, i1);
        lemma_char_index_inverse(a, i2);
        lemma_char_index_inverse(a, i3);
        lemma_alphabet_ascii(a, char_of_index(a, i0));
        lemma_alphabet_ascii(a, char_of_index(a, i1));
        lemma_alphabet_ascii(a, char_of_index(a, i2));
        lemma_alphabet_ascii(a, char_of_index(a, i3));
        let grp = seq![
            char_of_index(a, i0),
            char_of_index(a, i1),
            char_of_index(a, i2),
            char_of_index(a, i3),
        ];
        let rest = encode_spec(b.skip(3), a);
        assert(e =~= grp + rest);
        lemma_encode_shape(b.skip(3), a);
        assert(b.skip(3).len() == b.len() - 3);
        assert((b.len() + 2) / 3 == (b.len() - 1) / 3 + 1);
        assert(b.len() % 3 == (b.len() - 3) % 3);
        if b.len() == 3 {
            assert(rest.len() == 0);
            assert(e =~= grp);
            assert(e.drop_last() =~= seq![
                char_of_index(a, i0),
                char_of_index(a, i1),
                char_of_index(a, i2),
            ]);
            assert(pad_len(e) == 0);
        } else {
            assert(rest.len() >= 4);
            lemma_pad_len_append(grp, rest);
            assert(pad_len(e) == pad_len(rest));
            assert(trailing_bits_zero(e, a)) by {
                if pad_len(e) == 2 {
                    assert(e[e.len() - 3] == rest[rest.len() - 3]);
                }
                if pad_len(e) == 1 {
                    assert(e[e.len() - 2] == rest[rest.len() - 2]);
                }
            }
        }
        assert(chars_valid(e, a)) by {
            assert(forall|i: int|
                0 <= i < e.len() ==> #[trigger] e[i] == if i < 4 {
                    grp[i]
                } else {
                    rest[i - 4]
                });
        }
        assert(forall|i: int|
            0 <= i < e.len() - pad_len(e) ==> in_alphabet(a, #[trigger] e[i])) by {
            assert(forall|i: int|
                0 <= i < e.len() ==> #[trigger] e[i] == if i < 4 {
                    grp[i]
                } else {
                    rest[i - 4]
                });
        }
    }
}

/// The four indices cut from a three-byte group reassemble to those bytes.
proof fn lemma_group_roundtrip(a: Alphabet, b0: int, b1: int, b2: int)
    requires
        0 <= b0 < 256,
        0 <= b1 < 256,
        0 <= b2 < 256,
    ensures
        group_bytes(
            a,
            char_of_index(a, b0 / 4),
            char_of_index(a, (b0 % 4) * 16 + b1 / 16),
            char_of_index(a, (b1 % 16) * 4 + b2 / 64),
            char_of_index(a, b2 % 64),
        ) =~= seq![b0 as u8, b1 as u8, b2 as u8],
{
    let i0 = b0 / 4;
    let i1 = (b0 % 4) * 16 + b1 / 16;
    let i2 = (b1 % 16) * 4 + b2 / 64;
    let i3 = b2 % 64;
    lemma_char_index_inverse(a, i0);
    lemma_char_index_inverse(a, i1);
    lemma_char_index_inverse(a, i2);
    lemma_char_index_inverse(a, i3);
    lemma_alphabet_ascii(a, char_of_index(a, i2));
    lemma_alphabet_ascii(a, char_of_index(a, i3));
    assert(i1 / 16 == b0 % 4 && i1 % 16 == b1 / 16) by (nonlinear_arith)
        requires
            i1 == (b0 % 4) * 16 + b1 / 16 && 0 <= b0 < 256 && 0 <= b1 < 256,
    ;
    assert(i2 / 4 == b1 % 16 && i2 % 4 == b2 / 64) by (nonlinear_arith)
        requires
            i2 == (b1 % 16) * 4 + b2 / 64 && 0 <= b1 < 256 && 0 <= b2 < 256,
    ;
    assert((b0 / 4) * 4 + b0 % 4 == b0);
    assert((b1 / 16) * 16 + b1 % 16 == b1);
    assert((b2 / 64) * 64 + b2 % 64 == b2);
}

/// The first two indices cut from a single trailing byte reassemble to it.
proof fn lemma_tail_roundtrip(b0: int, b1: int)
    requires
        0 <= b0 < 256,
        0 <= b1 < 256,
    ensures
        (b0 / 4) * 4 + ((b0 % 4) * 16 + b1 / 16) / 16 == b0,
        ((((b0 % 4) * 16 + b1 / 16) % 16) * 16 + ((b1 % 16) * 4) / 4) == (b1 / 16) * 16 + b1 % 16,
{
    let i1 = (b0 % 4) * 16 + b1 / 16;
    assert(i1 / 16 == b0 % 4 && i1 % 16 == b1 / 16) by (nonlinear_arith)
        requires
            i1 == (b0 % 4) * 16 + b1 / 16 && 0 <= b0 < 256 && 0 <= b1 < 256,
    ;
    assert(((b1 % 16) * 4) / 4 == b1 % 16) by (nonlinear_arith)
        requires
            0 <= b1 < 256,
    ;
    assert((b0 / 4) * 4 + b0 % 4 == b0);
}

/// Round trip: decoding the text that encodes any byte buffer, against the
/// same alphabet, succeeds and returns exactly that buffer.
#[verifier::rlimit(50)]
pub proof fn lemma_round_trip(b: Seq<u8>, a: Alphabet)
    ensures
        decode_spec(encode_spec(b, a), a) == Ok::<Seq<u8>, DecodeError>(b),
    decreases b.len(),
{
    let e = encode_spec(b, a);
    lemma_encode_shape(b, a);
    assert(e.len() % 4 == 0);
    if b.len() == 0 {
        assert(decode_groups(e, a) =~= b);
    } else if b.len() == 1 {
        let b0 = b[0] as int;
        let c0 = char_of_index(a, b0 / 4);
        let c1 = char_of_index(a, (b0 % 4) * 16);
        lemma_char_index_inverse(a, b0 / 4);
        lemma_char_index_inverse(a, (b0 % 4) * 16);
        lemma_alphabet_ascii(a, c1);
        assert(e.skip(4) =~= Seq::<char>::empty());
        assert(decode_groups(e.skip(4), a) =~= Seq::<u8>::empty());
        assert(((b0 % 4) * 16) / 16 == b0 % 4) by (nonlinear_arith)
            requires
                0 <= b0 < 256,
        ;
        assert((b0 / 4) * 4 + b0 % 4 == b0);
        assert(group_bytes(a, e[0], e[1], e[2], e[3]) =~= seq![b[0]]);
        assert(decode_groups(e, a) =~= b);
    } else if b.len() == 2 {
        let b0 = b[0] as int;
        let b1 = b[1] as int;
        let c1 = char_of_index(a, (b0 % 4) * 16 + b1 / 16);
        let c2 = char_of_index(a, (b1 % 16) * 4);
        lemma_char_index_inverse(a, b0 / 4);
        lemma_char_index_inverse(a, (b0 % 4) * 16 + b1 / 16);
        lemma_char_index_inverse(a, (b1 % 16) * 4);
        lemma_alphabet_ascii(a, c2);
        assert(e.skip(4) =~= Seq::<char>::empty());
        assert(decode_groups(e.skip(4), a) =~= Seq::<u8>::empty());
        lemma_tail_roundtrip(b0, b1);
        assert((b1 / 16) * 16 + b1 % 16 == b1);
        assert(group_bytes(a, e[0], e[1], e[2], e[3]) =~= seq![b[0], b[1]]);
        assert(decode_groups(e, a) =~= b);
    } else {
        let b0 = b[0] as int;
        let b1 = b[1] as int;
        let b2 = b[2] as int;
        let rest = encode_spec(b.skip(3), a);
        lemma_round_trip(b.skip(3), a);
        lemma_encode_shape(b.skip(3), a);
        assert(decode_spec(rest, a) == Ok::<Seq<u8>, DecodeError>(b.skip(3)));
        assert(decode_groups(rest, a) == b.skip(3));
        lemma_group_roundtrip(a, b0, b1, b2);
        assert(e.skip(4) =~= rest);
        assert(e[0] == char_of_index(a, b0 / 4) && e[1] == char_of_index(
            a,
            (b0 % 4) * 16 + b1 / 16,
        ) && e[2] == char_of_index(a, (b1 % 16) * 4 + b2 / 64) && e[3] == char_of_index(
            a,
            b2 % 64,
        ));
        assert(decode_groups(e, a) =~= b);
    }
}

/// Reassembling bytes from four 6-bit values cuts back into those values.
proof fn lemma_group_indices(i0: int, i1: int, i2: int, i3: int)
    requires
        0 <= i0 < 64,
        0 <= i1 < 64,
        0 <= i2 < 64,
        0 <= i3 < 64,
    ensures
        0 <= i0 * 4 + i1 / 16 < 256,
        0 <= (i1 % 16) * 16 + i2 / 4 < 256,
        0 <= (i2 % 4) * 64 + i3 < 256,
        (i0 * 4 + i1 / 16) / 4 == i0,
        ((i0 * 4 + i1 / 16) % 4) * 16 + ((i1 % 16) * 16 + i2 / 4) / 16 == i1,
        (((i1 % 16) * 16 + i2 / 4) % 16) * 4 + ((i2 % 4) * 64 + i3) / 64 == i2,
        ((i2 % 4) * 64 + i3) % 64 == i3,
        i1 % 16 == 0 ==> ((i0 * 4 + i1 / 16) % 4) * 16 == i1,
        i2 % 4 == 0 ==> (((i1 % 16) * 16 + i2 / 4) % 16) * 4 == i2,
{
    let x0 = i0 * 4 + i1 / 16;
    let x1 = (i1 % 16) * 16 + i2 / 4;
    let x2 = (i2 % 4) * 64 + i3;
    assert(x0 / 4 == i0 && x0 % 4 == i1 / 16) by (nonlinear_arith)
        requires
            x0 == i0 * 4 + i1 / 16 && 0 <= i0 < 64 && 0 <= i1 < 64,
    ;
    assert(x1 / 16 == i1 % 16 && x1 % 16 == i2 / 4) by (nonlinear_arith)
        requires
            x1 == (i1 % 16) * 16 + i2 / 4 && 0 <= i1 < 64 && 0 <= i2 < 64,
    ;
    assert(x2 / 64 == i2 % 4 && x2 % 64 == i3) by (nonlinear_arith)
        requires
            x2 == (i2 % 4) * 64 + i3 && 0 <= i2 < 64 && 0 <= i3 < 64,
    ;
    assert((i1 / 16) * 16 + i1 % 16 == i1);
    assert((i2 / 4) * 4 + i2 % 4 == i2);
}

/// Decode accepts only text that encode reproduces: whenever decoding
/// succeeds, encoding the decoded bytes with the same alphabet yields exactly
/// the input text, so non-canonical encodings are never accepted silently.
#[verifier::rlimit(100)]
pub proof fn lemma_decode_canonical(s: Seq<char>, b: Seq<u8>, a: Alphabet)
    requires
        decode_spec(s, a) == Ok::<Seq<u8>, DecodeError>(b),
    ensures
        encode_spec(b, a) == s,
    decreases s.len(),
{
    assert(chars_valid(s, a));
    assert(s.len() % 4 == 0);
    assert(padding_valid(s));
    assert(trailing_bits_zero(s, a));
    assert(b == decode_groups(s, a));
    lemma_pad_len_suffix(s);
    if s.len() == 0 {
        assert(b =~= Seq::<u8>::empty());
        assert(encode_spec(b, a) =~= s);
    } else if s.len() == 4 {
        let k = pad_len(s);
        let i0 = index_of_char(a, s[0]);
        let i1 = index_of_char(a, s[1]);
        assert(s[0] != '=' && s[1] != '=' && in_alphabet(a, s[0]) && in_alphabet(a, s[1]));
        lemma_index_char_inverse(a, s[0]);
        lemma_index_char_inverse(a, s[1]);
        assert(s.skip(4) =~= Seq::<char>::empty());
        assert(decode_groups(s.skip(4), a) =~= Seq::<u8>::empty());
        if k == 2 {
            assert(s[2] == '=' && s[3] == '=');
            assert(i1 % 16 == 0);
            lemma_group_indices(i0, i1, 0, 0);
            let x0 = i0 * 4 + i1 / 16;
            assert(b =~= seq![x0 as u8]);
            assert(encode_spec(b, a) =~= s);
        } else if k == 1 {
            assert(s[3] == '=' && s[2] != '=' && in_alphabet(a, s[2]));
            let i2 = index_of_char(a, s[2]);
            lemma_index_char_inverse(a, s[2]);
            assert(i2 % 4 == 0);
            lemma_group_indices(i0, i1, i2, 0);
            let x0 = i0 * 4 + i1 / 16;
            let x1 = (i1 % 16) * 16 + i2 / 4;
            assert(b =~= seq![x0 as u8, x1 as u8]);
            assert(encode_spec(b, a) =~= s);
        } else {
            assert(s[2] != '=' && s[3] != '=' && in_alphabet(a, s[2]) && in_alphabet(a, s[3]));
            let i2 = index_of_char(a, s[2]);
            let i3 = index_of_char(a, s[3]);
            lemma_index_char_inverse(a, s[2]);
            lemma_index_char_inverse(a, s[3]);
            lemma_group_indices(i0, i1, i2, i3);
            let x0 = i0 * 4 + i1 / 16;
            let x1 = (i1 % 16) * 16 + i2 / 4;
            let x2 = (i2 % 4) * 64 + i3;
            assert(b =~= seq![x0 as u8, x1 as u8, x2 as u8]);
            assert(b.skip(3) =~= Seq::<u8>::empty());
            assert(encode_spec(b.skip(3), a) =~= Seq::<char>::empty());
            assert(encode_spec(b, a) =~= s);
        }
    } else {
        let k = pad_len(s);
        let rest = s.skip(4);
        assert(s.len() >= 8);
        assert(s[0] != '=' && s[1] != '=' && s[2] != '=' && s[3] != '=');
        assert(in_alphabet(a, s[0]) && in_alphabet(a, s[1]) && in_alphabet(a, s[2])
            && in_alphabet(a, s[3]));
        let i0 = index_of_char(a, s[0]);
        let i1 = index_of_char(a, s[1]);
        let i2 = index_of_char(a, s[2]);
        let i3 = index_of_char(a, s[3]);
        lemma_index_char_inverse(a, s[0]);
        lemma_index_char_inverse(a, s[1]);
        lemma_index_char_inverse(a, s[2]);
        lemma_index_char_inverse(a, s[3]);
        lemma_group_indices(i0, i1, i2, i3);
        let x0 = i0 * 4 + i1 / 16;
        let x1 = (i1 % 16) * 16 + i2 / 4;
        let x2 = (i2 % 4) * 64 + i3;
        // the tail is itself a decodable text with the same padding
        assert(chars_valid(rest, a));
        assert(rest.len() % 4 == 0);
        crate::codec::lemma_pad_len_trailing(rest, k);
        assert(padding_valid(rest));
        assert(trailing_bits_zero(rest, a)) by {
            if k == 2 {
                assert(rest[rest.len() - 3] == s[s.len() - 3]);
            }
            if k == 1 {
                assert(rest[rest.len() - 2] == s[s.len() - 2]);
            }
        }
        let b_rest = decode_groups(rest, a);
        assert(decode_spec(rest, a) == Ok::<Seq<u8>, DecodeError>(b_rest));
        lemma_decode_canonical(rest, b_rest, a);
        assert(b =~= seq![x0 as u8, x1 as u8, x2 as u8] + b_rest);
        assert(b.skip(3) =~= b_rest);
        assert(b.len() >= 3);
        assert(encode_spec(b, a) =~= s);
    }
}

/// Decoding succeeds exactly on the texts that encoding produces: a text
/// decodes against an alphabet if and only if it is the encoding of some
/// byte buffer under that alphabet.
pub proof fn lemma_decode_succeeds_iff_encoding(s: Seq<char>, a: Alphabet)
    ensures
        (decode_spec(s, a) is Ok) <==> (exists|b: Seq<u8>| s == encode_spec(b, a)),
{
    if decode_spec(s, a) is Ok {
        let b = decode_spec(s, a)->Ok_0;
        lemma_decode_canonical(s, b, a);
        assert(s == encode_spec(b, a));
    }
    if exists|b: Seq<u8>| s == encode_spec(b, a) {
        let b = choose|b: Seq<u8>| s == encode_spec(b, a);
        lemma_round_trip(b, a);
    }
}

/// The alphabets are not interchangeable: a text with `+` or `/` fails to
/// decode against the URL-safe alphabet with `InvalidCharacter`, and a text
/// with `-` or `_` fails the same way against the standard alphabet.
pub proof fn lemma_alphabet_exclusive(s: Seq<char>)
    ensures
        (exists|i: int| 0 <= i < s.len() && (s[i] == '+' || s[i] == '/')) ==> decode_spec(
            s,
            Alphabet::UrlSafe,
        ) == Err::<Seq<u8>, DecodeError>(DecodeError::InvalidCharacter),
        (exists|i: int| 0 <= i < s.len() && (s[i] == '-' || s[i] == '_')) ==> decode_spec(
            s,
            Alphabet::Standard,
        ) == Err::<Seq<u8>, DecodeError>(DecodeError::InvalidCharacter),
{
    if exists|i: int| 0 <= i < s.len() && (s[i] == '+' || s[i] == '/') {
        let w = choose|i: int| 0 <= i < s.len() && (s[i] == '+' || s[i] == '/');
        assert(index_of_char(Alphabet::UrlSafe, s[w]) < 0);
        assert(!chars_valid(s, Alphabet::UrlSafe));
    }
    if exists|i: int| 0 <= i < s.len() && (s[i] == '-' || s[i] == '_') {
        let w = choose|i: int| 0 <= i < s.len() && (s[i] == '-' || s[i] == '_');
        assert(index_of_char(Alphabet::Standard, s[w]) < 0);
        assert(!chars_valid(s, Alphabet::Standard));
    }
}

/// Encoding is deterministic: the text is a function of the buffer and the
/// alphabet alone, so equal inputs always encode to equal text.
pub proof fn lemma_encode_deterministic(b1: Seq<u8>, b2: Seq<u8>, a: Alphabet)
    requires
        b1 == b2,
    ensures
        encode_spec(b1, a) == encode_spec(b2, a),
{
}

/// Decoding is deterministic: the result is a function of the text and the
/// alphabet alone, so equal inputs always decode to equal results.
pub proof fn lemma_decode_deterministic(s1: Seq<char>, s2: Seq<char>, a: Alphabet)
    requires
        s1 == s2,
    ensures
        decode_spec(s1, a) == decode_spec(s2, a),
{
}

} // verus!
