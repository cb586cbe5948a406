//! Packing text into six-bit form.

use vstd::prelude::*;
use vstd::string::StringSliceAdditionalSpecFns;
use vstd::utf8::{encode_scalar, encode_utf8, has_width_1_encoding, is_ascii_chars};
use crate::Error;
use crate::model::{
    encoded, is_sixbit_char, lemma_pack_bits, lemma_packed_len, packed_byte, spec_encode, valid_text,
    value_at, ASCII_LAST, ASCII_OFFSET,
};

verus! {

broadcast use vstd::string::is_ascii_spec_bytes;

/// A character outside ASCII encodes to a UTF-8 leading byte of at least
/// `0xC0`, so text whose UTF-8 bytes all lie below 128 is ASCII.
proof fn lemma_low_bytes_ascii(chars: Seq<char>)
    requires
        forall|i: int| 0 <= i < encode_utf8(chars).len() ==> #[trigger] encode_utf8(chars)[i] < 128,
    ensures
        is_ascii_chars(chars),
    decreases chars.len(),
{
    if chars.len() > 0 {
        let c = chars[0] as u32;
        let e = encode_scalar(c);
        let rest = encode_utf8(chars.drop_first());
        assert(encode_utf8(chars) == e + rest);
        assert(encode_utf8(chars)[0] == e[0]);
        if !has_width_1_encoding(c) {
            let x2 = ((c >> 6u32) & 0x1Fu32) as u8;
            let x3 = ((c >> 12u32) & 0x0Fu32) as u8;
            let x4 = ((c >> 18u32) & 0x7u32) as u8;
            assert((0xC0u8 | x2) >= 0xC0u8) by (bit_vector);
            assert((0xE0u8 | x3) >= 0xC0u8) by (bit_vector);
            assert((0xF0u8 | x4) >= 0xC0u8) by (bit_vector);
            assert(e[0] >= 0xC0);
            assert(false);
        }
        assert(e.len() == 1);
        assert forall|i: int| 0 <= i < rest.len() implies #[trigger] rest[i] < 128 by {
            assert(rest[i] == encode_utf8(chars)[i + 1]);
        }
        lemma_low_bytes_ascii(chars.drop_first());
        assert forall|i: int| 0 <= i < chars.len() implies '\0' <= #[trigger] chars[i] <= '\u{7f}' by {
            if i > 0 {
                assert(chars[i] == chars.drop_first()[i - 1]);
            } else {
                vstd::utf8::char_u32_cast(chars[0], c);
                assert((c as char) == chars[0]);
                assert(c <= 0x7f);
            }
        }
    }
}

/// Whether every code in `codes` lies in the six-bit range.
fn all_in_range(codes: &[u8]) -> (r: bool)
    ensures
        r == forall|i: int| 0 <= i < codes@.len() ==> ASCII_OFFSET <= #[trigger] codes@[i] <= ASCII_LAST,
{
    let mut i: usize = 0;
    while i < codes.len()
        invariant
            i <= codes@.len(),
            forall|k: int| 0 <= k < i ==> ASCII_OFFSET <= #[trigger] codes@[k] <= ASCII_LAST,
        decreases codes@.len() - i,
    {
        let code = codes[i];
        if !(ASCII_OFFSET <= code && code <= ASCII_LAST) {
            return false;
        }
        i = i + 1;
    }
    true
}

/// Packs a text whose characters all have six-bit codes.
fn pack(text: &str) -> (bytes: Vec<u8>)
    requires
        valid_text(text@),
    ensures
        bytes@ == encoded(text@),
{
    let ghost s = text@;
    let codes = text.as_bytes();
    proof {
        assert(vstd::string::is_ascii(text));
    }
    assert(codes@.len() == s.len());
    assert forall|i: int| 0 <= i < s.len() implies codes@[i] as int == s[i] as int && ASCII_OFFSET <= codes@[i] <= ASCII_LAST by {
        assert(is_sixbit_char(s[i]));
    }
    let len = codes.len();
    let full_chunks = len / 4;
    let remaining = len % 4;
    proof {
        lemma_packed_len(len as nat);
    }
    let mut bytes: Vec<u8> = Vec::with_capacity(len / 4 * 3 + remaining);

    let mut chunk_idx: usize = 0;
    while chunk_idx < full_chunks
        invariant
            s == text@,
            codes@.len() == s.len(),
            len == s.len(),
            full_chunks == len / 4,
            forall|i: int| 0 <= i < s.len() ==> codes@[i] as int == #[trigger] s[i] as int,
            forall|i: int| 0 <= i < s.len() ==> ASCII_OFFSET <= #[trigger] codes@[i] <= ASCII_LAST,
            chunk_idx <= full_chunks,
            bytes@.len() == 3 * chunk_idx,
            forall|j: int| 0 <= j < bytes@.len() ==> #[trigger] bytes@[j] == packed_byte(s, j),
        decreases full_chunks - chunk_idx,
    {
        let start = chunk_idx * 4;
        let a = codes[start] - ASCII_OFFSET;
        let b = codes[start + 1] - ASCII_OFFSET;
        let c = codes[start + 2] - ASCII_OFFSET;
        let d = codes[start + 3] - ASCII_OFFSET;
        proof {
            lemma_pack_bits(a, b, c, d);
        }
        let ghost g = chunk_idx as int;
        assert(value_at(s, 4 * g) == a);
        assert(value_at(s, 4 * g + 1) == b);
        assert(value_at(s, 4 * g + 2) == c);
        assert(value_at(s, 4 * g + 3) == d);
        bytes.push((a << 2u8) | (b >> 4u8));
        bytes.push(((b & 15u8) << 4u8) | (c >> 2u8));
        bytes.push(((c & 3u8) << 6u8) | d);
        assert((3 * g) / 3 == g && (3 * g) % 3 == 0);
        assert((3 * g + 1) / 3 == g && (3 * g + 1) % 3 == 1);
        assert((3 * g + 2) / 3 == g && (3 * g + 2) % 3 == 2);
        chunk_idx = chunk_idx + 1;
    }

    let start = full_chunks * 4;
    let ghost g = full_chunks as int;
    assert(value_at(s, 4 * g + remaining) == 0);
    assert(value_at(s, 4 * g + 3) == 0);
    if remaining == 3 {
        let a = codes[start] - ASCII_OFFSET;
        let b = codes[start + 1] - ASCII_OFFSET;
        let c = codes[start + 2] - ASCII_OFFSET;
        proof {
            lemma_pack_bits(a, b, c, 0);
        }
        assert(value_at(s, 4 * g) == a);
        assert(value_at(s, 4 * g + 1) == b);
        assert(value_at(s, 4 * g + 2) == c);
        bytes.push((a << 2u8) | (b >> 4u8));
        bytes.push(((b & 15u8) << 4u8) | (c >> 2u8));
        bytes.push((c & 3u8) << 6u8);
        assert((3 * g) / 3 == g && (3 * g) % 3 == 0);
        assert((3 * g + 1) / 3 == g && (3 * g + 1) % 3 == 1);
        assert((3 * g + 2) / 3 == g && (3 * g + 2) % 3 == 2);
    } else if remaining == 2 {
        let a = codes[start] - ASCII_OFFSET;
        let b = codes[start + 1] - ASCII_OFFSET;
        proof {
            lemma_pack_bits(a, b, 0, 0);
        }
        assert(value_at(s, 4 * g) == a);
        assert(value_at(s, 4 * g + 1) == b);
        assert(value_at(s, 4 * g + 2) == 0);
        bytes.push((a << 2u8) | (b >> 4u8));
        bytes.push((b & 15u8) << 4u8);
        assert((3 * g) / 3 == g && (3 * g) % 3 == 0);
        assert((3 * g + 1) / 3 == g && (3 * g + 1) % 3 == 1);
    } else if remaining == 1 {
        let a = codes[start] - ASCII_OFFSET;
        proof {
            lemma_pack_bits(a, 0, 0, 0);
        }
        assert(value_at(s, 4 * g) == a);
        assert(value_at(s, 4 * g + 1) == 0);
        bytes.push(a << 2u8);
        assert((3 * g) / 3 == g && (3 * g) % 3 == 0);
    }
    assert(bytes@ =~= encoded(s));
    bytes
}

/// Packs `str` into six bits per character and returns the packed bytes with
/// the character count.
///
/// Fails with `InvalidCharacter` where any character lies outside space (32)
/// through underscore (95); no partial output is returned.
pub fn encode(str: &str) -> (r: Result<(Vec<u8>, usize), Error>)
    ensures
        r is Ok <==> valid_text(str@),
        r matches Ok((bytes, len)) ==> bytes@ == encoded(str@) && len == str@.len(),
        r matches Ok((bytes, len)) ==> bytes@.len() == (str@.len() * 3 + 3) / 4,
        r is Ok <==> forall|i: int|
            0 <= i < str.spec_bytes().len() ==> ASCII_OFFSET <= #[trigger] str.spec_bytes()[i] <= ASCII_LAST,
        r matches Err(e) ==> e == Error::InvalidCharacter,
        match r {
            Ok((bytes, len)) => spec_encode(str@) == Ok::<(Seq<u8>, nat), Error>((bytes@, len as nat)),
            Err(e) => spec_encode(str@) == Err::<(Seq<u8>, nat), Error>(e),
        },
{
    if !str.is_ascii() {
        proof {
            assert(!vstd::string::is_ascii(str));
            let i = choose|i: int| 0 <= i < str@.len() && !('\0' <= #[trigger] str@[i] <= '\u{7f}');
            assert(!is_sixbit_char(str@[i]));
            if forall|j: int|
                0 <= j < str.spec_bytes().len() ==> ASCII_OFFSET <= #[trigger] str.spec_bytes()[j] <= ASCII_LAST {
                assert forall|j: int| 0 <= j < encode_utf8(str@).len() implies #[trigger] encode_utf8(str@)[j] < 128 by {
                    assert(ASCII_OFFSET <= str.spec_bytes()[j] <= ASCII_LAST);
                }
                lemma_low_bytes_ascii(str@);
            }
        }
        return Err(Error::InvalidCharacter);
    }
    let codes = str.as_bytes();
    assert(codes@.len() == str@.len());
    if !all_in_range(codes) {
        proof {
            let i = choose|i: int| 0 <= i < codes@.len() && !(ASCII_OFFSET <= #[trigger] codes@[i] <= ASCII_LAST);
            assert(codes@[i] as int == str@[i] as int);
            assert(!is_sixbit_char(str@[i]));
        }
        return Err(Error::InvalidCharacter);
    }
    assert forall|i: int| 0 <= i < str@.len() implies is_sixbit_char(#[trigger] str@[i]) by {
        assert(codes@[i] as int == str@[i] as int);
        assert(ASCII_OFFSET <= codes@[i] <= ASCII_LAST);
    }
    let len = codes.len();
    Ok((pack(str), len))
}

/// Packs `str` without checking its characters.
///
/// Every character of `str` must lie in space (32) through underscore (95).
pub fn encode_unchecked(str: &str) -> (r: (Vec<u8>, usize))
    requires
        valid_text(str@),
    ensures
        r.0@ == encoded(str@),
        r.1 == str@.len(),
        r.0@.len() == (str@.len() * 3 + 3) / 4,
{
    proof {
        assert(vstd::string::is_ascii(str));
    }
    let len = str.as_bytes().len();
    (pack(str), len)
}

} // verus!
