//! Unpacking six-bit bytes back into text.

use vstd::prelude::*;
use crate::Error;
use crate::model::{
    byte_at, decoded, decoded_codes, lemma_packed_len, lemma_unpack_bits, packed_len, spec_decode,
    text_of_codes, unpacked_value, valid_text, ASCII_OFFSET,
};
use crate::laws::lemma_decoded_valid;

verus! {

/// Relies on `String::from_utf8`: a byte buffer of ASCII codes is valid UTF-8
/// and reads as one character per byte.
#[verifier::external_body]
fn ascii_string(codes: Vec<u8>) -> (r: String)
    requires
        forall|i: int| 0 <= i < codes@.len() ==> #[trigger] codes@[i] < 128,
    ensures
        r@ == text_of_codes(codes@),
{
    match String::from_utf8(codes) {
        Ok(s) => s,
        Err(_) => String::new(),
    }
}

/// The character codes of `len` characters unpacked from the first
/// `ceil(len * 3 / 4)` bytes of `bytes`.
pub(crate) fn unpack(bytes: &[u8], len: usize) -> (codes: Vec<u8>)
    requires
        packed_len(len as nat) <= bytes@.len(),
    ensures
        codes@ == decoded_codes(bytes@, len as nat),
        forall|k: int| 0 <= k < codes@.len() ==> #[trigger] codes@[k] < 128,
{
    let ghost b = bytes@;
    proof {
        lemma_packed_len(len as nat);
    }
    let mut result: Vec<u8> = Vec::with_capacity(len);
    let full_chunks = len / 4;
    let remaining_chars = len % 4;

    let mut chunk_idx: usize = 0;
    while chunk_idx < full_chunks
        invariant
            b == bytes@,
            full_chunks == len / 4,
            3 * full_chunks <= b.len(),
            chunk_idx <= full_chunks,
            result@.len() == 4 * chunk_idx,
            forall|k: int|
                0 <= k < result@.len() ==> #[trigger] result@[k] == (unpacked_value(b, k) + ASCII_OFFSET) as u8,
            forall|k: int| 0 <= k < result@.len() ==> #[trigger] result@[k] < 128,
        decreases full_chunks - chunk_idx,
    {
        let byte_idx = chunk_idx * 3;
        let x = bytes[byte_idx];
        let y = bytes[byte_idx + 1];
        let z = bytes[byte_idx + 2];
        proof {
            lemma_unpack_bits(x, y, z);
        }
        let ghost g = chunk_idx as int;
        assert(byte_at(b, 3 * g) == x && byte_at(b, 3 * g + 1) == y && byte_at(b, 3 * g + 2) == z);
        assert((4 * g) / 4 == g && (4 * g) % 4 == 0);
        assert((4 * g + 1) / 4 == g && (4 * g + 1) % 4 == 1);
        assert((4 * g + 2) / 4 == g && (4 * g + 2) % 4 == 2);
        assert((4 * g + 3) / 4 == g && (4 * g + 3) % 4 == 3);
        result.push((x >> 2u8) + ASCII_OFFSET);
        result.push((((x & 3u8) << 4u8) | (y >> 4u8)) + ASCII_OFFSET);
        result.push((((y & 15u8) << 2u8) | (z >> 6u8)) + ASCII_OFFSET);
        result.push((z & 63u8) + ASCII_OFFSET);
        chunk_idx = chunk_idx + 1;
    }

    let start_byte = full_chunks * 3;
    let ghost g = full_chunks as int;
    assert((4 * g) / 4 == g && (4 * g) % 4 == 0);
    assert((4 * g + 1) / 4 == g && (4 * g + 1) % 4 == 1);
    assert((4 * g + 2) / 4 == g && (4 * g + 2) % 4 == 2);
    if remaining_chars >= 1 {
        let x = bytes[start_byte];
        proof {
            lemma_unpack_bits(x, 0, 0);
        }
        assert(byte_at(b, 3 * g) == x);
        result.push((x >> 2u8) + ASCII_OFFSET);
        if remaining_chars >= 2 {
            let y = bytes[start_byte + 1];
            proof {
                lemma_unpack_bits(x, y, 0);
            }
            assert(byte_at(b, 3 * g + 1) == y);
            result.push((((x & 3u8) << 4u8) | (y >> 4u8)) + ASCII_OFFSET);
            if remaining_chars == 3 {
                let z = bytes[start_byte + 2];
                proof {
                    lemma_unpack_bits(x, y, z);
                }
                assert(byte_at(b, 3 * g + 2) == z);
                result.push((((y & 15u8) << 2u8) | (z >> 6u8)) + ASCII_OFFSET);
            }
        }
    }
    assert(result@ =~= decoded_codes(b, len as nat));
    result
}

/// Unpacks `len` characters from the first `ceil(len * 3 / 4)` bytes of `bytes`.
fn decode_core(bytes: &[u8], len: usize) -> (r: String)
    requires
        packed_len(len as nat) <= bytes@.len(),
    ensures
        r@ == decoded(bytes@, len as nat),
        valid_text(r@),
{
    proof {
        lemma_decoded_valid(bytes@, len as nat);
    }
    if len == 0 {
        return String::new();
    }
    ascii_string(unpack(bytes, len))
}

/// Unpacks `len` characters from `bytes`.
///
/// Fails with `InvalidBytesLength` where `bytes` does not hold exactly
/// `ceil(len * 6 / 8)` bytes.
pub fn decode(bytes: &[u8], len: usize) -> (r: Result<String, Error>)
    ensures
        r is Ok <==> bytes@.len() == (len * 6 + 7) / 8,
        r matches Ok(text) ==> text@ == decoded(bytes@, len as nat) && valid_text(text@),
        r matches Err(e) ==> e == Error::InvalidBytesLength,
        match r {
            Ok(text) => spec_decode(bytes@, len as nat) == Ok::<Seq<char>, Error>(text@),
            Err(e) => spec_decode(bytes@, len as nat) == Err::<Seq<char>, Error>(e),
        },
{
    proof {
        lemma_packed_len(len as nat);
    }
    if bytes.len() != len / 4 * 3 + len % 4 {
        return Err(Error::InvalidBytesLength);
    }
    Ok(decode_core(bytes, len))
}

/// Unpacks `len` characters from `bytes` without checking the byte count.
///
/// `bytes` must hold at least the `ceil(len * 6 / 8)` bytes that `len`
/// characters pack into; bytes past those are not read.
pub fn decode_unchecked(bytes: &[u8], len: usize) -> (r: String)
    requires
        packed_len(len as nat) <= bytes@.len(),
    ensures
        r@ == decoded(bytes@, len as nat),
        valid_text(r@),
{
    decode_core(bytes, len)
}

} // verus!
