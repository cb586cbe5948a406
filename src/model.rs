//! The mathematical model of the six-bit packing: which texts can be packed,
//! what bytes they pack into, and what characters a byte buffer unpacks to.

use vstd::prelude::*;

verus! {

/// Code of the first character of the range (space).
pub const ASCII_OFFSET: u8 = 32;

/// Code of the last character of the range (underscore).
pub const ASCII_LAST: u8 = 95;

/// A character that has a six-bit code: space through underscore.
pub open spec fn is_sixbit_char(c: char) -> bool {
    ' ' <= c <= '_'
}

/// Every character of `s` has a six-bit code.
pub open spec fn valid_text(s: Seq<char>) -> bool {
    forall|i: int| 0 <= i < s.len() ==> is_sixbit_char(#[trigger] s[i])
}

/// The six-bit value of a character of the range.
pub open spec fn sixbit_of(c: char) -> int {
    c as int - ASCII_OFFSET
}

/// Number of bytes that `n` characters pack into: `ceil(n * 3 / 4)`.
pub open spec fn packed_len(n: nat) -> nat {
    (n * 3 + 3) / 4
}

/// Six-bit value of the character at `k`, or zero past the end of the text.
pub open spec fn value_at(s: Seq<char>, k: int) -> int {
    if 0 <= k < s.len() {
        sixbit_of(s[k])
    } else {
        0
    }
}

/// Byte `j` of the packed form: each group of four values `a, b, c, d` fills
/// three bytes `a:6 b:2`, `b:4 c:4`, `c:2 d:6`, high bits first.
pub open spec fn packed_byte(s: Seq<char>, j: int) -> u8 {
    let g = j / 3;
    let a = value_at(s, 4 * g);
    let b = value_at(s, 4 * g + 1);
    let c = value_at(s, 4 * g + 2);
    let d = value_at(s, 4 * g + 3);
    (if j % 3 == 0 {
        a * 4 + b / 16
    } else if j % 3 == 1 {
        (b % 16) * 16 + c / 4
    } else {
        (c % 4) * 64 + d
    }) as u8
}

/// The packed bytes of a text.
pub open spec fn encoded(s: Seq<char>) -> Seq<u8> {
    Seq::new(packed_len(s.len()), |j: int| packed_byte(s, j))
}

/// Byte `i` of a buffer, or zero past its end.
pub open spec fn byte_at(b: Seq<u8>, i: int) -> int {
    if 0 <= i < b.len() {
        b[i] as int
    } else {
        0
    }
}

/// The six-bit value that character `k` unpacks to from `b`.
pub open spec fn unpacked_value(b: Seq<u8>, k: int) -> int {
    let g = k / 4;
    let x = byte_at(b, 3 * g);
    let y = byte_at(b, 3 * g + 1);
    let z = byte_at(b, 3 * g + 2);
    if k % 4 == 0 {
        x / 4
    } else if k % 4 == 1 {
        (x % 4) * 16 + y / 16
    } else if k % 4 == 2 {
        (y % 16) * 4 + z / 64
    } else {
        z % 64
    }
}

/// The character codes that the first `n` characters of `b` unpack to.
pub open spec fn decoded_codes(b: Seq<u8>, n: nat) -> Seq<u8> {
    Seq::new(n, |k: int| (unpacked_value(b, k) + ASCII_OFFSET) as u8)
}

/// The text whose characters have the given codes.
pub open spec fn text_of_codes(codes: Seq<u8>) -> Seq<char> {
    Seq::new(codes.len(), |i: int| codes[i] as char)
}

/// The text of `n` characters that `b` unpacks to.
pub open spec fn decoded(b: Seq<u8>, n: nat) -> Seq<char> {
    text_of_codes(decoded_codes(b, n))
}

/// What checked encoding gives: the packed bytes and the character count, or
/// `InvalidCharacter`.
pub open spec fn spec_encode(s: Seq<char>) -> Result<(Seq<u8>, nat), crate::Error> {
    if valid_text(s) {
        Ok((encoded(s), s.len()))
    } else {
        Err(crate::Error::InvalidCharacter)
    }
}

/// What checked decoding gives: the unpacked text, or `InvalidBytesLength`
/// where the buffer does not have the packed size of `n` characters.
pub open spec fn spec_decode(b: Seq<u8>, n: nat) -> Result<Seq<char>, crate::Error> {
    if b.len() == packed_len(n) {
        Ok(decoded(b, n))
    } else {
        Err(crate::Error::InvalidBytesLength)
    }
}

/// `packed_len` in the two other forms: whole groups plus the remainder, and
/// `ceil(n * 6 / 8)`.
pub proof fn lemma_packed_len(n: nat)
    ensures
        packed_len(n) == 3 * (n / 4) + n % 4,
        packed_len(n) == (n * 6 + 7) / 8,
        packed_len(n) <= n,
{
    let q = n / 4;
    let r = n % 4;
    assert(n == 4 * q + r);
    assert((n * 3 + 3) / 4 == 3 * q + (3 * r + 3) / 4) by (nonlinear_arith)
        requires
            n == 4 * q + r,
            0 <= r < 4,
    ;
    assert((n * 6 + 7) / 8 == 3 * q + (6 * r + 7) / 8) by (nonlinear_arith)
        requires
            n == 4 * q + r,
            0 <= r < 4,
    ;
}

/// The byte operations that pack one group of four six-bit values.
pub proof fn lemma_pack_bits(a: u8, b: u8, c: u8, d: u8)
    requires
        a < 64,
        b < 64,
        c < 64,
        d < 64,
    ensures
        ((a << 2u8) | (b >> 4u8)) as int == a * 4 + b / 16,
        (((b & 15u8) << 4u8) | (c >> 2u8)) as int == (b % 16) * 16 + c / 4,
        (((c & 3u8) << 6u8) | d) as int == (c % 4) * 64 + d,
        ((b & 15u8) << 4u8) as int == (b % 16) * 16,
        ((c & 3u8) << 6u8) as int == (c % 4) * 64,
        (a << 2u8) as int == a * 4,
{
    assert(((a << 2u8) | (b >> 4u8)) == a * 4 + b / 16) by (bit_vector)
        requires
            a < 64,
            b < 64,
    ;
    assert((((b & 15u8) << 4u8) | (c >> 2u8)) == (b % 16) * 16 + c / 4) by (bit_vector)
        requires
            b < 64,
            c < 64,
    ;
    assert((((c & 3u8) << 6u8) | d) == (c % 4) * 64 + d) by (bit_vector)
        requires
            c < 64,
            d < 64,
    ;
    assert(((b & 15u8) << 4u8) == (b % 16) * 16) by (bit_vector);
    assert(((c & 3u8) << 6u8) == (c % 4) * 64) by (bit_vector);
    assert((a << 2u8) == a * 4) by (bit_vector)
        requires
            a < 64,
    ;
}

/// The byte operations that unpack one group of three bytes.
pub proof fn lemma_unpack_bits(x: u8, y: u8, z: u8)
    ensures
        (x >> 2u8) as int == x / 4,
        (((x & 3u8) << 4u8) | (y >> 4u8)) as int == (x % 4) * 16 + y / 16,
        (((y & 15u8) << 2u8) | (z >> 6u8)) as int == (y % 16) * 4 + z / 64,
        (z & 63u8) as int == z % 64,
{
    assert((x >> 2u8) == x / 4) by (bit_vector);
    assert((((x & 3u8) << 4u8) | (y >> 4u8)) == (x % 4) * 16 + y / 16) by (bit_vector);
    assert((((y & 15u8) << 2u8) | (z >> 6u8)) == (y % 16) * 4 + z / 64) by (bit_vector);
    assert((z & 63u8) == z % 64) by (bit_vector);
}

} // verus!
