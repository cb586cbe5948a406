//! Laws that relate encoding and decoding.

use vstd::prelude::*;
use crate::model::{
    byte_at, decoded, decoded_codes, encoded, is_sixbit_char, lemma_packed_len, packed_byte,
    packed_len, sixbit_of, spec_decode, spec_encode, text_of_codes, unpacked_value, valid_text,
    value_at,
};
use crate::envelope::{envelope_bytes, envelope_len, needs_marker, MARKER};

verus! {

/// Unpacking the three bytes of a group gives back its four values.
proof fn lemma_group_round_trip(a: int, b: int, c: int, d: int)
    requires
        0 <= a < 64,
        0 <= b < 64,
        0 <= c < 64,
        0 <= d < 64,
    ensures
        ({
            let x = a * 4 + b / 16;
            let y = (b % 16) * 16 + c / 4;
            let z = (c % 4) * 64 + d;
            &&& 0 <= x < 256
            &&& 0 <= y < 256
            &&& 0 <= z < 256
            &&& x / 4 == a
            &&& (x % 4) * 16 + y / 16 == b
            &&& (y % 16) * 4 + z / 64 == c
            &&& z % 64 == d
        }),
{
    assert(0 <= b / 16 < 4 && 0 <= c / 4 < 16 && 0 <= c % 4 < 4 && 0 <= b % 16 < 16);
    assert((a * 4 + b / 16) / 4 == a && (a * 4 + b / 16) % 4 == b / 16);
    assert(((b % 16) * 16 + c / 4) / 16 == b % 16 && ((b % 16) * 16 + c / 4) % 16 == c / 4);
    assert(((c % 4) * 64 + d) / 64 == c % 4 && ((c % 4) * 64 + d) % 64 == d);
}

/// Character `k` of a packable text unpacks from its packed bytes unchanged.
proof fn lemma_value_round_trip(s: Seq<char>, k: int)
    requires
        valid_text(s),
        0 <= k < s.len(),
    ensures
        unpacked_value(encoded(s), k) == sixbit_of(s[k]),
{
    let e = encoded(s);
    let n = s.len();
    let g = k / 4;
    lemma_packed_len(n);
    assert forall|i: int| 0 <= i < n implies 0 <= #[trigger] value_at(s, i) < 64 by {
        assert(is_sixbit_char(s[i]));
    }
    let a = value_at(s, 4 * g);
    let b = value_at(s, 4 * g + 1);
    let c = value_at(s, 4 * g + 2);
    let d = value_at(s, 4 * g + 3);
    assert(0 <= a < 64 && 0 <= b < 64 && 0 <= c < 64 && 0 <= d < 64);
    lemma_group_round_trip(a, b, c, d);
    assert((3 * g) / 3 == g && (3 * g) % 3 == 0);
    assert((3 * g + 1) / 3 == g && (3 * g + 1) % 3 == 1);
    assert((3 * g + 2) / 3 == g && (3 * g + 2) % 3 == 2);
    assert(3 * g < packed_len(n));
    assert(byte_at(e, 3 * g) == a * 4 + b / 16);
    if k % 4 >= 1 {
        assert(3 * g + 1 < packed_len(n));
        assert(byte_at(e, 3 * g + 1) == (b % 16) * 16 + c / 4);
    }
    if k % 4 >= 2 {
        assert(3 * g + 2 < packed_len(n));
        assert(byte_at(e, 3 * g + 2) == (c % 4) * 64 + d);
    }
    assert(k == 4 * g + k % 4);
}

/// Decoding what encoding produced gives the original text back: for every
/// text of characters space through underscore, `decode(encode(s)) == s`.
pub proof fn lemma_round_trip(s: Seq<char>)
    requires
        valid_text(s),
    ensures
        decoded(encoded(s), s.len()) == s,
        spec_encode(s) matches Ok((bytes, len)) && spec_decode(bytes, len) == Ok::<Seq<char>, crate::Error>(s),
{
    let e = encoded(s);
    assert forall|k: int| 0 <= k < s.len() implies #[trigger] decoded(e, s.len())[k] == s[k] by {
        lemma_value_round_trip(s, k);
        assert(is_sixbit_char(s[k]));
    }
    assert(decoded(e, s.len()) =~= s);
}

/// Where the checked operations succeed they agree with the unchecked ones:
/// on a packable text checked encoding gives the bytes and count that
/// unchecked encoding gives.
pub proof fn lemma_encode_checked_agrees(s: Seq<char>)
    requires
        valid_text(s),
    ensures
        spec_encode(s) == Ok::<(Seq<u8>, nat), crate::Error>((encoded(s), s.len())),
{
}

/// On a buffer of the packed size of `n` characters checked decoding gives the
/// text that unchecked decoding gives.
pub proof fn lemma_decode_checked_agrees(b: Seq<u8>, n: nat)
    requires
        b.len() == (n * 6 + 7) / 8,
    ensures
        spec_decode(b, n) == Ok::<Seq<char>, crate::Error>(decoded(b, n)),
{
    lemma_packed_len(n);
}

/// Every buffer decodes to characters of the range space through underscore.
pub proof fn lemma_decoded_valid(b: Seq<u8>, n: nat)
    ensures
        valid_text(decoded(b, n)),
{
    assert forall|k: int| 0 <= k < n implies is_sixbit_char(#[trigger] decoded(b, n)[k]) by {
        let g = k / 4;
        let x = byte_at(b, 3 * g);
        let y = byte_at(b, 3 * g + 1);
        let z = byte_at(b, 3 * g + 2);
        assert(0 <= x < 256 && 0 <= y < 256 && 0 <= z < 256);
        assert(0 <= unpacked_value(b, k) < 64);
    }
}

/// Reading the count back from canonical bytes: it is the text's length,
/// except where the length leaves three over a multiple of four, where the
/// three last bytes read as a whole group and the count is one more.
pub proof fn lemma_envelope_len(s: Seq<char>)
    requires
        valid_text(s),
    ensures
        envelope_len(envelope_bytes(s)) == if s.len() % 4 == 3 {
            s.len() + 1
        } else {
            s.len()
        },
{
    let n = s.len();
    let p = encoded(s);
    let q = (n / 4) as int;
    lemma_packed_len(n);
    assert(p.len() == 3 * q + n % 4);
    if n % 4 == 0 && needs_marker(p, n) {
        assert(envelope_bytes(s).len() == 3 * q + 1);
        assert((3 * q + 1) / 3 == q && (3 * q + 1) % 3 == 1);
    } else if n % 4 == 0 {
        assert((3 * q) / 3 == q && (3 * q) % 3 == 0);
    } else if n % 4 == 1 {
        assert((3 * q + 1) / 3 == q && (3 * q + 1) % 3 == 1);
        assert((3 * q) / 3 == q && (3 * q) % 3 == 0);
        assert(is_sixbit_char(s[4 * q]));
        assert(value_at(s, 4 * q + 1) == 0);
        assert(p.last() == packed_byte(s, 3 * q));
        assert(packed_byte(s, 3 * q) as int == value_at(s, 4 * q) * 4);
        assert(p.last() != MARKER);
    } else if n % 4 == 2 {
        assert((3 * q + 2) / 3 == q && (3 * q + 2) % 3 == 2);
    } else {
        assert((3 * q + 3) / 3 == q + 1 && (3 * q + 3) % 3 == 0);
    }
}

} // verus!
