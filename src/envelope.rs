//! `DecSixbit`: packed text that carries its own length.
//!
//! The packed bytes alone do not tell every character count apart: four
//! characters whose last value is zero pack like three characters followed by
//! zero padding. Where a count that is a positive multiple of four ends in a
//! byte whose low six bits are zero, one marker byte is appended, so that the
//! count can be recovered from the bytes.

use vstd::prelude::*;
use vstd::slice::slice_to_vec;
use vstd::string::StringSliceAdditionalSpecFns;
use crate::Error;
use crate::decode::{decode_unchecked, unpack};
use crate::encode::encode;
use crate::laws::lemma_round_trip;
use crate::model::{
    byte_at, decoded, decoded_codes, encoded, lemma_packed_len, packed_len, text_of_codes,
    unpacked_value, valid_text,
};

verus! {

/// Value of the marker byte appended after a group whose last value is zero.
pub const MARKER: u8 = 0b11;

/// The packed bytes of `n` characters need the marker: `n` is a positive
/// multiple of four and the last byte's low six bits are zero.
pub open spec fn needs_marker(packed: Seq<u8>, n: nat) -> bool {
    &&& n > 0
    &&& n % 4 == 0
    &&& packed.len() > 0
    &&& packed.last() % 64 == 0
}

/// The canonical bytes of a text: its packed bytes, with the marker appended
/// where they need it.
pub open spec fn envelope_bytes(s: Seq<char>) -> Seq<u8> {
    if needs_marker(encoded(s), s.len()) {
        encoded(s).push(MARKER)
    } else {
        encoded(s)
    }
}

/// `b` is the canonical form of `n` characters: exactly their packed size, or
/// the packed size followed by the marker where the packed bytes need it.
pub open spec fn canonical_bytes(b: Seq<u8>, n: nat) -> bool {
    ||| b.len() == packed_len(n)
    ||| {
        &&& b.len() == packed_len(n) + 1
        &&& needs_marker(b.drop_last(), n)
        &&& b.last() == MARKER
    }
}

/// The character count that canonical bytes stand for: four per group of three
/// bytes, and for a last partial group of one byte, none if it is the marker
/// and one otherwise, of two bytes, two.
pub open spec fn envelope_len(b: Seq<u8>) -> nat {
    let groups = b.len() / 3;
    if b.len() % 3 == 0 {
        4 * groups
    } else if b.len() % 3 == 1 {
        if b.last() == MARKER {
            4 * groups
        } else {
            4 * groups + 1
        }
    } else {
        4 * groups + 2
    }
}

/// Where a text starts with `p` at position `i`.
pub open spec fn occurs_at(t: Seq<char>, p: Seq<char>, i: int) -> bool {
    &&& 0 <= i
    &&& i + p.len() <= t.len()
    &&& t.subrange(i, i + p.len()) == p
}

/// Packed text together with its character count.
#[derive(Debug, PartialEq, Eq, PartialOrd, Ord, Hash)]
pub struct DecSixbit {
    /// Number of characters of the text.
    len: usize,
    /// Packed bytes, three for every four characters, possibly followed by
    /// the marker.
    bytes: Vec<u8>,
}

impl DecSixbit {
    /// Value of the marker byte, see [`MARKER`].
    pub const TRAILING_SPACE_MARKER: u8 = MARKER;

    /// The character count.
    pub closed spec fn spec_len(&self) -> nat {
        self.len as nat
    }

    /// The stored bytes.
    pub closed spec fn spec_bytes(&self) -> Seq<u8> {
        self.bytes@
    }

    /// The text that the value stands for.
    pub open spec fn text(&self) -> Seq<char> {
        decoded(self.spec_bytes(), self.spec_len())
    }

    /// The bytes are the packed size of the character count, or that size
    /// followed by the marker where the count is a multiple of four. This is
    /// every form that `try_from_slice` can produce; `new` and `from_parts`
    /// produce only the canonical ones among them.
    #[verifier::type_invariant]
    closed spec fn inv(self) -> bool {
        ||| self.bytes@.len() == packed_len(self.len as nat)
        ||| {
            &&& self.bytes@.len() == packed_len(self.len as nat) + 1
            &&& self.len % 4 == 0
            &&& self.bytes@.last() == MARKER
        }
    }

    /// Packs `str`, appending the marker where the packed bytes need it.
    ///
    /// Fails with `InvalidCharacter` where any character lies outside space
    /// (32) through underscore (95).
    pub fn new(str: &str) -> (r: Result<Self, Error>)
        ensures
            r is Ok <==> valid_text(str@),
            r matches Ok(v) ==> v.spec_len() == str@.len() && v.spec_bytes() == envelope_bytes(str@),
            r matches Ok(v) ==> v.text() == str@,
            r matches Ok(v) ==> canonical_bytes(v.spec_bytes(), v.spec_len()),
            r matches Err(e) ==> e == Error::InvalidCharacter,
    {
        let (mut bytes, len) = match encode(str) {
            Ok(packed) => packed,
            Err(e) => {
                return Err(e);
            },
        };
        let ghost packed = bytes@;
        proof {
            lemma_packed_len(len as nat);
            lemma_round_trip(str@);
        }
        if len % 4 == 0 && len != 0 && (bytes[bytes.len() - 1] & 0b111111u8) == 0 {
            let last = bytes[bytes.len() - 1];
            assert((last & 0b111111u8) == last % 64) by (bit_vector);
            bytes.push(MARKER);
            proof {
                lemma_decoded_prefix(packed, MARKER, len as nat);
            }
        } else {
            proof {
                if len % 4 == 0 && len != 0 {
                    let last = bytes@[bytes@.len() - 1];
                    assert((last & 0b111111u8) == last % 64) by (bit_vector);
                }
            }
        }
        Ok(DecSixbit { len, bytes })
    }

    /// The stored bytes, marker included.
    pub fn as_bytes(&self) -> (r: &[u8])
        ensures
            r@ == self.spec_bytes(),
    {
        self.bytes.as_slice()
    }

    /// The number of characters of the text.
    pub fn len(&self) -> (r: usize)
        ensures
            r == self.spec_len(),
    {
        self.len
    }

    /// Whether the text is empty.
    pub fn is_empty(&self) -> (r: bool)
        ensures
            r == (self.spec_len() == 0),
    {
        self.len == 0
    }

    /// Takes canonical bytes and recovers the character count from them (see
    /// [`envelope_len`]).
    ///
    /// Fails with `InvalidBytesLength` only where that count would not fit in
    /// `usize`.
    pub fn try_from_slice(bytes: &[u8]) -> (r: Result<Self, Error>)
        ensures
            r is Ok <==> envelope_len(bytes@) <= usize::MAX,
            r matches Ok(v) ==> v.spec_bytes() == bytes@ && v.spec_len() == envelope_len(bytes@),
            r matches Err(e) ==> e == Error::InvalidBytesLength,
    {
        let num_full_blocks = bytes.len() / 3;
        let num_remain_bytes = bytes.len() % 3;
        let extra: usize = if num_remain_bytes == 0 {
            0
        } else if num_remain_bytes == 1 {
            if bytes[bytes.len() - 1] == MARKER {
                0
            } else {
                1
            }
        } else {
            2
        };
        if num_full_blocks > (usize::MAX - extra) / 4 {
            return Err(Error::InvalidBytesLength);
        }
        let len = num_full_blocks * 4 + extra;
        proof {
            lemma_packed_len(len as nat);
            assert(len / 4 == num_full_blocks && len % 4 == extra);
        }
        Ok(DecSixbit { len, bytes: slice_to_vec(bytes) })
    }

    /// Takes canonical bytes as [`try_from_slice`](Self::try_from_slice) does.
    pub fn from_slice(bytes: &[u8]) -> (r: Self)
        requires
            envelope_len(bytes@) <= usize::MAX,
        ensures
            r.spec_bytes() == bytes@,
            r.spec_len() == envelope_len(bytes@),
    {
        match Self::try_from_slice(bytes) {
            Ok(v) => v,
            Err(_) => {
                assert(false);
                Self::default()
            },
        }
    }

    /// Takes a character count and its canonical bytes (see
    /// [`canonical_bytes`]).
    ///
    /// Fails with `InvalidBytesLength` where `bytes` is not the canonical form
    /// of `len` characters: neither exactly their packed size, nor that size
    /// followed by the marker where the packed bytes need it.
    pub fn from_parts(len: usize, bytes: Vec<u8>) -> (r: Result<Self, Error>)
        ensures
            r is Ok <==> canonical_bytes(bytes@, len as nat),
            r matches Ok(v) ==> v.spec_len() == len && v.spec_bytes() == bytes@,
            r matches Err(e) ==> e == Error::InvalidBytesLength,
    {
        proof {
            lemma_packed_len(len as nat);
        }
        let packed = len / 4 * 3 + len % 4;
        if bytes.len() == packed {
            return Ok(DecSixbit { len, bytes });
        }
        if bytes.len() > 0 && bytes.len() - 1 == packed && len > 0 && len % 4 == 0 {
            let last_packed = bytes[packed - 1];
            assert((last_packed & 0b111111u8) == last_packed % 64) by (bit_vector);
            assert(bytes@.drop_last().last() == last_packed);
            if bytes[bytes.len() - 1] == MARKER && (last_packed & 0b111111u8) == 0 {
                return Ok(DecSixbit { len, bytes });
            }
        }
        Err(Error::InvalidBytesLength)
    }

    /// The text.
    pub fn to_string(&self) -> (r: String)
        ensures
            r@ == self.text(),
    {
        proof {
            use_type_invariant(self);
        }
        decode_unchecked(self.bytes.as_slice(), self.len)
    }

    /// The character codes of the text.
    fn codes(&self) -> (r: Vec<u8>)
        ensures
            r@ == decoded_codes(self.spec_bytes(), self.spec_len()),
            self.text() == text_of_codes(r@),
            forall|k: int| 0 <= k < r@.len() ==> #[trigger] r@[k] < 128,
    {
        proof {
            use_type_invariant(self);
        }
        unpack(self.bytes.as_slice(), self.len)
    }

    /// The character at `index`, or `None` past the end of the text.
    pub fn get(&self, index: usize) -> (r: Option<char>)
        ensures
            r == (if index < self.spec_len() {
                Some(self.text()[index as int])
            } else {
                None::<char>
            }),
    {
        let codes = self.codes();
        if index < codes.len() {
            Some(codes[index] as char)
        } else {
            None
        }
    }

    /// Whether the text starts with `prefix`.
    pub fn starts_with(&self, prefix: &str) -> (r: bool)
        ensures
            r == occurs_at(self.text(), prefix@, 0),
    {
        let codes = self.codes();
        if !prefix.is_ascii() {
            proof {
                lemma_non_ascii_absent(self.text(), prefix@, 0);
            }
            return false;
        }
        let pattern = prefix.as_bytes();
        proof {
            lemma_ascii_codes(prefix);
        }
        matches_at(&codes, pattern, 0)
    }

    /// Whether the text ends with `suffix`.
    pub fn ends_with(&self, suffix: &str) -> (r: bool)
        ensures
            r == (suffix@.len() <= self.text().len() && occurs_at(
                self.text(),
                suffix@,
                self.text().len() - suffix@.len(),
            )),
    {
        let codes = self.codes();
        if !suffix.is_ascii() {
            proof {
                lemma_non_ascii_absent(self.text(), suffix@, self.text().len() - suffix@.len());
            }
            return false;
        }
        let pattern = suffix.as_bytes();
        proof {
            lemma_ascii_codes(suffix);
        }
        if pattern.len() > codes.len() {
            return false;
        }
        matches_at(&codes, pattern, codes.len() - pattern.len())
    }

    /// Whether `substring` occurs anywhere in the text.
    pub fn contains(&self, substring: &str) -> (r: bool)
        ensures
            r == exists|i: int| occurs_at(self.text(), substring@, i),
    {
        let codes = self.codes();
        let ghost t = self.text();
        if !substring.is_ascii() {
            assert forall|i: int| !occurs_at(t, substring@, i) by {
                lemma_non_ascii_absent(t, substring@, i);
            }
            return false;
        }
        let pattern = substring.as_bytes();
        proof {
            lemma_ascii_codes(substring);
        }
        if pattern.len() > codes.len() {
            return false;
        }
        let last = codes.len() - pattern.len();
        let mut at: usize = last;
        loop
            invariant
                t == self.text(),
                t == text_of_codes(codes@),
                forall|k: int| 0 <= k < codes@.len() ==> #[trigger] codes@[k] < 128,
                pattern@.len() <= codes@.len(),
                last == codes@.len() - pattern@.len(),
                substring@ == text_of_codes(pattern@),
                at <= last,
                forall|i: int| at < i <= last ==> !occurs_at(t, substring@, i),
            decreases at,
        {
            if matches_at(&codes, pattern, at) {
                return true;
            }
            if at == 0 {
                assert forall|i: int| !occurs_at(t, substring@, i) by {
                    if i > last {
                        assert(i + substring@.len() > t.len());
                    }
                }
                return false;
            }
            at = at - 1;
        }
    }
}

impl Clone for DecSixbit {
    fn clone(&self) -> (r: Self)
        ensures
            r.spec_len() == self.spec_len(),
            r.spec_bytes() == self.spec_bytes(),
    {
        proof {
            use_type_invariant(self);
        }
        DecSixbit { len: self.len, bytes: self.bytes.clone() }
    }
}

impl Default for DecSixbit {
    /// The empty text.
    fn default() -> (r: Self)
        ensures
            r.spec_len() == 0,
            r.spec_bytes() == Seq::<u8>::empty(),
    {
        DecSixbit { len: 0, bytes: Vec::new() }
    }
}

impl core::str::FromStr for DecSixbit {
    type Err = Error;

    fn from_str(s: &str) -> Result<Self, Self::Err> {
        Self::new(s)
    }
}

// The conversions below forward to `new` and `try_from_slice`, whose contracts
// say what they return; no spec-level result is claimed for the trait method.
impl<'a> vstd::std_specs::convert::TryFromSpecImpl<&'a str> for DecSixbit {
    open spec fn obeys_try_from_spec() -> bool {
        false
    }

    open spec fn try_from_spec(v: &'a str) -> Result<Self, Error> {
        arbitrary()
    }
}

impl<'a> TryFrom<&'a str> for DecSixbit {
    type Error = Error;

    fn try_from(s: &'a str) -> Result<Self, Self::Error> {
        Self::new(s)
    }
}

impl<'a> vstd::std_specs::convert::TryFromSpecImpl<&'a [u8]> for DecSixbit {
    open spec fn obeys_try_from_spec() -> bool {
        false
    }

    open spec fn try_from_spec(v: &'a [u8]) -> Result<Self, Error> {
        arbitrary()
    }
}

impl<'a> TryFrom<&'a [u8]> for DecSixbit {
    type Error = Error;

    fn try_from(bytes: &'a [u8]) -> Result<Self, Self::Error> {
        Self::try_from_slice(bytes)
    }
}

impl vstd::std_specs::convert::TryFromSpecImpl<Vec<u8>> for DecSixbit {
    open spec fn obeys_try_from_spec() -> bool {
        false
    }

    open spec fn try_from_spec(v: Vec<u8>) -> Result<Self, Error> {
        arbitrary()
    }
}

impl TryFrom<Vec<u8>> for DecSixbit {
    type Error = Error;

    fn try_from(bytes: Vec<u8>) -> Result<Self, Self::Error> {
        Self::try_from_slice(bytes.as_slice())
    }
}

impl<'a> vstd::std_specs::convert::TryFromSpecImpl<&'a Vec<u8>> for DecSixbit {
    open spec fn obeys_try_from_spec() -> bool {
        false
    }

    open spec fn try_from_spec(v: &'a Vec<u8>) -> Result<Self, Error> {
        arbitrary()
    }
}

impl<'a> TryFrom<&'a Vec<u8>> for DecSixbit {
    type Error = Error;

    fn try_from(bytes: &'a Vec<u8>) -> Result<Self, Self::Error> {
        Self::try_from_slice(bytes.as_slice())
    }
}

impl AsRef<[u8]> for DecSixbit {
    fn as_ref(&self) -> &[u8] {
        self.as_bytes()
    }
}

/// Whether `pattern` occurs in `codes` at position `at`.
fn matches_at(codes: &Vec<u8>, pattern: &[u8], at: usize) -> (r: bool)
    requires
        forall|k: int| 0 <= k < codes@.len() ==> #[trigger] codes@[k] < 128,
    ensures
        r == occurs_at(text_of_codes(codes@), text_of_codes(pattern@), at as int),
{
    let ghost t = text_of_codes(codes@);
    let ghost p = text_of_codes(pattern@);
    if at > codes.len() || pattern.len() > codes.len() - at {
        return false;
    }
    let end = at + pattern.len();
    let mut i: usize = 0;
    while i < pattern.len()
        invariant
            t == text_of_codes(codes@),
            p == text_of_codes(pattern@),
            end == at + pattern@.len(),
            end <= codes@.len(),
            i <= pattern@.len(),
            forall|k: int| 0 <= k < i ==> codes@[at + k] == #[trigger] pattern@[k],
        decreases pattern@.len() - i,
    {
        if codes[at + i] != pattern[i] {
            assert(t.subrange(at as int, at + p.len())[i as int] != p[i as int]);
            return false;
        }
        i = i + 1;
    }
    assert(t.subrange(at as int, at + p.len()) =~= p);
    true
}

/// Decoding reads only the packed size of the count: a byte appended after
/// it does not change the text.
proof fn lemma_decoded_prefix(b: Seq<u8>, x: u8, n: nat)
    requires
        packed_len(n) <= b.len(),
    ensures
        decoded(b.push(x), n) == decoded(b, n),
{
    lemma_packed_len(n);
    let c = b.push(x);
    assert forall|k: int| 0 <= k < n implies unpacked_value(c, k) == unpacked_value(b, k) by {
        let g = k / 4;
        assert(k == 4 * g + k % 4);
        assert(byte_at(c, 3 * g) == byte_at(b, 3 * g));
        if k % 4 >= 1 {
            assert(byte_at(c, 3 * g + 1) == byte_at(b, 3 * g + 1));
        }
        if k % 4 >= 2 {
            assert(byte_at(c, 3 * g + 2) == byte_at(b, 3 * g + 2));
        }
    }
    assert(decoded_codes(c, n) =~= decoded_codes(b, n));
    assert(decoded(c, n) =~= decoded(b, n));
}

/// A pattern with a character outside ASCII occurs nowhere in a decoded text.
proof fn lemma_non_ascii_absent(t: Seq<char>, p: Seq<char>, i: int)
    requires
        valid_text(t),
        !vstd::utf8::is_ascii_chars(p),
    ensures
        !occurs_at(t, p, i),
{
    if occurs_at(t, p, i) {
        let j = choose|j: int| 0 <= j < p.len() && !('\0' <= #[trigger] p[j] <= '\u{7f}');
        assert(t.subrange(i, i + p.len())[j] == p[j]);
        assert(crate::model::is_sixbit_char(t[i + j]));
    }
}

/// The bytes of an ASCII string are its character codes.
proof fn lemma_ascii_codes(s: &str)
    requires
        vstd::string::is_ascii(s),
    ensures
        s@ == text_of_codes(s.spec_bytes()),
{
    broadcast use vstd::string::is_ascii_spec_bytes;
    assert forall|i: int| 0 <= i < s@.len() implies (s.spec_bytes()[i] as char) == s@[i] by {
        assert('\0' <= s@[i] <= '\u{7f}');
    }
    assert(s@ =~= text_of_codes(s.spec_bytes()));
}

} // verus!
