use dec_sixbit::{decode, decode_unchecked, encode, DecSixbit, Error};
use std::convert::TryFrom;

#[test]
fn test_packed_storage() {
    let input = "ABCD"; // 4 chars should pack into 3 bytes

    // A=33=0b100001, B=34=0b100010, C=35=0b100011, D=36=0b100100
    let expected = vec![0b10000110, 0b00101000, 0b11100100];

    let sixbit = DecSixbit::new(input).unwrap();
    assert_eq!(sixbit.as_bytes(), expected.as_slice());
    assert_eq!(sixbit.len(), 4);
}

#[test]
fn test_partial_packing() {
    let inputs = ["A", "AB", "ABC"];
    let expected_bytes = [
        vec![0b10000100],                         // "A" packed: [132]
        vec![0b10000110, 0b00100000],             // "AB" packed: [134, 32]
        vec![0b10000110, 0b00101000, 0b11000000], // "ABC" packed: [134, 40, 192]
    ];

    for (input, expected) in inputs.iter().zip(expected_bytes.iter()) {
        let (bytes, len) = encode(input).unwrap();
        assert_eq!(bytes, *expected, "Mismatch in encoded bytes for input '{}'", input);
        assert_eq!(len, input.len(), "Mismatch in length for input '{}'", input);
    }
}

#[test]
fn test_encoding_decoding() {
    let inputs = [
        "HELLO WORLD",
        "TEST 123",
        " !\"#$%&'()*+,-./0123456789:;<=>?@ABCDEFGHIJKLMNOPQRSTUVWXYZ[\\]^_",
    ];

    for input in inputs {
        let (bytes, len) = encode(input).unwrap();
        assert_eq!(len, input.len());

        let decoded = decode(&bytes, len).unwrap();
        assert_eq!(decoded, input);

        let decoded_unchecked = decode_unchecked(&bytes, len);
        assert_eq!(decoded_unchecked, input);

        let sixbit = DecSixbit::new(input).unwrap();
        assert_eq!(sixbit.as_bytes(), bytes.as_slice());
        assert_eq!(sixbit.len(), len);
        assert_eq!(sixbit.to_string(), decoded);
    }
}

#[test]
fn test_invalid_characters() {
    // Character below range
    assert!(matches!(encode("\x1F"), Err(Error::InvalidCharacter)));

    // Characters above range
    assert!(matches!(encode("abc"), Err(Error::InvalidCharacter)));

    // Non-ASCII characters
    assert!(matches!(encode("こんにちは"), Err(Error::InvalidCharacter)));
}

#[test]
fn test_empty_string() {
    let (bytes, len) = encode("").unwrap();
    assert!(len == 0);
    assert!(bytes.is_empty());

    let decoded = decode(&bytes, len).unwrap();
    assert_eq!(decoded, "");

    let decoded_unchecked = decode_unchecked(&bytes, len);
    assert_eq!(decoded_unchecked, "");

    let sixbit = DecSixbit::new("").unwrap();
    assert!(sixbit.is_empty());
    assert_eq!(sixbit.len(), 0);
    assert!(sixbit.as_bytes().is_empty());

    let decoded = decode(sixbit.as_bytes(), sixbit.len()).unwrap();
    assert_eq!(decoded, "");

    let decoded_unchecked = decode_unchecked(sixbit.as_bytes(), sixbit.len());
    assert_eq!(decoded_unchecked, "");
}

#[test]
fn test_default() {
    let sixbit = DecSixbit::default();
    assert!(sixbit.is_empty());
    assert_eq!(sixbit.len(), 0);
    assert!(sixbit.as_bytes().is_empty());
}

#[test]
fn test_as_ref() {
    let input = "TEST";
    let sixbit = DecSixbit::new(input).unwrap();
    let bytes: &[u8] = sixbit.as_ref();
    assert_eq!(bytes, sixbit.as_bytes());
}

#[test]
fn test_try_from() {
    let input = "TEST";
    let sixbit = DecSixbit::try_from(input).unwrap();
    assert_eq!(sixbit.to_string(), input);

    assert!(DecSixbit::try_from("invalid❌").is_err());
}

#[test]
fn lib_test_from_str() {
    let input = "TEST";
    let sixbit: DecSixbit = input.parse().unwrap();
    assert_eq!(sixbit.to_string(), input);

    let result: Result<DecSixbit, _> = "invalid❌".parse();
    assert!(result.is_err());
}

#[test]
fn test_decode_unchecked_integrity() {
    let input = "OPTIMIZATION TEST";
    let (bytes, len) = encode(input).unwrap();
    let decoded = decode(&bytes, len).unwrap();
    assert_eq!(decoded, input);

    let decoded_unchecked = decode_unchecked(&bytes, len);
    assert_eq!(decoded_unchecked, input);

    let sixbit = DecSixbit::new(input).unwrap();
    let decoded = decode(sixbit.as_bytes(), sixbit.len()).unwrap();
    assert_eq!(decoded, input);

    let decoded_unchecked = decode_unchecked(sixbit.as_bytes(), sixbit.len());
    assert_eq!(decoded_unchecked, input);
}

#[test]
fn test_trailing_spaces() {
    let input = "TESTTEST";
    let sixbit = DecSixbit::new(input).unwrap();
    assert_eq!(sixbit.to_string(), "TESTTEST");
    assert_eq!(sixbit.as_bytes().len(), 6);

    let input = "TEST    ";
    let sixbit = DecSixbit::new(input).unwrap();
    assert_eq!(sixbit.to_string(), "TEST    ");
    // The last byte is DecSixbit::TRAILING_SPACE_MARKER
    assert_eq!(sixbit.as_bytes().len(), 7);
}
