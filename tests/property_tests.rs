use dec_sixbit::{decode, decode_unchecked, encode, encode_unchecked, DecSixbit, Error};

const ALPHABET: &str = " !\"#$%&'()*+,-./0123456789:;<=>?@ABCDEFGHIJKLMNOPQRSTUVWXYZ[\\]^_";

#[test]
fn round_trip_every_prefix_of_the_alphabet() {
    for n in 0..=ALPHABET.len() {
        let text = &ALPHABET[..n];
        let (bytes, len) = encode(text).unwrap();
        assert_eq!(decode(&bytes, len).unwrap(), text);
    }
}

#[test]
fn round_trip_trailing_spaces() {
    for text in ["A   ", "    ", " ", "AB  ", "TEST    ", "___ "] {
        let (bytes, len) = encode(text).unwrap();
        assert_eq!(decode(&bytes, len).unwrap(), text);
        assert_eq!(DecSixbit::new(text).unwrap().to_string(), text);
    }
}

#[test]
fn empty_input_encodes_and_decodes_to_empty() {
    assert_eq!(encode("").unwrap(), (Vec::new(), 0));
    assert_eq!(decode(&[], 0).unwrap(), "");
}

#[test]
fn size_law_for_lengths_up_to_twenty() {
    for n in 0..=20usize {
        let text = "Z".repeat(n);
        let (bytes, len) = encode(&text).unwrap();
        assert_eq!(len, n);
        assert_eq!(bytes.len(), (n * 3 + 3) / 4);
        assert_eq!(bytes.len(), (n * 6 + 7) / 8);
    }
}

#[test]
fn rejection_of_characters_outside_the_range() {
    for text in ["\x1F", "~", "`", "a", "AB\x7F", "é", "ABCD\u{0}"] {
        assert_eq!(encode(text), Err(Error::InvalidCharacter));
        assert_eq!(DecSixbit::new(text), Err(Error::InvalidCharacter));
    }
}

#[test]
fn range_edges_are_accepted() {
    assert_eq!(encode(" ").unwrap(), (vec![0], 1));
    assert_eq!(encode("_").unwrap(), (vec![0b11111100], 1));
    assert_eq!(encode("____").unwrap(), (vec![0xFF, 0xFF, 0xFF], 4));
}

#[test]
fn mismatch_detection() {
    assert_eq!(decode(&[0u8; 2], 3), Err(Error::InvalidBytesLength));
    assert_eq!(decode(&[0u8; 4], 3), Err(Error::InvalidBytesLength));
    assert_eq!(decode(&[0u8; 1], 0), Err(Error::InvalidBytesLength));
    assert_eq!(decode(&[0u8; 3], 3).unwrap(), "   ");
    assert_eq!(decode(&[0u8; 3], 4).unwrap(), "    ");
}

#[test]
fn any_bytes_decode_into_the_range() {
    assert_eq!(decode(&[0xFF, 0xFF, 0xFF], 4).unwrap(), "____");
    assert_eq!(decode_unchecked(&[0xAB, 0xCD, 0xEF, 0x12], 5), "J\\WO$");
}

#[test]
fn concrete_vectors() {
    assert_eq!(encode("A").unwrap(), (vec![0b10000100], 1));
    assert_eq!(encode("AB").unwrap(), (vec![0b10000110, 0b00100000], 2));
    assert_eq!(encode("ABC").unwrap(), (vec![0b10000110, 0b00101000, 0b11000000], 3));
    assert_eq!(encode("ABCD").unwrap(), (vec![0b10000110, 0b00101000, 0b11100100], 4));
}

#[test]
fn checked_and_unchecked_agree() {
    for text in ["", "A", "AB", "ABC", "ABCD", "HELLO WORLD", ALPHABET] {
        let checked = encode(text).unwrap();
        assert_eq!(checked, encode_unchecked(text));
        assert_eq!(decode(&checked.0, checked.1).unwrap(), decode_unchecked(&checked.0, checked.1));
    }
}

#[test]
fn envelope_marker_only_where_needed() {
    let spaced = DecSixbit::new("TEST    ").unwrap();
    assert_eq!(spaced.as_bytes().len(), 7);
    assert_eq!(spaced.as_bytes()[6], DecSixbit::TRAILING_SPACE_MARKER);
    assert_eq!(spaced.len(), 8);

    let plain = DecSixbit::new("TESTTEST").unwrap();
    assert_eq!(plain.as_bytes().len(), 6);
    assert_eq!(plain.len(), 8);

    // A count that is not a multiple of four never gets the marker.
    assert_eq!(DecSixbit::new("A ").unwrap().as_bytes().len(), 2);
}

#[test]
fn envelope_recovers_the_count() {
    for text in ["", "A", "AB", "ABCD", "TEST    ", "TESTTEST", "HELLO", "    "] {
        let sixbit = DecSixbit::new(text).unwrap();
        let back = DecSixbit::try_from_slice(sixbit.as_bytes()).unwrap();
        assert_eq!(back, sixbit);
        assert_eq!(back.to_string(), text);
        assert_eq!(DecSixbit::from_slice(sixbit.as_bytes()), sixbit);
    }
}

#[test]
fn envelope_three_over_reads_as_a_whole_group() {
    let sixbit = DecSixbit::new("ABC").unwrap();
    let back = DecSixbit::try_from_slice(sixbit.as_bytes()).unwrap();
    assert_eq!(back.len(), 4);
    assert_eq!(back.to_string(), "ABC ");
}

#[test]
fn from_parts_checks_the_byte_count() {
    let sixbit = DecSixbit::from_parts(3, vec![0b10000110, 0b00101000, 0b11000000]).unwrap();
    assert_eq!(sixbit.to_string(), "ABC");
    assert_eq!(DecSixbit::from_parts(5, vec![0, 0, 0]), Err(Error::InvalidBytesLength));
}

#[test]
fn from_parts_rejects_surplus_bytes() {
    assert_eq!(DecSixbit::from_parts(1, vec![0, 0, 0, 0, 0]), Err(Error::InvalidBytesLength));
    assert_eq!(DecSixbit::from_parts(3, vec![0, 0, 0, 0]), Err(Error::InvalidBytesLength));
    assert_eq!(DecSixbit::from_parts(0, vec![DecSixbit::TRAILING_SPACE_MARKER]), Err(Error::InvalidBytesLength));
}

#[test]
fn from_parts_takes_the_marker_only_where_needed() {
    let spaced = DecSixbit::new("TEST    ").unwrap();
    let back = DecSixbit::from_parts(8, spaced.as_bytes().to_vec()).unwrap();
    assert_eq!(back, spaced);
    assert_eq!(back.to_string(), "TEST    ");

    // The packed bytes of "TESTTEST" end in a byte whose low six bits are not zero.
    let mut marked = DecSixbit::new("TESTTEST").unwrap().as_bytes().to_vec();
    marked.push(DecSixbit::TRAILING_SPACE_MARKER);
    assert_eq!(DecSixbit::from_parts(8, marked), Err(Error::InvalidBytesLength));

    // A last byte other than the marker is refused.
    let mut wrong = DecSixbit::new("TEST    ").unwrap().as_bytes().to_vec();
    *wrong.last_mut().unwrap() = 0;
    assert_eq!(DecSixbit::from_parts(8, wrong), Err(Error::InvalidBytesLength));
}

#[test]
fn encode_rejects_multibyte_characters() {
    for text in ["€", "AB\u{80}", "ABCD😃", "\u{7FF}", "\u{10FFFF}"] {
        assert_eq!(encode(text), Err(Error::InvalidCharacter));
    }
}

#[test]
fn text_queries_edge_cases() {
    let sixbit = DecSixbit::new("HELLO").unwrap();
    assert!(sixbit.starts_with(""));
    assert!(sixbit.ends_with(""));
    assert!(sixbit.contains(""));
    assert!(sixbit.starts_with("HELLO"));
    assert!(!sixbit.starts_with("HELLO!"));
    assert!(!sixbit.ends_with("XHELLO"));
    assert!(sixbit.contains("LLO"));
    assert!(sixbit.contains("HEL"));
    assert!(!sixbit.contains("hel"));
    assert!(!sixbit.contains("HÉL"));
    assert!(!sixbit.starts_with("é"));
    assert_eq!(sixbit.get(1), Some('E'));
    assert_eq!(sixbit.get(100), None);
}
