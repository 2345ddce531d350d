use base45::{decode, decode_byte, decode_to_bytes, encode, encode_bytes, symbol_at};
use base45::{DecodingError, DecodingErrorKind};

const ALPHABET: &str = "0123456789ABCDEFGHIJKLMNOPQRSTUVWXYZ $%*+-./:";

#[test]
fn test_encode() {
    assert_eq!(encode("AB"), String::from("BB8"));
    assert_eq!(encode("base-45"), String::from("UJCLQE7W581"));
    assert_eq!(encode("Hello!!"), String::from("%69 VD92EX0"));
    assert_eq!(encode("ietf!"), String::from("QED8WEX0"));
}

#[test]
fn test_decode() {
    assert_eq!(decode("BB8").unwrap(), String::from("AB"));
    assert_eq!(decode("QED8WEX0").unwrap(), String::from("ietf!"));
    assert_eq!(decode("UJCLQE7W581").unwrap(), String::from("base-45"));
    assert_eq!(decode("%69 VD92EX0").unwrap(), String::from("Hello!!"));
    assert_eq!(decode_to_bytes("QED8WEX0").unwrap(), vec![105, 101, 116, 102, 33]);
}

#[test]
fn empty_input_round_trips() {
    assert_eq!(encode_bytes(&[]), String::new());
    assert_eq!(encode(""), String::new());
    assert_eq!(decode_to_bytes("").unwrap(), Vec::<u8>::new());
    assert_eq!(decode("").unwrap(), String::new());
}

#[test]
fn encode_bytes_exact_values() {
    // 0x4142 = 16706 = 11 + 11 * 45 + 8 * 2025
    assert_eq!(encode_bytes(&[0x41, 0x42]), "BB8");
    // a single byte: two symbols
    assert_eq!(encode_bytes(&[0]), "00");
    assert_eq!(encode_bytes(&[255]), "U5");
    // the largest pair: 65535 = 15 + 16 * 45 + 32 * 2025
    assert_eq!(encode_bytes(&[255, 255]), "FGW");
    // a pair below 45 * 45 takes two symbols
    assert_eq!(encode_bytes(&[1, 0]), "V5");
}

#[test]
fn round_trip_bytes_samples() {
    let samples: Vec<Vec<u8>> = vec![
        vec![],
        vec![0],
        vec![7],
        vec![255],
        vec![8, 0],
        vec![255, 255],
        vec![1, 0],
        vec![200, 1, 2],
        vec![0x41, 0x42, 0x43, 0x44, 0x45],
        (32u8..=255).collect(),
    ];
    for b in samples {
        let e = encode_bytes(&b);
        assert_eq!(decode_to_bytes(&e).unwrap(), b);
    }
}

#[test]
fn round_trip_text_samples() {
    for s in ["AB", "base-45", "Hello!!", "ietf!", "grüße, 世界", "odd"] {
        assert_eq!(decode(&encode(s)).unwrap(), s);
    }
}

#[test]
fn small_leading_pair_does_not_round_trip() {
    // a pair that starts with a zero byte loses it on the way back
    assert_eq!(encode_bytes(&[0, 65]), "K1");
    assert_eq!(decode_to_bytes("K1").unwrap(), vec![65]);
}

#[test]
fn encoding_stays_in_alphabet() {
    let b: Vec<u8> = (0u8..=255).collect();
    let e = encode_bytes(&b);
    assert!(e.chars().all(|c| ALPHABET.contains(c)));
}

#[test]
fn encoding_length_between_two_and_three_per_group() {
    for n in 0usize..40 {
        let b: Vec<u8> = (0..n).map(|i| (i * 37 + 11) as u8).collect();
        let groups = (n + 1) / 2;
        let len = encode_bytes(&b).len();
        assert!(2 * groups <= len && len <= 3 * groups);
    }
    assert_eq!(encode_bytes(&[0x41, 0x42, 0x43]).len(), 5);
}

#[test]
fn decode_rejects_lowercase() {
    let e = decode_to_bytes("bb8").unwrap_err();
    assert_eq!(e.kind(), DecodingErrorKind::InvalidSymbol);
    assert_eq!(e.input(), "bb8");
}

#[test]
fn decode_rejects_non_ascii() {
    let e = decode_to_bytes("BBé").unwrap_err();
    assert_eq!(e.kind(), DecodingErrorKind::InvalidSymbol);
    let e = decode("QED8W\u{00e9}").unwrap_err();
    assert_eq!(e.kind(), DecodingErrorKind::InvalidSymbol);
}

#[test]
fn decode_rejects_overflow() {
    let e = decode_to_bytes(":::").unwrap_err();
    assert_eq!(e.kind(), DecodingErrorKind::Overflow);
    assert_eq!(e.input(), ":::");
    // 16 + 16 * 45 + 32 * 2025 = 65536: each term fits, the sum does not
    let e = decode_to_bytes("GGW").unwrap_err();
    assert_eq!(e.kind(), DecodingErrorKind::Overflow);
    // an overflow in a later group
    let e = decode("BB8:::").unwrap_err();
    assert_eq!(e.kind(), DecodingErrorKind::Overflow);
}

#[test]
fn decode_first_failure_wins() {
    let e = decode_to_bytes(":::a").unwrap_err();
    assert_eq!(e.kind(), DecodingErrorKind::Overflow);
    let e = decode_to_bytes("a:::").unwrap_err();
    assert_eq!(e.kind(), DecodingErrorKind::InvalidSymbol);
}

#[test]
fn decode_largest_group() {
    assert_eq!(decode_to_bytes("FGW").unwrap(), vec![255, 255]);
}

#[test]
fn decode_rejects_invalid_text() {
    let e: DecodingError = decode(&encode_bytes(&[255])).unwrap_err();
    assert_eq!(e.kind(), DecodingErrorKind::InvalidText);
    assert_eq!(e.input(), "U5");
    assert_eq!(e.message(), "Error transforming decoded string to UTF-8");
    assert_eq!(decode_to_bytes("U5").unwrap(), vec![255]);
}

#[test]
fn error_text_names_the_input() {
    let e = decode("ab").unwrap_err();
    assert_eq!(e.message(), "Error decoding base45 string");
    assert_eq!(e.to_text(), "Error decoding base45 string: ab");
}

#[test]
fn alphabet_lookup_both_ways() {
    for (i, c) in ALPHABET.chars().enumerate() {
        assert_eq!(symbol_at(i as u8), c);
        assert_eq!(decode_byte(c as u8), i as u8);
    }
    assert_eq!(decode_byte(b'a'), u8::MAX);
    assert_eq!(decode_byte(b'#'), u8::MAX);
    assert_eq!(decode_byte(0xC3), u8::MAX);
}
