use std::borrow::Cow;

use cesu8::{from_cesu8, to_cesu8};

#[test]
fn short_text_round_trip_copies_nothing() {
    for text in ["", "a", "aé日", "\u{7f}", "\u{d7ff}\u{e000}\u{ffff}", "M日 and more"] {
        let encoded = to_cesu8(text);
        assert!(matches!(encoded, Cow::Borrowed(_)), "{:?}", text);
        assert_eq!(&encoded[..], text.as_bytes());
        let decoded = from_cesu8(&encoded).unwrap();
        assert!(matches!(decoded, Cow::Borrowed(_)), "{:?}", text);
        assert_eq!(decoded, text);
    }
}

#[test]
fn long_text_round_trip_copies() {
    for text in [
        "\u{10000}",
        "\u{10401}",
        "M日\u{10401}",
        "\u{10437}é\u{1F600}~",
        "\u{10FFFF}\u{10FFFF}",
        "a\u{F0000}",
    ] {
        let encoded = to_cesu8(text);
        assert!(matches!(encoded, Cow::Owned(_)), "{:?}", text);
        assert_ne!(&encoded[..], text.as_bytes());
        let long = text.chars().filter(|c| *c as u32 >= 0x10000).count();
        assert_eq!(encoded.len(), text.len() + 2 * long);
        let decoded = from_cesu8(&encoded).unwrap();
        assert!(matches!(decoded, Cow::Owned(_)), "{:?}", text);
        assert_eq!(decoded, text);
    }
}

#[test]
fn every_long_character_takes_six_bytes() {
    for c in ['\u{10000}', '\u{10401}', '\u{1F600}', '\u{FFFFF}', '\u{100000}', '\u{10FFFF}'] {
        let text = c.to_string();
        assert_eq!(text.len(), 4);
        let encoded = to_cesu8(&text);
        assert_eq!(encoded.len(), 6);
        assert_eq!(from_cesu8(&encoded).unwrap(), text);
    }
}

#[test]
fn long_text_with_delete_does_not_come_back() {
    // The decoder passes through the bytes below 0x7F only.
    let encoded = to_cesu8("\u{7f}\u{10401}");
    assert_eq!(
        &encoded[..],
        &[0x7F, 0xED, 0xA0, 0x81, 0xED, 0xB0, 0x81]
    );
    assert!(from_cesu8(&encoded).is_err());
}

#[test]
fn removing_a_last_byte_makes_decoding_fail() {
    let text = "aé日\u{10401}z";
    let encoded = to_cesu8(text).into_owned();
    assert_eq!(from_cesu8(&encoded).unwrap(), text);
    // The ends of "é", of "日", and of the two halves of U+10401.
    for end in [3, 6, 9, 12] {
        let mut cut = encoded.clone();
        cut.remove(end - 1);
        assert!(from_cesu8(&cut).is_err(), "cut at {}", end);
    }
    // The same where nothing follows.
    for text in ["é", "日", "\u{10401}"] {
        let mut cut = to_cesu8(text).into_owned();
        cut.pop();
        assert!(from_cesu8(&cut).is_err(), "{:?}", text);
    }
}

#[test]
fn decoding_then_encoding_gives_the_bytes_back() {
    let data: &[u8] = &[0x4D, 0xE6, 0x97, 0xA5, 0xED, 0xA0, 0x81, 0xED, 0xB0, 0x81];
    let text = from_cesu8(data).unwrap();
    assert_eq!(&to_cesu8(&text)[..], data);
}
