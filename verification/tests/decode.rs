use std::borrow::Cow;

use cesu8::{decode_from_iter, from_cesu8, ByteIter, Cesu8DecodingError};

#[test]
fn test_from_cesu8() {
    // The surrogate-encoded character below is from the ICU library's
    // icu/source/test/testdata/conversion.txt test case.
    let data = &[0x4D, 0xE6, 0x97, 0xA5, 0xED, 0xA0, 0x81, 0xED, 0xB0, 0x81];
    assert_eq!(Cow::Borrowed("M日\u{10401}"), from_cesu8(data).unwrap());
}

#[test]
fn decoded_text_has_three_characters_in_eight_bytes() {
    let data = &[0x4D, 0xE6, 0x97, 0xA5, 0xED, 0xA0, 0x81, 0xED, 0xB0, 0x81];
    let text = from_cesu8(data).unwrap();
    assert_eq!(text.chars().count(), 3);
    assert_eq!(text.len(), 8);
    assert_eq!(
        text.as_bytes(),
        &[0x4D, 0xE6, 0x97, 0xA5, 0xF0, 0x90, 0x90, 0x81]
    );
    assert!(matches!(text, Cow::Owned(_)));
}

#[test]
fn valid_utf8_is_borrowed() {
    let text = "aé日";
    let decoded = from_cesu8(text.as_bytes()).unwrap();
    assert_eq!(Cow::Borrowed("aé日"), decoded);
    match decoded {
        Cow::Borrowed(s) => assert_eq!(s.as_ptr(), text.as_ptr()),
        Cow::Owned(_) => panic!("valid UTF-8 must not be copied"),
    }
}

#[test]
fn surrogate_pair_alone_decodes_to_four_bytes() {
    let data = &[0xED, 0xA0, 0x81, 0xED, 0xB0, 0x81];
    assert_eq!(Cow::Borrowed("\u{10401}"), from_cesu8(data).unwrap());
}

#[test]
fn empty_input_is_borrowed_empty_text() {
    let decoded = from_cesu8(&[]).unwrap();
    assert_eq!(decoded, "");
    assert!(matches!(decoded, Cow::Borrowed(_)));
}

#[test]
fn four_byte_utf8_alone_is_valid_utf8() {
    let decoded = from_cesu8("\u{10401}".as_bytes()).unwrap();
    assert_eq!(decoded, "\u{10401}");
    assert!(matches!(decoded, Cow::Borrowed(_)));
}

#[test]
fn lowest_and_highest_surrogate_pairs() {
    let lowest = &[0xED, 0xA0, 0x80, 0xED, 0xB0, 0x80];
    assert_eq!(from_cesu8(lowest).unwrap(), "\u{10000}");
    let highest = &[0xED, 0xAF, 0xBF, 0xED, 0xBF, 0xBF];
    assert_eq!(from_cesu8(highest).unwrap(), "\u{10FFFF}");
}

#[test]
fn pair_from_the_middle_of_the_range() {
    // 0xDB80 0xDC00 stands for U+F0000.
    let data = &[0xED, 0xAE, 0x80, 0xED, 0xB0, 0x80];
    assert_eq!(from_cesu8(data).unwrap(), "\u{F0000}");
}

#[test]
fn all_sequence_lengths_mixed() {
    let data = &[
        0x61, 0xC3, 0xA9, 0xE0, 0xA0, 0x80, 0xED, 0x9F, 0xBF, 0xEE, 0x80, 0x80, 0xED, 0xA0, 0x81,
        0xED, 0xB0, 0xB7, 0x7E,
    ];
    assert_eq!(
        from_cesu8(data).unwrap(),
        "a\u{e9}\u{800}\u{d7ff}\u{e000}\u{10437}~"
    );
}

#[test]
fn first_half_without_second_half_fails() {
    assert!(from_cesu8(&[0xED, 0xA0, 0x81]).is_err());
}

#[test]
fn first_half_followed_by_other_bytes_fails() {
    // Another first half.
    assert!(from_cesu8(&[0xED, 0xA0, 0x81, 0xED, 0xA0, 0x81]).is_err());
    // An ordinary three-byte sequence.
    assert!(from_cesu8(&[0xED, 0xA0, 0x81, 0xE6, 0x97, 0xA5]).is_err());
    // ASCII.
    assert!(from_cesu8(&[0xED, 0xA0, 0x81, 0x41, 0x42, 0x43]).is_err());
    // A second half whose last byte is no continuation byte.
    assert!(from_cesu8(&[0xED, 0xA0, 0x81, 0xED, 0xB0, 0x41]).is_err());
    // A second half that is cut short.
    assert!(from_cesu8(&[0xED, 0xA0, 0x81, 0xED, 0xB0]).is_err());
    assert!(from_cesu8(&[0xED, 0xA0, 0x81, 0xED]).is_err());
}

#[test]
fn second_half_alone_fails() {
    assert!(from_cesu8(&[0xED, 0xB0, 0x81]).is_err());
    assert!(from_cesu8(&[0x41, 0xED, 0xB0, 0x81, 0x42]).is_err());
}

#[test]
fn truncated_sequences_fail() {
    // "é" without its last byte, at the end and in the middle.
    assert!(from_cesu8(&[0x61, 0xC3]).is_err());
    assert!(from_cesu8(&[0x61, 0xC3, 0x62]).is_err());
    // "日" without its last byte.
    assert!(from_cesu8(&[0xE6, 0x97]).is_err());
    assert!(from_cesu8(&[0xE6, 0x97, 0x4D]).is_err());
    // A surrogate pair without its last byte.
    assert!(from_cesu8(&[0x4D, 0xED, 0xA0, 0x81, 0xED, 0xB0]).is_err());
    assert!(from_cesu8(&[0xED, 0xA0, 0x81, 0xED, 0xB0, 0x4D]).is_err());
    // A surrogate pair without the last byte of its first half.
    assert!(from_cesu8(&[0xED, 0xA0, 0xED, 0xB0, 0x81]).is_err());
}

#[test]
fn bad_continuation_byte_fails() {
    assert!(from_cesu8(&[0xC3, 0x29]).is_err());
    assert!(from_cesu8(&[0xE6, 0x97, 0xC0]).is_err());
    assert!(from_cesu8(&[0xE6, 0x17, 0xA5]).is_err());
}

#[test]
fn overlong_and_stray_bytes_fail() {
    // Overlong forms.
    assert!(from_cesu8(&[0xC0, 0x80]).is_err());
    assert!(from_cesu8(&[0xC1, 0xBF]).is_err());
    assert!(from_cesu8(&[0xE0, 0x80, 0x80]).is_err());
    assert!(from_cesu8(&[0xE0, 0x9F, 0xBF]).is_err());
    // A continuation byte where a sequence should start.
    assert!(from_cesu8(&[0x80]).is_err());
    assert!(from_cesu8(&[0xBF, 0x80]).is_err());
    // Bytes that start nothing.
    assert!(from_cesu8(&[0xF5, 0x80, 0x80, 0x80]).is_err());
    assert!(from_cesu8(&[0xFF]).is_err());
}

#[test]
fn four_byte_sequence_beside_surrogates_fails() {
    // Mixed UTF-8 and CESU-8 is not accepted.
    assert!(from_cesu8(&[
        0xF0, 0x90, 0x90, 0x81, 0xED, 0xA0, 0x81, 0xED, 0xB0, 0x81
    ])
    .is_err());
    assert!(from_cesu8(&[
        0xED, 0xA0, 0x81, 0xED, 0xB0, 0x81, 0xF0, 0x90, 0x90, 0x81
    ])
    .is_err());
}

#[test]
fn delete_is_passed_through_only_in_valid_utf8() {
    // Valid UTF-8 is handed back whatever it holds.
    assert_eq!(from_cesu8(&[0x41, 0x7F]).unwrap(), "A\u{7f}");
    // The decoder itself passes through the bytes below 0x7F only.
    assert_eq!(
        from_cesu8(&[0x7E, 0xED, 0xA0, 0x81, 0xED, 0xB0, 0x81]).unwrap(),
        "~\u{10401}"
    );
    assert!(from_cesu8(&[0x7F, 0xED, 0xA0, 0x81, 0xED, 0xB0, 0x81]).is_err());
    assert!(from_cesu8(&[0xED, 0xA0, 0x81, 0xED, 0xB0, 0x81, 0x7F]).is_err());
}

#[test]
fn decoder_appends_to_what_is_there() {
    let data = [0x4D, 0xED, 0xA0, 0x81, 0xED, 0xB0, 0x81, 0xC3, 0xA9];
    let mut decoded = vec![0x2A];
    let mut iter = ByteIter::new(&data);
    assert!(decode_from_iter(&mut decoded, &mut iter));
    assert_eq!(decoded, vec![0x2A, 0x4D, 0xF0, 0x90, 0x90, 0x81, 0xC3, 0xA9]);
    assert!(iter.as_slice().is_empty());
    assert_eq!(iter.next(), None);
}

#[test]
fn decoder_starts_where_the_cursor_stands() {
    let data = [0xFF, 0x41, 0x42];
    let mut iter = ByteIter::new(&data);
    assert_eq!(iter.next(), Some(0xFF));
    let mut decoded = Vec::new();
    assert!(decode_from_iter(&mut decoded, &mut iter));
    assert_eq!(decoded, vec![0x41, 0x42]);
}

#[test]
fn decoder_on_empty_input_accepts_and_writes_nothing() {
    let data: [u8; 0] = [];
    let mut iter = ByteIter::new(&data);
    let mut decoded = vec![1, 2, 3];
    assert!(decode_from_iter(&mut decoded, &mut iter));
    assert_eq!(decoded, vec![1, 2, 3]);
}

#[test]
fn decoder_keeps_the_characters_before_the_flaw() {
    // The flaw is the missing continuation byte behind 0xC3.
    let data = [0x41, 0xE6, 0x97, 0xA5, 0xC3, 0x42, 0x43];
    let mut decoded = Vec::new();
    let mut iter = ByteIter::new(&data);
    assert!(!decode_from_iter(&mut decoded, &mut iter));
    assert_eq!(decoded, vec![0x41, 0xE6, 0x97, 0xA5]);
    // The byte that did not fit has been read.
    assert_eq!(iter.as_slice(), &[0x43]);
}

#[test]
fn decoder_stops_reading_at_the_flaw() {
    fn left_after(data: &[u8]) -> usize {
        let mut decoded = Vec::new();
        let mut iter = ByteIter::new(data);
        assert!(!decode_from_iter(&mut decoded, &mut iter));
        assert!(decoded.is_empty());
        iter.as_slice().len()
    }
    let tail = [0x41, 0x41, 0x41, 0x41, 0x41, 0x41];
    let cases: [(&[u8], usize); 12] = [
        // 0x7F and a byte that is no continuation byte: both are read.
        (&[0x7F], 1),
        (&[0x7F, 0x41], 2),
        // A byte that starts nothing, and a continuation byte: both are read.
        (&[0xF0, 0x90], 2),
        (&[0x80, 0x80], 2),
        // A two-byte sequence is cut short.
        (&[0xC3], 1),
        // A three-byte sequence with a third byte that is none.
        (&[0xE6, 0x97], 2),
        (&[0xE6, 0x97, 0x41], 3),
        // An overlong form is found when its third byte has been read.
        (&[0xE0, 0x80, 0x80], 3),
        // A first half, then no 0xED.
        (&[0xED, 0xA0, 0x81], 3),
        (&[0xED, 0xA0, 0x81, 0x41], 4),
        // A first half, then 0xED and a byte outside 0xB0..=0xBF.
        (&[0xED, 0xA0, 0x81, 0xED, 0xA0], 5),
        // A first half, then a second half with a last byte that is none.
        (&[0xED, 0xA0, 0x81, 0xED, 0xB0, 0x41], 6),
    ];
    for (head, read) in cases {
        // Alone.
        assert_eq!(left_after(head), head.len() - read, "{:?}", head);
        // In front of more input, where the length of the input is no limit.
        if head.len() == read {
            let mut data = head.to_vec();
            data.extend_from_slice(&tail);
            let expected = data.len() - left_after(&data);
            assert!(expected >= read, "{:?}", head);
        }
    }
}

#[test]
fn error_texts() {
    let error: Cesu8DecodingError = from_cesu8(&[0xED, 0xA0, 0x81]).unwrap_err();
    assert_eq!(error.description(), "decoding error");
    assert_eq!(error.to_string(), "could not convert CESU-8 data to UTF-8");
    let copy = error;
    assert_eq!(format!("{:?}", copy), "Cesu8DecodingError");
    assert_eq!(format!("{:?}", error.clone()), "Cesu8DecodingError");
}
