use cesu8::{dec_surrogate, dec_surrogates, enc_surrogate, utf16_units, utf8_char_width};

#[test]
fn width_by_leading_byte() {
    for b in 0x00..=0x7Fu8 {
        assert_eq!(utf8_char_width(b), 1, "{:#x}", b);
    }
    for b in 0x80..=0xC1u8 {
        assert_eq!(utf8_char_width(b), 0, "{:#x}", b);
    }
    for b in 0xC2..=0xDFu8 {
        assert_eq!(utf8_char_width(b), 2, "{:#x}", b);
    }
    for b in 0xE0..=0xEFu8 {
        assert_eq!(utf8_char_width(b), 3, "{:#x}", b);
    }
    for b in 0xF0..=0xF4u8 {
        assert_eq!(utf8_char_width(b), 4, "{:#x}", b);
    }
    for b in 0xF5..=0xFFu8 {
        assert_eq!(utf8_char_width(b), 0, "{:#x}", b);
    }
}

#[test]
fn width_agrees_with_std_on_every_character_start() {
    for c in ['\0', 'a', '\u{7f}', '\u{80}', 'é', '\u{7ff}', '\u{800}', '日', '\u{ffff}', '\u{10000}', '𐐷', '\u{10FFFF}'] {
        let mut buf = [0u8; 4];
        let encoded = c.encode_utf8(&mut buf);
        assert_eq!(utf8_char_width(encoded.as_bytes()[0]), c.len_utf8());
    }
}

#[test]
fn code_unit_from_trailing_bytes() {
    assert_eq!(dec_surrogate(0xA0, 0x81), 0xD801);
    assert_eq!(dec_surrogate(0xB0, 0x81), 0xDC01);
    assert_eq!(dec_surrogate(0xA0, 0x80), 0xD800);
    assert_eq!(dec_surrogate(0xAF, 0xBF), 0xDBFF);
    assert_eq!(dec_surrogate(0xB0, 0x80), 0xDC00);
    assert_eq!(dec_surrogate(0xBF, 0xBF), 0xDFFF);
    assert_eq!(dec_surrogate(0xAE, 0x80), 0xDB80);
    // Only the low six bits of each byte count.
    assert_eq!(dec_surrogate(0x20, 0x01), 0xD801);
    assert_eq!(dec_surrogate(0x80, 0x80), 0xD000);
}

#[test]
fn pair_to_four_bytes() {
    assert_eq!(
        dec_surrogates(0xA0, 0x81, 0xB0, 0x81),
        [0xF0, 0x90, 0x90, 0x81]
    );
    assert_eq!(dec_surrogates(0xA0, 0x81, 0xB0, 0x81), "\u{10401}".as_bytes());
    assert_eq!(dec_surrogates(0xA0, 0x81, 0xB0, 0xB7), "\u{10437}".as_bytes());
    assert_eq!(dec_surrogates(0xA0, 0x80, 0xB0, 0x80), "\u{10000}".as_bytes());
    assert_eq!(dec_surrogates(0xAF, 0xBF, 0xBF, 0xBF), "\u{10FFFF}".as_bytes());
    assert_eq!(dec_surrogates(0xAE, 0x80, 0xB0, 0x80), "\u{F0000}".as_bytes());
}

#[test]
fn pair_to_four_bytes_agrees_with_std() {
    for c in ['\u{10000}', '\u{10401}', '\u{1F600}', '\u{2FFFF}', '\u{FFFFF}', '\u{100000}', '\u{10FFFF}'] {
        let mut units = [0u16; 2];
        c.encode_utf16(&mut units);
        let high = enc_surrogate(units[0]);
        let low = enc_surrogate(units[1]);
        let mut buf = [0u8; 4];
        c.encode_utf8(&mut buf);
        assert_eq!(dec_surrogates(high[1], high[2], low[1], low[2]), buf);
    }
}

#[test]
fn code_unit_to_three_bytes() {
    assert_eq!(enc_surrogate(0xD801), [0xED, 0xA0, 0x81]);
    assert_eq!(enc_surrogate(0xDC37), [0xED, 0xB0, 0xB7]);
    assert_eq!(enc_surrogate(0xD800), [0xED, 0xA0, 0x80]);
    assert_eq!(enc_surrogate(0xDBFF), [0xED, 0xAF, 0xBF]);
    assert_eq!(enc_surrogate(0xDC00), [0xED, 0xB0, 0x80]);
    assert_eq!(enc_surrogate(0xDFFF), [0xED, 0xBF, 0xBF]);
}

#[test]
fn code_unit_survives_three_bytes() {
    let mut unit = 0xD800u16;
    loop {
        let bytes = enc_surrogate(unit);
        assert_eq!(bytes[0], 0xED);
        assert_eq!(dec_surrogate(bytes[1], bytes[2]), unit as u32);
        if unit == 0xDFFF {
            break;
        }
        unit += 1;
    }
}

#[test]
fn four_bytes_to_code_units() {
    assert_eq!(utf16_units(0xF0, 0x90, 0x90, 0xB7), (0xD801, 0xDC37));
    assert_eq!(utf16_units(0xF0, 0x90, 0x90, 0x81), (0xD801, 0xDC01));
    assert_eq!(utf16_units(0xF0, 0x90, 0x80, 0x80), (0xD800, 0xDC00));
    assert_eq!(utf16_units(0xF4, 0x8F, 0xBF, 0xBF), (0xDBFF, 0xDFFF));
}

#[test]
fn four_bytes_to_code_units_agrees_with_std() {
    for c in ['\u{10000}', '\u{10401}', '\u{1F600}', '\u{2FFFF}', '\u{FFFFF}', '\u{100000}', '\u{10FFFF}'] {
        let mut buf = [0u8; 4];
        c.encode_utf8(&mut buf);
        let mut units = [0u16; 2];
        c.encode_utf16(&mut units);
        assert_eq!(utf16_units(buf[0], buf[1], buf[2], buf[3]), (units[0], units[1]));
    }
}
