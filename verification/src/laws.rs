use crate::grammar::{
    decodable_len, decoded_chars, decoded_text, encode_cesu8, encode_cesu8_char, first_unit_len,
    first_unit_scalar, is_cesu8_safe, is_decodable, is_low_surrogate_start, lemma_encode_scalar_bytes,
    lemma_first_unit, lemma_safe_encoding, lemma_three_byte_scalar, starts_with_ascii,
    starts_with_surrogate_pair, starts_with_three_bytes, starts_with_two_bytes,
};
use crate::surrogate::{
    high_surrogate, is_supplementary, lemma_join_split, lemma_split_join,
    lemma_surrogate_sequence, lemma_surrogate_unit, low_surrogate, surrogate_sequence,
    surrogate_unit,
};
use vstd::prelude::*;
use vstd::utf8::{
    char_is_scalar, char_u32_cast, encode_scalar, encode_utf8, encode_utf8_decode_utf8, encode_utf8_valid_utf8,
    is_continuation_byte, partial_valid_partial_invalid_utf8, valid_first_scalar, valid_utf8,
};

verus! {

/// True when the text holds the character U+007F, which the decoder does not
/// pass through.
pub open spec fn has_delete(chars: Seq<char>) -> bool {
    exists|i: int| 0 <= i < chars.len() && #[trigger] chars[i] == '\u{7f}'
}

/// The CESU-8 form of a character has one, two, three or six bytes, by the
/// range of the character, and starts with no continuation byte. In front of
/// any bytes the decoder reads it as that character, unless the character is
/// U+007F.
pub proof fn lemma_encoded_char(c: char, rest: Seq<u8>)
    ensures
        encode_cesu8_char(c).len() == if c as u32 <= 0x7F {
            1int
        } else if c as u32 <= 0x7FF {
            2
        } else if c as u32 <= 0xFFFF {
            3
        } else {
            6
        },
        !is_continuation_byte(encode_cesu8_char(c)[0]),
        c == '\u{7f}' ==> first_unit_len(encode_cesu8_char(c) + rest) == 0,
        c != '\u{7f}' ==> first_unit_len(encode_cesu8_char(c) + rest) == encode_cesu8_char(c).len(),
        c != '\u{7f}' ==> first_unit_scalar(encode_cesu8_char(c) + rest) == c as u32,
{
    char_is_scalar(c);
    let u = c as u32;
    let unit = encode_cesu8_char(c);
    let bytes = unit + rest;
    lemma_encode_scalar_bytes(u);
    if is_supplementary(u) {
        let high = high_surrogate(u) as u32;
        let low = low_surrogate(u) as u32;
        lemma_split_join(u);
        lemma_surrogate_sequence(high);
        lemma_surrogate_sequence(low);
        assert(unit.len() == 6);
        assert(bytes[0] == unit[0] && bytes[1] == unit[1] && bytes[2] == unit[2] && bytes[3]
            == unit[3] && bytes[4] == unit[4] && bytes[5] == unit[5]);
        assert(unit[0] == surrogate_sequence(high)[0]);
        assert(unit[1] == surrogate_sequence(high)[1]);
        assert(unit[2] == surrogate_sequence(high)[2]);
        assert(unit[3] == surrogate_sequence(low)[0]);
        assert(unit[4] == surrogate_sequence(low)[1]);
        assert(unit[5] == surrogate_sequence(low)[2]);
        assert(starts_with_surrogate_pair(bytes));
    } else if u <= 0x7F {
        assert(bytes[0] == unit[0]);
    } else if u <= 0x7FF {
        assert(bytes[0] == unit[0] && bytes[1] == unit[1]);
    } else {
        assert(bytes[0] == unit[0] && bytes[1] == unit[1] && bytes[2] == unit[2]);
        lemma_three_byte_scalar(unit[0], unit[1], unit[2]);
    }
}

/// Encoding a text in front of any bytes: the decoder reads the text, if it
/// holds no U+007F, and goes on with the bytes behind it.
pub proof fn lemma_decode_encoded_prefix(chars: Seq<char>, tail: Seq<u8>)
    requires
        !has_delete(chars),
    ensures
        decodable_len(encode_cesu8(chars) + tail) == encode_cesu8(chars).len() + decodable_len(tail),
        decoded_chars(encode_cesu8(chars) + tail) == chars + decoded_chars(tail),
    decreases chars.len(),
{
    let bytes = encode_cesu8(chars) + tail;
    if chars.len() == 0 {
        assert(bytes =~= tail);
        assert(chars + decoded_chars(tail) =~= decoded_chars(tail));
    } else {
        let c = chars[0];
        let rest = chars.drop_first();
        let unit = encode_cesu8_char(c);
        assert(!has_delete(rest)) by {
            if has_delete(rest) {
                let i = choose|i: int| 0 <= i < rest.len() && #[trigger] rest[i] == '\u{7f}';
                assert(chars[i + 1] == '\u{7f}');
            }
        }
        lemma_decode_encoded_prefix(rest, tail);
        lemma_encoded_char(c, encode_cesu8(rest) + tail);
        assert(bytes =~= unit + (encode_cesu8(rest) + tail));
        assert(bytes.skip(unit.len() as int) =~= encode_cesu8(rest) + tail);
        char_u32_cast(c, c as u32);
        assert(seq![c] + (rest + decoded_chars(tail)) =~= chars + decoded_chars(tail));
    }
}

/// Bytes that the decoder does not accept are not accepted behind an
/// encoded text either.
pub proof fn lemma_undecodable_tail(chars: Seq<char>, tail: Seq<u8>)
    requires
        !is_decodable(tail),
    ensures
        !is_decodable(encode_cesu8(chars) + tail),
    decreases chars.len(),
{
    let bytes = encode_cesu8(chars) + tail;
    if chars.len() == 0 {
        assert(bytes =~= tail);
    } else {
        let c = chars[0];
        let rest = chars.drop_first();
        let unit = encode_cesu8_char(c);
        lemma_undecodable_tail(rest, tail);
        lemma_encoded_char(c, encode_cesu8(rest) + tail);
        assert(bytes =~= unit + (encode_cesu8(rest) + tail));
        assert(bytes.skip(unit.len() as int) =~= encode_cesu8(rest) + tail);
    }
}

/// Bytes that are not valid UTF-8 are not valid UTF-8 behind an encoded text
/// either, and the CESU-8 form of a text with a character beyond U+FFFF is
/// not valid UTF-8 in front of any bytes.
pub proof fn lemma_invalid_utf8_tail(chars: Seq<char>, tail: Seq<u8>)
    requires
        !valid_utf8(tail) || !is_cesu8_safe(chars),
    ensures
        !valid_utf8(encode_cesu8(chars) + tail),
    decreases chars.len(),
{
    let bytes = encode_cesu8(chars) + tail;
    if chars.len() == 0 {
        assert(bytes =~= tail);
    } else {
        let c = chars[0];
        let rest = chars.drop_first();
        let unit = encode_cesu8_char(c);
        let behind = encode_cesu8(rest) + tail;
        assert(bytes =~= unit + behind);
        lemma_encoded_char(c, behind);
        char_is_scalar(c);
        if is_supplementary(c as u32) {
            let high = high_surrogate(c as u32) as u32;
            lemma_split_join(c as u32);
            lemma_surrogate_sequence(high);
            assert(bytes[0] == surrogate_sequence(high)[0]);
            assert(bytes[1] == surrogate_sequence(high)[1]);
            assert(bytes[2] == surrogate_sequence(high)[2]);
            lemma_surrogate_unit(bytes[1], bytes[2]);
        } else {
            assert(!valid_utf8(behind)) by {
                if valid_utf8(tail) {
                    assert(!is_cesu8_safe(rest)) by {
                        if is_cesu8_safe(rest) {
                            assert forall|i: int| 0 <= i < chars.len() implies !is_supplementary(
                                #[trigger] chars[i] as u32,
                            ) by {
                                if i > 0 {
                                    assert(chars[i] == rest[i - 1]);
                                }
                            }
                        }
                    }
                }
                lemma_invalid_utf8_tail(rest, tail);
            }
            encode_utf8_valid_utf8(seq![c]);
            assert(encode_utf8(seq![c]) =~= unit) by {
                assert(seq![c].drop_first() =~= Seq::<char>::empty());
                assert(encode_utf8(Seq::<char>::empty()) =~= Seq::<u8>::empty());
            }
            assert(bytes.subrange(0, unit.len() as int) =~= unit);
            assert(bytes.subrange(unit.len() as int, bytes.len() as int) =~= behind);
            partial_valid_partial_invalid_utf8(bytes, unit.len() as int);
        }
    }
}

/// Bytes that begin with no whole sequence, neither of CESU-8 nor of UTF-8,
/// are rejected behind any encoded text.
pub proof fn lemma_flawed_tail_rejected(chars: Seq<char>, tail: Seq<u8>)
    requires
        tail.len() > 0,
        first_unit_len(tail) == 0,
        !valid_first_scalar(tail),
    ensures
        decoded_text(encode_cesu8(chars) + tail).is_none(),
{
    lemma_undecodable_tail(chars, tail);
    lemma_invalid_utf8_tail(chars, tail);
}

/// The CESU-8 form of a text that is not empty starts with a byte that is no
/// continuation byte.
pub proof fn lemma_encoding_starts_sequence(chars: Seq<char>)
    requires
        chars.len() > 0,
    ensures
        encode_cesu8(chars).len() > 0,
        !is_continuation_byte(encode_cesu8(chars)[0]),
{
    lemma_encoded_char(chars[0], encode_cesu8(chars.drop_first()));
}

/// Truncation is rejected: take the CESU-8 form of a text, and remove the
/// last byte of the sequence of one of its characters from U+0080 on. The
/// decoder fails on what is left.
pub proof fn lemma_truncated_sequence_rejected(before: Seq<char>, c: char, after: Seq<char>)
    requires
        c as u32 >= 0x80,
    ensures
        decoded_text(
            encode_cesu8(before) + (encode_cesu8_char(c).drop_last() + encode_cesu8(after)),
        ).is_none(),
{
    let unit = encode_cesu8_char(c);
    let behind = encode_cesu8(after);
    let tail = unit.drop_last() + behind;
    char_is_scalar(c);
    lemma_encoded_char(c, behind);
    lemma_encode_scalar_bytes(c as u32);
    if after.len() > 0 {
        lemma_encoding_starts_sequence(after);
    }
    assert(tail[0] == unit[0]);
    if is_supplementary(c as u32) {
        let high = high_surrogate(c as u32) as u32;
        let low = low_surrogate(c as u32) as u32;
        lemma_split_join(c as u32);
        lemma_surrogate_sequence(high);
        lemma_surrogate_sequence(low);
        assert(tail[0] == surrogate_sequence(high)[0]);
        assert(tail[1] == surrogate_sequence(high)[1]);
        assert(tail[2] == surrogate_sequence(high)[2]);
        assert(tail.len() > 5 ==> tail[5] == behind[0]);
        lemma_surrogate_unit(tail[1], tail[2]);
    } else if c as u32 <= 0x7FF {
        assert(tail.len() > 1 ==> tail[1] == behind[0]);
    } else {
        assert(tail[1] == unit[1]);
        assert(tail.len() > 2 ==> tail[2] == behind[0]);
    }
    lemma_flawed_tail_rejected(before, tail);
}

/// Truncation of the first half is rejected: take the CESU-8 form of a text,
/// and remove the last byte of the high-surrogate sequence of one of its
/// characters beyond U+FFFF. The decoder fails on what is left.
pub proof fn lemma_truncated_high_surrogate_rejected(before: Seq<char>, c: char, after: Seq<char>)
    requires
        is_supplementary(c as u32),
    ensures
        decoded_text(
            encode_cesu8(before) + (surrogate_sequence(high_surrogate(c as u32) as u32).drop_last()
                + surrogate_sequence(low_surrogate(c as u32) as u32) + encode_cesu8(after)),
        ).is_none(),
{
    let high = high_surrogate(c as u32) as u32;
    let low = low_surrogate(c as u32) as u32;
    let tail = surrogate_sequence(high).drop_last() + surrogate_sequence(low) + encode_cesu8(after);
    lemma_split_join(c as u32);
    lemma_surrogate_sequence(high);
    lemma_surrogate_sequence(low);
    assert(tail[0] == surrogate_sequence(high)[0]);
    assert(tail[1] == surrogate_sequence(high)[1]);
    assert(tail[2] == surrogate_sequence(low)[0]);
    lemma_flawed_tail_rejected(before, tail);
}

/// Mismatched halves are rejected: behind any encoded text, the sequence of
/// a high surrogate that is not followed by the sequence of a low surrogate
/// makes the decoder fail, whatever follows instead.
pub proof fn lemma_unmatched_high_surrogate_rejected(
    before: Seq<char>,
    second: u8,
    third: u8,
    rest: Seq<u8>,
)
    requires
        0xA0 <= second <= 0xAF,
        is_continuation_byte(third),
        !(rest.len() >= 3 && is_low_surrogate_start(rest[0], rest[1]) && is_continuation_byte(
            rest[2],
        )),
    ensures
        decoded_text(encode_cesu8(before) + (seq![0xEDu8, second, third] + rest)).is_none(),
{
    let tail = seq![0xEDu8, second, third] + rest;
    assert(tail[0] == 0xED && tail[1] == second && tail[2] == third);
    assert(tail.len() >= 6 ==> tail[3] == rest[0] && tail[4] == rest[1] && tail[5] == rest[2]);
    lemma_surrogate_unit(second, third);
    lemma_flawed_tail_rejected(before, tail);
}

/// What the decoder accepts is CESU-8: the characters it reads hold no
/// U+007F, and encoding them gives the accepted bytes back.
pub proof fn lemma_decoded_encodes_back(bytes: Seq<u8>)
    requires
        is_decodable(bytes),
    ensures
        !has_delete(decoded_chars(bytes)),
        encode_cesu8(decoded_chars(bytes)) == bytes,
    decreases bytes.len(),
{
    let len = first_unit_len(bytes);
    if len == 0 {
        assert(bytes =~= Seq::<u8>::empty());
    } else {
        let rest = bytes.skip(len);
        let u = first_unit_scalar(bytes);
        let c = u as char;
        let chars = decoded_chars(bytes);
        lemma_first_unit(bytes);
        lemma_decoded_encodes_back(rest);
        assert(chars == seq![c] + decoded_chars(rest));
        assert(chars[0] == c);
        assert(chars.drop_first() =~= decoded_chars(rest));
        assert(c as u32 == u);
        if starts_with_surrogate_pair(bytes) && !starts_with_three_bytes(bytes)
            && !starts_with_two_bytes(bytes) && !starts_with_ascii(bytes) {
            let high = surrogate_unit(bytes[1], bytes[2]);
            let low = surrogate_unit(bytes[4], bytes[5]);
            lemma_surrogate_unit(bytes[1], bytes[2]);
            lemma_surrogate_unit(bytes[4], bytes[5]);
            lemma_join_split(high, low);
            lemma_three_byte_scalar(0xED, bytes[1], bytes[2]);
            lemma_three_byte_scalar(0xED, bytes[4], bytes[5]);
            assert(encode_cesu8_char(c) =~= bytes.take(6));
        }
        assert(encode_cesu8_char(c) == bytes.take(len));
        assert(bytes.take(len) + rest =~= bytes);
        assert(!has_delete(chars)) by {
            if has_delete(chars) {
                let i = choose|i: int| 0 <= i < chars.len() && #[trigger] chars[i] == '\u{7f}';
                if i > 0 {
                    assert(decoded_chars(rest)[i - 1] == chars[i]);
                }
            }
        }
    }
}

/// A text without characters beyond U+FFFF goes through encoding and
/// decoding unchanged, and neither step makes a copy: the encoder hands back
/// the UTF-8 bytes of the text, and the decoder, finding them valid UTF-8,
/// hands back the text they hold.
pub proof fn lemma_round_trip_safe(chars: Seq<char>)
    requires
        is_cesu8_safe(chars),
    ensures
        encode_cesu8(chars) == encode_utf8(chars),
        valid_utf8(encode_cesu8(chars)),
        decoded_text(encode_cesu8(chars)) == Some(chars),
{
    lemma_safe_encoding(chars);
    encode_utf8_valid_utf8(chars);
    encode_utf8_decode_utf8(chars);
}

/// A text with a character beyond U+FFFF, and without U+007F, goes through
/// encoding and decoding unchanged. Its CESU-8 form is not valid UTF-8 and so
/// differs from its UTF-8 form: both steps make a copy. Each character
/// beyond U+FFFF takes six bytes where UTF-8 takes four.
pub proof fn lemma_round_trip_supplementary(chars: Seq<char>)
    requires
        !is_cesu8_safe(chars),
        !has_delete(chars),
    ensures
        decoded_text(encode_cesu8(chars)) == Some(chars),
        !valid_utf8(encode_cesu8(chars)),
        encode_cesu8(chars) != encode_utf8(chars),
        forall|i: int|
            0 <= i < chars.len() && is_supplementary(#[trigger] chars[i] as u32)
                ==> encode_cesu8_char(chars[i]).len() == 6 && encode_scalar(chars[i] as u32).len()
                == 4,
{
    let bytes = encode_cesu8(chars);
    let none = Seq::<u8>::empty();
    assert(bytes + none =~= bytes);
    assert(decodable_len(none) == 0);
    assert(decoded_chars(none) =~= Seq::<char>::empty());
    lemma_decode_encoded_prefix(chars, none);
    lemma_invalid_utf8_tail(chars, none);
    encode_utf8_valid_utf8(chars);
    assert(chars + Seq::<char>::empty() =~= chars);
    assert forall|i: int|
        0 <= i < chars.len() && is_supplementary(
            #[trigger] chars[i] as u32,
        ) implies encode_cesu8_char(chars[i]).len() == 6 && encode_scalar(chars[i] as u32).len()
        == 4 by {
        lemma_encoded_char(chars[i], none);
    }
}

} // verus!
