use crate::surrogate::{
    high_surrogate, is_supplementary, join_surrogates, lemma_join_split, lemma_surrogate_unit,
    low_surrogate, surrogate_sequence, surrogate_unit,
};
use crate::unicode::char_width;
use vstd::prelude::*;
use vstd::utf8::*;

verus! {

/// The CESU-8 form of one character: its UTF-8 form up to U+FFFF, and beyond
/// that the three-byte sequences of its high and its low surrogate.
pub open spec fn encode_cesu8_char(c: char) -> Seq<u8> {
    if is_supplementary(c as u32) {
        surrogate_sequence(high_surrogate(c as u32) as u32) + surrogate_sequence(
            low_surrogate(c as u32) as u32,
        )
    } else {
        encode_scalar(c as u32)
    }
}

/// The CESU-8 form of a text.
pub open spec fn encode_cesu8(chars: Seq<char>) -> Seq<u8>
    decreases chars.len(),
{
    if chars.len() == 0 {
        seq![]
    } else {
        encode_cesu8_char(chars[0]) + encode_cesu8(chars.drop_first())
    }
}

/// True when no character of the text lies beyond U+FFFF, so that its UTF-8
/// form is its CESU-8 form as well.
pub open spec fn is_cesu8_safe(chars: Seq<char>) -> bool {
    forall|i: int| 0 <= i < chars.len() ==> !is_supplementary(#[trigger] chars[i] as u32)
}

/// True when `first` and `second` begin a three-byte sequence that UTF-8
/// accepts: no overlong form and no surrogate.
pub open spec fn is_plain_three_byte_start(first: u8, second: u8) -> bool {
    ||| first == 0xE0 && 0xA0 <= second <= 0xBF
    ||| 0xE1 <= first <= 0xEC && 0x80 <= second <= 0xBF
    ||| first == 0xED && 0x80 <= second <= 0x9F
    ||| 0xEE <= first <= 0xEF && 0x80 <= second <= 0xBF
}

/// True when `first` and `second` begin the sequence of a high surrogate.
pub open spec fn is_high_surrogate_start(first: u8, second: u8) -> bool {
    first == 0xED && 0xA0 <= second <= 0xAF
}

/// True when `first` and `second` begin the sequence of a low surrogate.
pub open spec fn is_low_surrogate_start(first: u8, second: u8) -> bool {
    first == 0xED && 0xB0 <= second <= 0xBF
}

/// True when `bytes` begins with a single byte that the decoder passes
/// through. The byte 0x7F is not among them.
pub open spec fn starts_with_ascii(bytes: Seq<u8>) -> bool {
    bytes.len() >= 1 && bytes[0] < 0x7F
}

/// True when `bytes` begins with a two-byte sequence.
pub open spec fn starts_with_two_bytes(bytes: Seq<u8>) -> bool {
    &&& bytes.len() >= 2
    &&& char_width(bytes[0]) == 2
    &&& is_continuation_byte(bytes[1])
}

/// True when `bytes` begins with a three-byte sequence that is no surrogate.
pub open spec fn starts_with_three_bytes(bytes: Seq<u8>) -> bool {
    &&& bytes.len() >= 3
    &&& is_plain_three_byte_start(bytes[0], bytes[1])
    &&& is_continuation_byte(bytes[2])
}

/// True when `bytes` begins with the six bytes of a surrogate pair.
pub open spec fn starts_with_surrogate_pair(bytes: Seq<u8>) -> bool {
    &&& bytes.len() >= 6
    &&& is_high_surrogate_start(bytes[0], bytes[1])
    &&& is_continuation_byte(bytes[2])
    &&& is_low_surrogate_start(bytes[3], bytes[4])
    &&& is_continuation_byte(bytes[5])
}

/// The length of the sequence of one character at the start of `bytes`, or 0
/// when `bytes` begins with none.
pub open spec fn first_unit_len(bytes: Seq<u8>) -> int {
    if starts_with_ascii(bytes) {
        1
    } else if starts_with_two_bytes(bytes) {
        2
    } else if starts_with_three_bytes(bytes) {
        3
    } else if starts_with_surrogate_pair(bytes) {
        6
    } else {
        0
    }
}

/// The code point of the sequence at the start of `bytes`.
pub open spec fn first_unit_scalar(bytes: Seq<u8>) -> u32
    recommends
        first_unit_len(bytes) > 0,
{
    if starts_with_surrogate_pair(bytes) {
        join_surrogates(
            surrogate_unit(bytes[1], bytes[2]),
            surrogate_unit(bytes[4], bytes[5]),
        ) as u32
    } else {
        decode_first_codepoint(bytes)
    }
}

/// The number of bytes at the start of `bytes` that form whole sequences.
pub open spec fn decodable_len(bytes: Seq<u8>) -> int
    decreases bytes.len(),
{
    if first_unit_len(bytes) == 0 {
        0
    } else {
        first_unit_len(bytes) + decodable_len(bytes.skip(first_unit_len(bytes)))
    }
}

/// The characters of the whole sequences at the start of `bytes`.
pub open spec fn decoded_chars(bytes: Seq<u8>) -> Seq<char>
    decreases bytes.len(),
{
    if first_unit_len(bytes) == 0 {
        seq![]
    } else {
        seq![first_unit_scalar(bytes) as char] + decoded_chars(bytes.skip(first_unit_len(bytes)))
    }
}

/// True when `bytes` is made of whole sequences from its start to its end:
/// the input that the decoder accepts.
pub open spec fn is_decodable(bytes: Seq<u8>) -> bool {
    decodable_len(bytes) == bytes.len()
}

/// The number of bytes that the decoder has read when it gives up on
/// `bytes`, which begins with no whole sequence: it stops at the first byte
/// that does not fit, or where the input ends.
pub open spec fn rejected_len(bytes: Seq<u8>) -> int
    recommends
        bytes.len() > 0,
        first_unit_len(bytes) == 0,
{
    if bytes.len() < 2 {
        1
    } else if !is_continuation_byte(bytes[1]) || char_width(bytes[0]) != 3 {
        2
    } else if bytes.len() < 3 {
        2
    } else if !is_continuation_byte(bytes[2]) || !is_high_surrogate_start(bytes[0], bytes[1]) {
        3
    } else if bytes.len() < 4 {
        3
    } else if bytes[3] != 0xED {
        4
    } else if bytes.len() < 5 {
        4
    } else if !is_low_surrogate_start(bytes[3], bytes[4]) {
        5
    } else if bytes.len() < 6 {
        5
    } else {
        6
    }
}

/// The number of bytes that the decoder reads of `bytes`: all of them when
/// it accepts, else the whole sequences and what it read of the next.
pub open spec fn consumed_len(bytes: Seq<u8>) -> int {
    if is_decodable(bytes) {
        bytes.len() as int
    } else {
        decodable_len(bytes) + rejected_len(bytes.skip(decodable_len(bytes)))
    }
}

/// The text that `bytes` stands for: read as UTF-8 where that is valid, else
/// as CESU-8 where the decoder accepts it.
pub open spec fn decoded_text(bytes: Seq<u8>) -> Option<Seq<char>> {
    if valid_utf8(bytes) {
        Some(decode_utf8(bytes))
    } else if is_decodable(bytes) {
        Some(decoded_chars(bytes))
    } else {
        None
    }
}

/// What one byte below 0x80 encodes, and that it encodes back to itself.
pub proof fn lemma_one_byte_scalar(b0: u8)
    by (bit_vector)
    requires
        b0 <= 0x7F,
    ensures
        codepoint_width_1(b0) == b0,
        leading_byte_width_1(b0 as u32) == b0,
{
}

/// The range of what a two-byte sequence encodes, and that it encodes back
/// to the same bytes.
pub proof fn lemma_two_byte_scalar(b0: u8, b1: u8)
    by (bit_vector)
    requires
        0xC2 <= b0 <= 0xDF,
        0x80 <= b1 <= 0xBF,
    ensures
        0x80 <= codepoint_width_2(b0, b1) <= 0x7FF,
        leading_byte_width_2(codepoint_width_2(b0, b1)) == b0,
        last_continuation_byte(codepoint_width_2(b0, b1)) == b1,
{
}

/// The range of what a three-byte sequence encodes, by its first two bytes,
/// and that it encodes back to the same bytes.
pub proof fn lemma_three_byte_scalar(b0: u8, b1: u8, b2: u8)
    by (bit_vector)
    requires
        0xE0 <= b0 <= 0xEF,
        0x80 <= b1 <= 0xBF,
        0x80 <= b2 <= 0xBF,
    ensures
        codepoint_width_3(b0, b1, b2) <= 0xFFFF,
        0x800 <= codepoint_width_3(b0, b1, b2) <==> !(b0 == 0xE0 && b1 < 0xA0),
        0xD800 <= codepoint_width_3(b0, b1, b2) <= 0xDBFF <==> b0 == 0xED && 0xA0 <= b1 <= 0xAF,
        0xDC00 <= codepoint_width_3(b0, b1, b2) <= 0xDFFF <==> b0 == 0xED && 0xB0 <= b1,
        leading_byte_width_3(codepoint_width_3(b0, b1, b2)) == b0,
        second_last_continuation_byte(codepoint_width_3(b0, b1, b2)) == b1,
        last_continuation_byte(codepoint_width_3(b0, b1, b2)) == b2,
{
}

/// The bytes of the UTF-8 form of a code point: where they lie, and that
/// decoding them gives the code point back.
pub proof fn lemma_encode_scalar_bytes(c: u32)
    by (bit_vector)
    requires
        c <= 0x10FFFF,
    ensures
        c <= 0x7F ==> leading_byte_width_1(c) == c,
        0x80 <= c <= 0x7FF ==> 0xC2 <= leading_byte_width_2(c) <= 0xDF && 0x80
            <= last_continuation_byte(c) <= 0xBF && codepoint_width_2(
            leading_byte_width_2(c),
            last_continuation_byte(c),
        ) == c,
        0x800 <= c <= 0xFFFF ==> 0xE0 <= leading_byte_width_3(c) <= 0xEF && 0x80
            <= second_last_continuation_byte(c) <= 0xBF && 0x80 <= last_continuation_byte(c)
            <= 0xBF && codepoint_width_3(
            leading_byte_width_3(c),
            second_last_continuation_byte(c),
            last_continuation_byte(c),
        ) == c,
        0x10000 <= c <= 0x10FFFF ==> 0xF0 <= leading_byte_width_4(c) <= 0xF4 && 0x80
            <= third_last_continuation_byte(c) <= 0xBF && 0x80 <= second_last_continuation_byte(c)
            <= 0xBF && 0x80 <= last_continuation_byte(c) <= 0xBF && codepoint_width_4(
            leading_byte_width_4(c),
            third_last_continuation_byte(c),
            second_last_continuation_byte(c),
            last_continuation_byte(c),
        ) == c,
{
}

/// The range of what a sequence of the given leading byte and continuation
/// bytes encodes, whatever its length.
pub proof fn lemma_codepoint_ranges(b0: u8, b1: u8, b2: u8, b3: u8)
    by (bit_vector)
    requires
        0x80 <= b1 <= 0xBF,
        0x80 <= b2 <= 0xBF,
        0x80 <= b3 <= 0xBF,
    ensures
        b0 <= 0x7F ==> codepoint_width_1(b0) <= 0x7F,
        0xC0 <= b0 <= 0xDF ==> codepoint_width_2(b0, b1) <= 0x7FF && (0x80 <= codepoint_width_2(
            b0,
            b1,
        ) <==> 0xC2 <= b0),
        0xE0 <= b0 <= 0xEF ==> codepoint_width_3(b0, b1, b2) <= 0xFFFF,
        0xF0 <= b0 <= 0xF7 ==> (codepoint_width_4(b0, b1, b2, b3) <= 0x10FFFF ==> b0 <= 0xF4),
{
}

/// Where `bytes` begins with a valid UTF-8 sequence, the classifier gives
/// the length of that sequence from its first byte, and the sequence has
/// four bytes exactly when it encodes a code point beyond U+FFFF.
pub proof fn lemma_valid_first_scalar(bytes: Seq<u8>)
    requires
        valid_first_scalar(bytes),
    ensures
        char_width(bytes[0]) == length_of_first_scalar(bytes),
        1 <= length_of_first_scalar(bytes) <= bytes.len(),
        is_scalar(decode_first_scalar(bytes)),
        length_of_first_scalar(bytes) == 4 <==> is_supplementary(decode_first_scalar(bytes)),
{
    let b0 = bytes[0];
    if is_leading_byte_width_1(b0) {
        lemma_codepoint_ranges(b0, 0x80, 0x80, 0x80);
    } else if is_leading_byte_width_2(b0) {
        lemma_codepoint_ranges(b0, bytes[1], 0x80, 0x80);
    } else if is_leading_byte_width_3(b0) {
        lemma_codepoint_ranges(b0, bytes[1], bytes[2], 0x80);
    } else {
        lemma_codepoint_ranges(b0, bytes[1], bytes[2], bytes[3]);
    }
}

/// A text without characters beyond U+FFFF has the same form in CESU-8 as in
/// UTF-8.
pub proof fn lemma_safe_encoding(chars: Seq<char>)
    requires
        is_cesu8_safe(chars),
    ensures
        encode_cesu8(chars) == encode_utf8(chars),
    decreases chars.len(),
{
    if chars.len() > 0 {
        assert(!is_supplementary(chars[0] as u32));
        lemma_safe_encoding(chars.drop_first());
    }
}

/// A text has a character beyond U+FFFF exactly when its UTF-8 form has a
/// byte that starts a four-byte sequence.
pub proof fn lemma_safe_by_leading_bytes(chars: Seq<char>)
    ensures
        is_cesu8_safe(chars) <==> forall|j: int|
            0 <= j < encode_utf8(chars).len() ==> char_width(#[trigger] encode_utf8(chars)[j]) <= 3,
    decreases chars.len(),
{
    if chars.len() > 0 {
        char_is_scalar(chars[0]);
        let c = chars[0] as u32;
        let head = encode_scalar(c);
        let tail = encode_utf8(chars.drop_first());
        let all = encode_utf8(chars);
        lemma_safe_by_leading_bytes(chars.drop_first());
        lemma_encode_scalar_bytes(c);
        assert(all == head + tail);
        if is_supplementary(c) {
            assert(char_width(all[0]) == 4);
        } else if is_cesu8_safe(chars.drop_first()) {
            assert forall|i: int| 0 <= i < chars.len() implies !is_supplementary(
                #[trigger] chars[i] as u32,
            ) by {
                if i > 0 {
                    assert(chars[i] == chars.drop_first()[i - 1]);
                }
            }
            assert forall|j: int| 0 <= j < all.len() implies char_width(#[trigger] all[j])
                <= 3 by {
                if j >= head.len() {
                    assert(all[j] == tail[j - head.len()]);
                }
            }
        } else {
            let k = choose|k: int|
                0 <= k < tail.len() && char_width(#[trigger] tail[k]) > 3;
            assert(all[head.len() + k] == tail[k]);
            assert(!is_cesu8_safe(chars)) by {
                if is_cesu8_safe(chars) {
                    assert forall|i: int| 0 <= i < chars.drop_first().len() implies !is_supplementary(
                        #[trigger] chars.drop_first()[i] as u32,
                    ) by {
                        assert(chars.drop_first()[i] == chars[i + 1]);
                    }
                }
            }
        }
    }
}

/// The sequence at the start of `bytes` encodes a scalar value other than
/// U+007F. Unless it is a surrogate pair, it is the UTF-8 form of that
/// value; a surrogate pair encodes a value beyond U+FFFF.
pub proof fn lemma_first_unit(bytes: Seq<u8>)
    requires
        first_unit_len(bytes) > 0,
    ensures
        is_scalar(first_unit_scalar(bytes)),
        first_unit_scalar(bytes) != 0x7F,
        starts_with_surrogate_pair(bytes) <==> is_supplementary(first_unit_scalar(bytes)),
        !starts_with_surrogate_pair(bytes) ==> encode_scalar(first_unit_scalar(bytes))
            == bytes.take(first_unit_len(bytes)),
{
    if starts_with_ascii(bytes) {
        lemma_one_byte_scalar(bytes[0]);
        assert(encode_scalar(first_unit_scalar(bytes)) =~= bytes.take(1));
    } else if starts_with_two_bytes(bytes) {
        lemma_two_byte_scalar(bytes[0], bytes[1]);
        assert(encode_scalar(first_unit_scalar(bytes)) =~= bytes.take(2));
    } else if starts_with_three_bytes(bytes) {
        lemma_three_byte_scalar(bytes[0], bytes[1], bytes[2]);
        assert(encode_scalar(first_unit_scalar(bytes)) =~= bytes.take(3));
    } else {
        lemma_surrogate_unit(bytes[1], bytes[2]);
        lemma_surrogate_unit(bytes[4], bytes[5]);
        lemma_join_split(
            surrogate_unit(bytes[1], bytes[2]),
            surrogate_unit(bytes[4], bytes[5]),
        );
    }
}

} // verus!
