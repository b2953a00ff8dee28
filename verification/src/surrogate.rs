use vstd::prelude::*;
use vstd::utf8::*;

verus! {

/// Mask of the value bits of a continuation byte.
pub const CONT_MASK: u8 = 0b0011_1111u8;

/// Value of the tag bits of a continuation byte.
pub const TAG_CONT_U8: u8 = 0b1000_0000u8;

/// Tag bits of the leading byte of a three-byte sequence.
pub const TAG_THREE_U8: u8 = 0b1110_0000u8;

/// Tag bits of the leading byte of a four-byte sequence.
pub const TAG_FOUR_U8: u8 = 0b1111_0000u8;

/// First code unit of the high-surrogate range.
pub const HIGH_SURROGATE_START: u32 = 0xD800u32;

/// First code unit of the low-surrogate range.
pub const LOW_SURROGATE_START: u32 = 0xDC00u32;

/// First code point beyond the basic multilingual plane.
pub const SUPPLEMENTARY_START: u32 = 0x10000u32;

/// True for the first code unit of a UTF-16 surrogate pair.
pub open spec fn is_high_surrogate(unit: u32) -> bool {
    0xD800 <= unit <= 0xDBFF
}

/// True for the second code unit of a UTF-16 surrogate pair.
pub open spec fn is_low_surrogate(unit: u32) -> bool {
    0xDC00 <= unit <= 0xDFFF
}

/// True for the code points that UTF-16 writes as a surrogate pair.
pub open spec fn is_supplementary(c: u32) -> bool {
    0x10000 <= c <= 0x10FFFF
}

/// The code point that the surrogate pair `(high, low)` stands for.
pub open spec fn join_surrogates(high: u32, low: u32) -> int
    recommends
        is_high_surrogate(high),
        is_low_surrogate(low),
{
    0x10000 + (high - 0xD800) * 0x400 + (low - 0xDC00)
}

/// The first code unit of the surrogate pair of `c`.
pub open spec fn high_surrogate(c: u32) -> int
    recommends
        is_supplementary(c),
{
    0xD800 + (c - 0x10000) / 0x400
}

/// The second code unit of the surrogate pair of `c`.
pub open spec fn low_surrogate(c: u32) -> int
    recommends
        is_supplementary(c),
{
    0xDC00 + (c - 0x10000) % 0x400
}

/// The code unit carried by the three-byte sequence `0xED second third`.
pub open spec fn surrogate_unit(second: u8, third: u8) -> u32 {
    0xD000u32 | (((second & CONT_MASK) as u32) << 6) | ((third & CONT_MASK) as u32)
}

/// The three-byte sequence that carries the code unit `unit`: its top four
/// bits in the leading byte, then six bits in each continuation byte.
pub open spec fn surrogate_sequence(unit: u32) -> Seq<u8> {
    seq![
        leading_byte_width_3(unit),
        second_last_continuation_byte(unit),
        last_continuation_byte(unit),
    ]
}

/// Splitting a supplementary code point and joining the halves gives it back,
/// and the halves lie in their ranges.
pub proof fn lemma_split_join(c: u32)
    requires
        is_supplementary(c),
    ensures
        is_high_surrogate(high_surrogate(c) as u32),
        is_low_surrogate(low_surrogate(c) as u32),
        join_surrogates(high_surrogate(c) as u32, low_surrogate(c) as u32) == c,
{
}

/// Joining a surrogate pair gives a supplementary code point, and splitting
/// that gives the pair back.
pub proof fn lemma_join_split(high: u32, low: u32)
    requires
        is_high_surrogate(high),
        is_low_surrogate(low),
    ensures
        is_supplementary(join_surrogates(high, low) as u32),
        high_surrogate(join_surrogates(high, low) as u32) == high,
        low_surrogate(join_surrogates(high, low) as u32) == low,
{
}

/// The code unit of `0xED second third` is what UTF-8 decoding would read
/// from these three bytes, and the second byte tells which kind it is.
pub proof fn lemma_surrogate_unit(second: u8, third: u8)
    by (bit_vector)
    ensures
        surrogate_unit(second, third) == codepoint_width_3(0xED, second, third),
        0xD000 <= surrogate_unit(second, third) <= 0xDFFF,
        is_high_surrogate(surrogate_unit(second, third)) <==> 0x20 <= (second & 0x3F) <= 0x2F,
        is_low_surrogate(surrogate_unit(second, third)) <==> 0x30 <= (second & 0x3F),
        0xA0 <= second <= 0xAF ==> is_high_surrogate(surrogate_unit(second, third)),
        0xB0 <= second <= 0xBF ==> is_low_surrogate(surrogate_unit(second, third)),
{
}

/// The three-byte sequence of a surrogate starts with 0xED, its second byte
/// tells a high surrogate from a low one, and it carries the code unit that
/// it was made from.
pub proof fn lemma_surrogate_sequence(unit: u32)
    by (bit_vector)
    requires
        0xD800 <= unit <= 0xDFFF,
    ensures
        leading_byte_width_3(unit) == 0xED,
        0xA0 <= second_last_continuation_byte(unit) <= 0xBF,
        unit <= 0xDBFF <==> second_last_continuation_byte(unit) <= 0xAF,
        0x80 <= last_continuation_byte(unit) <= 0xBF,
        surrogate_unit(second_last_continuation_byte(unit), last_continuation_byte(unit)) == unit,
{
}

/// Converts the two trailing bytes of a CESU-8 surrogate sequence to the
/// code unit they carry.
pub fn dec_surrogate(second: u8, third: u8) -> (unit: u32)
    ensures
        unit == surrogate_unit(second, third),
{
    0xD000u32 | (((second & CONT_MASK) as u32) << 6) | ((third & CONT_MASK) as u32)
}

/// Converts the trailing bytes of the two sequences of a CESU-8 surrogate
/// pair to the four-byte UTF-8 sequence of the code point they stand for.
pub fn dec_surrogates(second: u8, third: u8, fifth: u8, sixth: u8) -> (utf8: [u8; 4])
    requires
        is_high_surrogate(surrogate_unit(second, third)),
        is_low_surrogate(surrogate_unit(fifth, sixth)),
    ensures
        is_supplementary(
            join_surrogates(surrogate_unit(second, third), surrogate_unit(fifth, sixth)) as u32,
        ),
        utf8@ == encode_scalar(
            join_surrogates(surrogate_unit(second, third), surrogate_unit(fifth, sixth)) as u32,
        ),
{
    let s1: u32 = dec_surrogate(second, third);
    let s2: u32 = dec_surrogate(fifth, sixth);
    proof {
        lemma_join_split(s1, s2);
    }
    let high: u32 = s1 - HIGH_SURROGATE_START;
    let low: u32 = s2 - LOW_SURROGATE_START;
    assert((high << 10) | low == high * 0x400 + low && (high << 10) | low <= 0xFFFFF) by (bit_vector)
        requires
            high <= 0x3FF,
            low <= 0x3FF,
    ;
    let c: u32 = SUPPLEMENTARY_START + ((high << 10) | low);
    assert(c == join_surrogates(s1, s2));
    assert(0xF0u8 | ((c & 0x1C0000) >> 18) as u8 == leading_byte_width_4(c) && 0x80u8 | ((c
        & 0x03F000) >> 12) as u8 == third_last_continuation_byte(c) && 0x80u8 | ((c & 0x000FC0)
        >> 6) as u8 == second_last_continuation_byte(c) && 0x80u8 | (c & 0x00003F) as u8
        == last_continuation_byte(c) && (c & 0x1C0000) >> 18 <= 0xFF && (c & 0x03F000) >> 12
        <= 0xFF && (c & 0x000FC0) >> 6 <= 0xFF && c & 0x00003F <= 0xFF) by (bit_vector)
        requires
            0x10000 <= c <= 0x10FFFF,
    ;
    let utf8: [u8; 4] = [
        TAG_FOUR_U8 | ((c & 0x1C0000) >> 18) as u8,
        TAG_CONT_U8 | ((c & 0x03F000) >> 12) as u8,
        TAG_CONT_U8 | ((c & 0x000FC0) >> 6) as u8,
        TAG_CONT_U8 | (c & 0x00003F) as u8,
    ];
    assert(utf8@ =~= encode_scalar(c));
    utf8
}

/// Reads the code point of a four-byte UTF-8 sequence and splits it into
/// its UTF-16 code units.
pub fn utf16_units(first: u8, second: u8, third: u8, fourth: u8) -> (units: (u16, u16))
    requires
        is_supplementary(codepoint_width_4(first, second, third, fourth)),
    ensures
        units.0 == high_surrogate(codepoint_width_4(first, second, third, fourth)),
        units.1 == low_surrogate(codepoint_width_4(first, second, third, fourth)),
{
    let c: u32 = (((first & 0x07) as u32) << 18) | (((second & CONT_MASK) as u32) << 12) | (((third
        & CONT_MASK) as u32) << 6) | ((fourth & CONT_MASK) as u32);
    let offset: u32 = c - SUPPLEMENTARY_START;
    assert(offset >> 10 == offset / 0x400 && offset & 0x3FF == offset % 0x400 && offset >> 10
        <= 0x3FF && offset & 0x3FF <= 0x3FF) by (bit_vector)
        requires
            offset <= 0xFFFFF,
    ;
    let high: u32 = HIGH_SURROGATE_START + (offset >> 10);
    let low: u32 = LOW_SURROGATE_START + (offset & 0x3FF);
    (high as u16, low as u16)
}

/// Encodes one surrogate code unit as a three-byte CESU-8 sequence.
pub fn enc_surrogate(surrogate: u16) -> (cesu8: [u8; 3])
    requires
        0xD800 <= surrogate <= 0xDFFF,
    ensures
        cesu8@ == surrogate_sequence(surrogate as u32),
{
    assert(0xE0u8 | ((surrogate & 0xF000) >> 12) as u8 == leading_byte_width_3(surrogate as u32)
        && 0x80u8 | ((surrogate & 0x0FC0) >> 6) as u8 == second_last_continuation_byte(
        surrogate as u32,
    ) && 0x80u8 | (surrogate & 0x003F) as u8 == last_continuation_byte(surrogate as u32) && (
    surrogate & 0xF000) >> 12 <= 0xFF && (surrogate & 0x0FC0) >> 6 <= 0xFF && surrogate & 0x003F
        <= 0xFF) by (bit_vector);
    let cesu8: [u8; 3] = [
        TAG_THREE_U8 | ((surrogate & 0xF000) >> 12) as u8,
        TAG_CONT_U8 | ((surrogate & 0x0FC0) >> 6) as u8,
        TAG_CONT_U8 | (surrogate & 0x003F) as u8,
    ];
    assert(cesu8@ =~= surrogate_sequence(surrogate as u32));
    cesu8
}

} // verus!
