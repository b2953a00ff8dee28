use vstd::prelude::*;

verus! {

/// Number of bytes in the UTF-8 sequence that starts with `b`, or 0 when no
/// well-formed sequence starts with `b`.
pub open spec fn char_width(b: u8) -> nat {
    if b <= 0x7F {
        1
    } else if b <= 0xC1 {
        0
    } else if b <= 0xDF {
        2
    } else if b <= 0xEF {
        3
    } else if b <= 0xF4 {
        4
    } else {
        0
    }
}

/// Classifies a leading byte by the length of the sequence it starts.
pub fn utf8_char_width(b: u8) -> (w: usize)
    ensures
        w == char_width(b),
{
    if b <= 0x7F {
        1
    } else if b <= 0xC1 {
        0
    } else if b <= 0xDF {
        2
    } else if b <= 0xEF {
        3
    } else if b <= 0xF4 {
        4
    } else {
        0
    }
}

} // verus!
