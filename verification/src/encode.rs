use crate::grammar::{
    encode_cesu8, encode_cesu8_char, is_cesu8_safe, lemma_safe_by_leading_bytes,
    lemma_safe_encoding, lemma_valid_first_scalar,
};
use crate::iter::is_continuation;
use crate::surrogate::{enc_surrogate, is_supplementary, lemma_split_join, utf16_units};
use crate::unicode::{char_width, utf8_char_width};
use std::borrow::Cow;
use vstd::prelude::*;
use vstd::utf8::{
    decode_first_scalar, decode_utf8, decode_utf8_first_scalar, encode_utf8,
    encode_utf8_decode_utf8, encode_utf8_valid_utf8, length_of_first_scalar, pop_first_scalar,
    take_first_scalar, valid_utf8,
};

verus! {

/// What `is_valid_cesu8` computes.
pub open spec fn is_valid_cesu8_spec(text: &str) -> bool {
    is_cesu8_safe(text@)
}

/// Checks whether a string is CESU-8 data as it stands, which it is when
/// none of its characters needs four bytes in UTF-8.
#[verifier::when_used_as_spec(is_valid_cesu8_spec)]
pub fn is_valid_cesu8(text: &str) -> (valid: bool)
    ensures
        valid == is_cesu8_safe(text@),
{
    let bytes: &[u8] = text.as_bytes();
    let mut i: usize = 0;
    while i < bytes.len()
        invariant
            i <= bytes.len(),
            bytes@ == encode_utf8(text@),
            forall|j: int| 0 <= j < i ==> char_width(#[trigger] bytes@[j]) <= 3,
        decreases bytes.len() - i,
    {
        let b: u8 = bytes[i];
        if !is_continuation(b) && utf8_char_width(b) > 3 {
            proof {
                lemma_safe_by_leading_bytes(text@);
            }
            return false;
        }
        i = i + 1;
    }
    proof {
        lemma_safe_by_leading_bytes(text@);
    }
    true
}

/// One step of the encoder: the first character of `rest`, which is valid
/// UTF-8, and what is left behind it.
proof fn lemma_encode_step(bytes: Seq<u8>, i: int)
    requires
        0 <= i < bytes.len(),
        valid_utf8(bytes.skip(i)),
    ensures
        ({
            let rest = bytes.skip(i);
            let len = length_of_first_scalar(rest);
            let c = decode_first_scalar(rest) as char;
            &&& char_width(bytes[i]) == len
            &&& i + len <= bytes.len()
            &&& c as u32 == decode_first_scalar(rest)
            &&& len == 4 <==> is_supplementary(c as u32)
            &&& len != 4 ==> encode_cesu8_char(c) == bytes.subrange(i, i + len)
            &&& valid_utf8(bytes.skip(i + len))
            &&& encode_cesu8(decode_utf8(rest)) == encode_cesu8_char(c) + encode_cesu8(
                decode_utf8(bytes.skip(i + len)),
            )
        }),
{
    let rest = bytes.skip(i);
    let len = length_of_first_scalar(rest);
    let c = decode_first_scalar(rest) as char;
    lemma_valid_first_scalar(rest);
    decode_utf8_first_scalar(rest);
    assert(pop_first_scalar(rest) =~= bytes.skip(i + len));
    assert(take_first_scalar(rest) =~= bytes.subrange(i, i + len));
    let chars = decode_utf8(rest);
    assert(chars == seq![c] + decode_utf8(bytes.skip(i + len)));
    assert(chars.drop_first() =~= decode_utf8(bytes.skip(i + len)));
}

/// Converts a string to CESU-8 bytes. A string that is CESU-8 data as it
/// stands is handed back as it is; in any other, each four-byte sequence is
/// replaced by the six bytes of its surrogate pair.
pub fn to_cesu8<'a>(text: &'a str) -> (res: Cow<'a, [u8]>)
    ensures
        res@ == encode_cesu8(text@),
        res is Borrowed <==> is_valid_cesu8(text),
{
    if is_valid_cesu8(text) {
        proof {
            lemma_safe_encoding(text@);
        }
        Cow::Borrowed(text.as_bytes())
    } else {
        let bytes: &[u8] = text.as_bytes();
        let mut encoded: Vec<u8> = Vec::with_capacity(bytes.len().saturating_add(bytes.len() >> 2));
        let mut i: usize = 0;
        proof {
            encode_utf8_valid_utf8(text@);
            encode_utf8_decode_utf8(text@);
            assert(bytes@.skip(0) =~= bytes@);
        }
        while i < bytes.len()
            invariant
                i <= bytes.len(),
                valid_utf8(bytes@.skip(i as int)),
                encoded@ + encode_cesu8(decode_utf8(bytes@.skip(i as int))) == encode_cesu8(text@),
            decreases bytes.len() - i,
        {
            let ghost before = encoded@;
            proof {
                lemma_encode_step(bytes@, i as int);
            }
            let b: u8 = bytes[i];
            if b < 128 {
                // Pass ASCII through quickly.
                encoded.push(b);
                assert(bytes@.subrange(i as int, i + 1) =~= seq![b]);
                assert(encoded@ + encode_cesu8(decode_utf8(bytes@.skip(i + 1))) =~= before + (seq![b]
                    + encode_cesu8(decode_utf8(bytes@.skip(i + 1)))));
                i = i + 1;
            } else {
                // Figure out how many bytes we need for this character.
                let w: usize = utf8_char_width(b);
                if w != 4 {
                    // Pass through short UTF-8 sequences unmodified.
                    let mut k: usize = 0;
                    while k < w
                        invariant
                            k <= w,
                            i + w <= bytes.len(),
                            encoded@ == before + bytes@.subrange(i as int, i + k),
                        decreases w - k,
                    {
                        encoded.push(bytes[i + k]);
                        k = k + 1;
                        assert(encoded@ =~= before + bytes@.subrange(i as int, i + k));
                    }
                    assert(encoded@ + encode_cesu8(decode_utf8(bytes@.skip(i + w))) =~= before + (
                    bytes@.subrange(i as int, i + w) + encode_cesu8(
                        decode_utf8(bytes@.skip(i + w)),
                    )));
                } else {
                    // Encode 4-byte sequences as 6 bytes.
                    let units: (u16, u16) = utf16_units(b, bytes[i + 1], bytes[i + 2], bytes[i + 3]);
                    proof {
                        lemma_split_join(decode_first_scalar(bytes@.skip(i as int)));
                    }
                    let high: [u8; 3] = enc_surrogate(units.0);
                    let low: [u8; 3] = enc_surrogate(units.1);
                    encoded.push(high[0]);
                    encoded.push(high[1]);
                    encoded.push(high[2]);
                    encoded.push(low[0]);
                    encoded.push(low[1]);
                    encoded.push(low[2]);
                    assert(encoded@ =~= before + (high@ + low@));
                    assert(encoded@ + encode_cesu8(decode_utf8(bytes@.skip(i + w))) =~= before + ((
                    high@ + low@) + encode_cesu8(decode_utf8(bytes@.skip(i + w)))));
                }
                i = i + w;
            }
        }
        assert(encoded@ + encode_cesu8(decode_utf8(bytes@.skip(i as int))) =~= encoded@);
        Cow::Owned(encoded)
    }
}

} // verus!
