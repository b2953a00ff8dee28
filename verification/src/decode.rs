use crate::error::Cesu8DecodingError;
use crate::grammar::{
    consumed_len, decodable_len, decoded_chars, decoded_text, first_unit_len, first_unit_scalar,
    is_decodable, lemma_first_unit, rejected_len, starts_with_surrogate_pair,
};
use crate::iter::ByteIter;
use crate::surrogate::{dec_surrogates, lemma_surrogate_unit};
use crate::unicode::utf8_char_width;
use std::borrow::Cow;
use vstd::prelude::*;
use vstd::utf8::{
    encode_scalar, encode_utf8, encode_utf8_decode_utf8, encode_utf8_valid_utf8, valid_utf8,
};

verus! {

/// One step of the decoder over `cur`, what is left of `input`: the first
/// sequence of `cur` adds its length to the decodable length and the UTF-8
/// form of its character to the output.
proof fn lemma_step(input: Seq<u8>, n: int, cur: Seq<u8>)
    requires
        0 <= n <= input.len(),
        cur == input.skip(n),
        first_unit_len(cur) > 0,
    ensures
        n + first_unit_len(cur) <= input.len(),
        cur.skip(first_unit_len(cur)) == input.skip(n + first_unit_len(cur)),
        decodable_len(cur) == first_unit_len(cur) + decodable_len(
            input.skip(n + first_unit_len(cur)),
        ),
        encode_utf8(decoded_chars(cur)) == encode_scalar(first_unit_scalar(cur)) + encode_utf8(
            decoded_chars(input.skip(n + first_unit_len(cur))),
        ),
{
    let len = first_unit_len(cur);
    let rest = cur.skip(len);
    assert(rest =~= input.skip(n + len));
    lemma_first_unit(cur);
    let c = first_unit_scalar(cur) as char;
    let chars = decoded_chars(cur);
    assert(chars == seq![c] + decoded_chars(rest));
    assert(chars.drop_first() =~= decoded_chars(rest));
    assert(chars[0] == c);
    assert(c as u32 == first_unit_scalar(cur));
}

/// Where the decoder gives up on `cur`, what is left of `input`, the input
/// is not decodable and `cur` adds no character.
proof fn lemma_reject(input: Seq<u8>, n: int, cur: Seq<u8>)
    requires
        0 <= n <= input.len(),
        cur == input.skip(n),
        cur.len() > 0,
        first_unit_len(cur) == 0,
        decodable_len(input) == n + decodable_len(cur),
    ensures
        !is_decodable(input),
        consumed_len(input) == n + rejected_len(cur),
        0 < rejected_len(cur) <= cur.len(),
        cur.skip(rejected_len(cur)) == input.skip(consumed_len(input)),
        encode_utf8(decoded_chars(cur)) == Seq::<u8>::empty(),
{
    assert(cur.skip(rejected_len(cur)) =~= input.skip(n + rejected_len(cur)));
}

/// Decodes the bytes that `iter` has left as CESU-8 and appends their UTF-8
/// form to `decoded`. Returns whether all of them were well formed; if not,
/// `decoded` has received the characters before the first flaw.
pub fn decode_from_iter(decoded: &mut Vec<u8>, iter: &mut ByteIter<'_>) -> (ok: bool)
    ensures
        ok == is_decodable(old(iter)@),
        final(decoded)@ == old(decoded)@ + encode_utf8(decoded_chars(old(iter)@)),
        final(iter)@ == old(iter)@.skip(consumed_len(old(iter)@)),
{
    let ghost input = iter@;
    let ghost start = decoded@;
    let ghost mut n: int = 0;
    assert(input.skip(0) =~= input);
    loop
        invariant
            input == old(iter)@,
            start == old(decoded)@,
            0 <= n <= input.len(),
            iter@ == input.skip(n),
            decodable_len(input) == n + decodable_len(iter@),
            start + encode_utf8(decoded_chars(input)) == decoded@ + encode_utf8(
                decoded_chars(iter@),
            ),
        decreases iter@.len(),
    {
        let ghost cur = iter@;
        let ghost before = decoded@;
        let first: u8 = match iter.next() {
            Some(b) => b,
            None => {
                // The input ends where a sequence would begin.
                assert(decoded@ + encode_utf8(decoded_chars(cur)) =~= decoded@);
                assert(input.skip(input.len() as int) =~= cur);
                return true;
            },
        };
        if first < 127 {
            // Pass ASCII through directly.
            decoded.push(first);
            assert(cur.take(1) =~= seq![first]);
        } else {
            let w: usize = utf8_char_width(first);
            let second: u8 = match iter.next_continuation() {
                Some(b) => b,
                None => {
                    proof {
                        lemma_reject(input, n, cur);
                        assert(iter@ =~= cur.skip(rejected_len(cur)));
                        assert(decoded@ + encode_utf8(decoded_chars(cur)) =~= decoded@);
                    }
                    return false;
                },
            };
            assert(iter@ =~= cur.skip(2));
            if w == 2 {
                // Two-byte sequences can be used directly.
                decoded.push(first);
                decoded.push(second);
                assert(cur.take(2) =~= seq![first, second]);
            } else if w == 3 {
                let third: u8 = match iter.next_continuation() {
                    Some(b) => b,
                    None => {
                        proof {
                            lemma_reject(input, n, cur);
                            assert(iter@ =~= cur.skip(rejected_len(cur)));
                            assert(decoded@ + encode_utf8(decoded_chars(cur)) =~= decoded@);
                        }
                        return false;
                    },
                };
                assert(iter@ =~= cur.skip(3));
                match (first, second) {
                    // These are valid UTF-8, so pass them through.
                    (0xE0, 0xA0..=0xBF)
                    | (0xE1..=0xEC, 0x80..=0xBF)
                    | (0xED, 0x80..=0x9F)
                    | (0xEE..=0xEF, 0x80..=0xBF) => {
                        decoded.push(first);
                        decoded.push(second);
                        decoded.push(third);
                        assert(cur.take(3) =~= seq![first, second, third]);
                    },
                    // First half of a surrogate pair, so decode.
                    (0xED, 0xA0..=0xAF) => {
                        let fourth: Option<u8> = iter.next();
                        assert(fourth.is_some() ==> iter@ =~= cur.skip(4));
                        if fourth != Some(0xED) {
                            proof {
                                lemma_reject(input, n, cur);
                                assert(iter@ =~= cur.skip(rejected_len(cur)));
                                assert(decoded@ + encode_utf8(decoded_chars(cur)) =~= decoded@);
                            }
                            return false;
                        }
                        let fifth: u8 = match iter.next_continuation() {
                            Some(b) => b,
                            None => {
                                proof {
                                    lemma_reject(input, n, cur);
                                    assert(iter@ =~= cur.skip(rejected_len(cur)));
                                    assert(decoded@ + encode_utf8(decoded_chars(cur))
                                        =~= decoded@);
                                }
                                return false;
                            },
                        };
                        assert(iter@ =~= cur.skip(5));
                        if fifth < 0xB0 || 0xBF < fifth {
                            proof {
                                lemma_reject(input, n, cur);
                                assert(iter@ =~= cur.skip(rejected_len(cur)));
                                assert(decoded@ + encode_utf8(decoded_chars(cur)) =~= decoded@);
                            }
                            return false;
                        }
                        let sixth: u8 = match iter.next_continuation() {
                            Some(b) => b,
                            None => {
                                proof {
                                    lemma_reject(input, n, cur);
                                    assert(iter@ =~= cur.skip(rejected_len(cur)));
                                    assert(decoded@ + encode_utf8(decoded_chars(cur))
                                        =~= decoded@);
                                }
                                return false;
                            },
                        };
                        assert(iter@ =~= cur.skip(6));
                        proof {
                            lemma_surrogate_unit(second, third);
                            lemma_surrogate_unit(fifth, sixth);
                        }
                        let s: [u8; 4] = dec_surrogates(second, third, fifth, sixth);
                        decoded.push(s[0]);
                        decoded.push(s[1]);
                        decoded.push(s[2]);
                        decoded.push(s[3]);
                        assert(starts_with_surrogate_pair(cur));
                        assert(decoded@ =~= before + s@);
                    },
                    _ => {
                        proof {
                            lemma_reject(input, n, cur);
                            assert(iter@ =~= cur.skip(rejected_len(cur)));
                            assert(decoded@ + encode_utf8(decoded_chars(cur)) =~= decoded@);
                        }
                        return false;
                    },
                }
            } else {
                proof {
                    lemma_reject(input, n, cur);
                    assert(iter@ =~= cur.skip(rejected_len(cur)));
                    assert(decoded@ + encode_utf8(decoded_chars(cur)) =~= decoded@);
                }
                return false;
            }
        }
        proof {
            lemma_step(input, n, cur);
            lemma_first_unit(cur);
            assert(decoded@ =~= before + encode_scalar(first_unit_scalar(cur)));
            assert(iter@ =~= input.skip(n + first_unit_len(cur)));
            n = n + first_unit_len(cur);
            assert(start + encode_utf8(decoded_chars(input)) =~= decoded@ + encode_utf8(
                decoded_chars(iter@),
            ));
        }
    }
}

/// Converts CESU-8 data to a string, re-encoding only if necessary. Data
/// that is valid UTF-8 as it stands is handed back as it is; other data is
/// decoded into a new string. Fails on data that is neither.
pub fn from_cesu8<'a>(bytes: &'a [u8]) -> (res: Result<Cow<'a, str>, Cesu8DecodingError>)
    ensures
        match res {
            Ok(text) => decoded_text(bytes@) == Some(text@) && (text is Borrowed <==> valid_utf8(
                bytes@,
            )),
            Err(_) => decoded_text(bytes@).is_none(),
        },
{
    match core::str::from_utf8(bytes) {
        Ok(text) => {
            proof {
                encode_utf8_decode_utf8(text@);
            }
            Ok(Cow::Borrowed(text))
        },
        Err(_) => {
            let mut decoded: Vec<u8> = Vec::with_capacity(bytes.len());
            let mut iter: ByteIter<'a> = ByteIter::new(bytes);
            if decode_from_iter(&mut decoded, &mut iter) {
                proof {
                    encode_utf8_valid_utf8(decoded_chars(bytes@));
                    assert(decoded@ =~= encode_utf8(decoded_chars(bytes@)));
                }
                match String::from_utf8(decoded) {
                    Ok(text) => {
                        proof {
                            encode_utf8_decode_utf8(text@);
                            encode_utf8_decode_utf8(decoded_chars(bytes@));
                        }
                        Ok(Cow::Owned(text))
                    },
                    Err(_) => {
                        // The decoder writes nothing but valid UTF-8.
                        assert(false);
                        Err(Cesu8DecodingError)
                    },
                }
            } else {
                Err(Cesu8DecodingError)
            }
        },
    }
}

} // verus!
