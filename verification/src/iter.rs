use crate::surrogate::{CONT_MASK, TAG_CONT_U8};
use vstd::prelude::*;
use vstd::utf8::is_continuation_byte;

verus! {

/// A cursor over a byte slice that hands out one byte at a time.
pub struct ByteIter<'a> {
    bytes: &'a [u8],
    pos: usize,
}

impl<'a> View for ByteIter<'a> {
    type V = Seq<u8>;

    /// The bytes that have not been handed out yet.
    closed spec fn view(&self) -> Seq<u8> {
        if self.pos <= self.bytes@.len() {
            self.bytes@.skip(self.pos as int)
        } else {
            Seq::empty()
        }
    }
}

/// True when the two tag bits of `byte` mark a continuation byte.
pub fn is_continuation(byte: u8) -> (yes: bool)
    ensures
        yes == is_continuation_byte(byte),
{
    assert((byte & !0x3Fu8 == 0x80u8) == (0x80 <= byte <= 0xBF)) by (bit_vector);
    byte & !CONT_MASK == TAG_CONT_U8
}

impl<'a> ByteIter<'a> {
    /// A cursor at the start of `bytes`.
    pub fn new(bytes: &'a [u8]) -> (iter: Self)
        ensures
            iter@ == bytes@,
    {
        let iter = ByteIter { bytes, pos: 0 };
        assert(iter@ =~= bytes@);
        iter
    }

    /// The bytes that have not been handed out yet.
    pub fn as_slice(&self) -> (rest: &'a [u8])
        ensures
            rest@ == self@,
    {
        if self.pos <= self.bytes.len() {
            let rest: &'a [u8] = &self.bytes[self.pos..self.bytes.len()];
            assert(rest@ =~= self@);
            rest
        } else {
            let rest: &'a [u8] = &self.bytes[0..0];
            assert(rest@ =~= self@);
            rest
        }
    }

    /// Hands out the next byte, if one is left, and moves past it.
    pub fn next(&mut self) -> (byte: Option<u8>)
        ensures
            old(self)@.len() == 0 ==> byte.is_none() && final(self)@ == old(self)@,
            old(self)@.len() > 0 ==> byte == Some(old(self)@[0]) && final(self)@ == old(self)@.skip(
                1,
            ),
    {
        if self.pos < self.bytes.len() {
            let byte: u8 = self.bytes[self.pos];
            self.pos = self.pos + 1;
            assert(self@ =~= old(self)@.skip(1));
            Some(byte)
        } else {
            None
        }
    }

    /// Hands out the next byte where it is a continuation byte. A byte that
    /// is none is passed over all the same.
    pub fn next_continuation(&mut self) -> (byte: Option<u8>)
        ensures
            old(self)@.len() == 0 ==> byte.is_none() && final(self)@ == old(self)@,
            old(self)@.len() > 0 ==> final(self)@ == old(self)@.skip(1) && byte == if is_continuation_byte(
                old(self)@[0],
            ) {
                Some(old(self)@[0])
            } else {
                None
            },
    {
        match self.next() {
            Some(byte) => if is_continuation(byte) {
                Some(byte)
            } else {
                None
            },
            None => None,
        }
    }
}

} // verus!
