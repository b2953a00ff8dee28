//! The CESU-8 compatibility encoding scheme.
//!
//! CESU-8 is a variant of UTF-8 that some systems use to hold UTF-16 data in
//! eight-bit units. It agrees with UTF-8 on every character up to U+FFFF. A
//! character beyond that, which UTF-8 writes as one sequence of four bytes,
//! is written as the two code units of its UTF-16 surrogate pair, each as a
//! sequence of three bytes.
//!
//! [`from_cesu8`] and [`to_cesu8`] convert in the two directions and copy
//! only where the data has to change. Malformed input is rejected, never
//! repaired.
pub mod decode;
pub mod encode;
pub mod error;
pub mod grammar;
pub mod iter;
pub mod laws;
pub mod std_utf8;
pub mod surrogate;
pub mod unicode;

pub use crate::decode::{decode_from_iter, from_cesu8};
pub use crate::encode::{is_valid_cesu8, to_cesu8};
pub use crate::error::Cesu8DecodingError;
pub use crate::iter::ByteIter;
pub use crate::surrogate::{dec_surrogate, dec_surrogates, enc_surrogate, utf16_units};
pub use crate::unicode::utf8_char_width;
