use vstd::prelude::*;

verus! {

/// The CESU-8 data could not be decoded as valid UTF-8 data.
#[derive(Clone, Copy, Debug)]
pub struct Cesu8DecodingError;

impl Cesu8DecodingError {
    /// A short name for what went wrong.
    pub fn description(&self) -> (text: &'static str)
        ensures
            text@ == "decoding error"@,
    {
        "decoding error"
    }

    /// The message that is shown for the error.
    pub fn to_string(&self) -> (text: String)
        ensures
            text@ == "could not convert CESU-8 data to UTF-8"@,
    {
        "could not convert CESU-8 data to UTF-8".to_owned()
    }
}

} // verus!
