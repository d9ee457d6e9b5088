//! The error that validation reports.

use vstd::prelude::*;
use crate::encoding::Malformation;

verus! {

/// Why a buffer is not well-formed UTF-8.
#[derive(Debug, PartialEq, Eq, Structural)]
pub struct Utf8Error {
    /// The length of the longest prefix of the buffer that is well-formed.
    pub valid_up_to: usize,
    /// The number of bytes, from `valid_up_to` on, that form the malformed unit: skip them to
    /// go on behind it. `None` where the buffer ends inside an encoded scalar that more input
    /// could complete.
    pub error_len: Option<u8>,
}

impl View for Utf8Error {
    type V = Malformation;

    open spec fn view(&self) -> Malformation {
        Malformation { valid_up_to: self.valid_up_to as nat, error_len: self.error_len }
    }
}

} // verus!
