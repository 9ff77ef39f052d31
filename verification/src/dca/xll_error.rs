use vstd::prelude::*;

verus! {

/// Why a lossless frame, or its spatial extension, was refused.
#[derive(Debug, Clone, Copy, PartialEq, Eq)]
pub enum XllError {
    /// No sync word yet: the decoder waits for more data.
    Eagain,
    /// The data ends inside a field.
    Bitstream,
    /// The named check failed.
    Invalid(&'static str),
    /// The named form is not decoded.
    Unsupported(&'static str),
}

/// The name under which a failed extension decode is reported.
pub fn xll_x_error_kind(error: &XllError) -> (r: &'static str)
    ensures
        r == match error {
            XllError::Eagain => "eagain",
            XllError::Bitstream => "bitstream",
            XllError::Invalid(what) => *what,
            XllError::Unsupported(what) => *what,
        },
{
    match error {
        XllError::Eagain => "eagain",
        XllError::Bitstream => "bitstream",
        XllError::Invalid(what) => what,
        XllError::Unsupported(what) => what,
    }
}

} // verus!
