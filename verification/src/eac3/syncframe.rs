//! Types the syncframe syntax shares with its payload parsers.

use vstd::prelude::*;

verus! {

/// Why an access unit, or a payload inside it, was refused.
#[derive(Debug, Clone, Copy, PartialEq, Eq)]
pub enum ParseError {
    /// The packet ends inside the named syntax.
    ShortPacket,
    /// The named field is missing or holds a value the syntax forbids.
    InvalidHeader(&'static str),
    /// The named field asks for something this decoder does not do.
    UnsupportedFeature(&'static str),
    /// Fewer bytes than the frame declares.
    TruncatedFrame { expected: usize, available: usize },
    /// More bytes than the frame declares.
    TrailingData { expected: usize, provided: usize },
}

/// How a channel's exponents are coded in one block.
#[derive(Debug, Clone, Copy, PartialEq, Eq, Structural)]
pub enum ExpStrategy {
    Reuse,
    D15,
    D25,
    D45,
}

} // verus!
