//! Bed channels of the core.

use vstd::prelude::*;

verus! {

/// Speaker assignment of a decoded bed channel.
#[derive(Debug, Clone, Copy, PartialEq, Eq, Structural)]
pub enum BedChannel {
    FrontLeft,
    FrontRight,
    Center,
    LowFrequencyEffects,
    SurroundLeft,
    SurroundRight,
    RearCenter,
    RearLeft,
    RearRight,
    WideLeft,
    WideRight,
}

} // verus!
