use vstd::prelude::*;

verus! {

/// Speaker assignment of a bed channel.
#[derive(Debug, Clone, Copy, PartialEq, Eq, Structural)]
pub enum BedChannel {
    FrontLeft,
    FrontRight,
    Center,
    LowFrequencyEffects,
    SurroundLeft,
    SurroundRight,
    RearCenter,
    RearLeft,
    RearRight,
    TopFrontLeft,
    TopFrontRight,
    TopSurroundLeft,
    TopSurroundRight,
    TopRearLeft,
    TopRearRight,
    WideLeft,
    WideRight,
    LowFrequencyEffects2,
}

/// What an object's position is relative to.
#[derive(Debug, Clone, Copy, PartialEq, Eq, Structural)]
pub enum ObjectAnchor {
    Room,
    Screen,
    Speaker,
}

} // verus!
