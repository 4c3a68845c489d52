//! Clock values.
use vstd::prelude::*;

verus! {

/// Ticks of the processor's time stamp counter.
#[derive(Copy, Clone, PartialEq, Eq, Structural, PartialOrd, Ord, Hash, Debug)]
pub struct TscTicks(pub u64);

/// Ticks of the network card's clock.
#[derive(Copy, Clone, PartialEq, Eq, Structural, PartialOrd, Ord, Hash, Debug)]
pub struct NicTicks(pub u64);

/// Nanoseconds.
#[derive(Copy, Clone, PartialEq, Eq, Structural, PartialOrd, Ord, Hash, Debug)]
pub struct Nanos(pub u64);

/// The number of a processor core.
#[derive(Copy, Clone, PartialEq, Eq, Structural, Hash, Debug)]
pub struct CoreId(pub u8);

impl TscTicks {
    /// The ticks from `earlier` to `self`; none if `earlier` is the later one,
    /// which a faulty clock source can bring about.
    pub fn since(self, earlier: TscTicks) -> (elapsed: TscTicks)
        ensures
            elapsed.0 == if self.0 >= earlier.0 {
                self.0 - earlier.0
            } else {
                0
            },
            self.0 >= earlier.0 ==> elapsed.0 + earlier.0 == self.0,
    {
        TscTicks(self.0.saturating_sub(earlier.0))
    }
}

impl Nanos {
    pub fn as_u64(self) -> (n: u64)
        ensures
            n == self.0,
    {
        self.0
    }
}

impl CoreId {
    /// The core of a `TSC_AUX` register value, whose low byte is the core.
    pub fn from_aux(aux: u32) -> (core: CoreId)
        ensures
            core.0 == aux % 256,
    {
        assert((aux & 0xFF) == aux % 256) by (bit_vector);
        CoreId((aux & 0xFF) as u8)
    }

    /// Stands for a core that was not captured.
    #[verifier::allow_in_spec]
    pub fn unknown() -> CoreId
        returns
            (CoreId(0xFF)),
    {
        CoreId(0xFF)
    }
}

} // verus!
