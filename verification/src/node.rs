//! Radio settings of a node.

use vstd::prelude::*;

verus! {

/// The bandwidth of the radio channel.
#[derive(Debug, Clone, Copy, PartialEq, Eq, Structural)]
pub enum Bandwidth {
    /// 62500 Hz.
    BW62,
    /// 125000 Hz.
    BW125,
    /// 250000 Hz.
    BW250,
    /// 500000 Hz.
    BW500,
}

impl Bandwidth {
    /// The bandwidth in hertz.
    pub open spec fn hertz(self) -> nat {
        match self {
            Bandwidth::BW62 => 62_500,
            Bandwidth::BW125 => 125_000,
            Bandwidth::BW250 => 250_000,
            Bandwidth::BW500 => 500_000,
        }
    }

    /// The bandwidth in hertz.
    pub fn hz(self) -> (hertz: u32)
        ensures
            hertz == self.hertz(),
    {
        match self {
            Bandwidth::BW62 => 62_500,
            Bandwidth::BW125 => 125_000,
            Bandwidth::BW250 => 250_000,
            Bandwidth::BW500 => 500_000,
        }
    }
}

/// The sample rate of a node: its bandwidth times the oversampling factor.
pub fn get_sample_rate(bw: Bandwidth, oversampling: usize) -> (rate: u32)
    requires
        bw.hertz() * oversampling <= u32::MAX,
    ensures
        rate == bw.hertz() * oversampling,
{
    let hertz = bw.hz();
    assert(oversampling <= u32::MAX) by (nonlinear_arith)
        requires
            bw.hertz() * oversampling <= u32::MAX,
            bw.hertz() >= 1,
    ;
    hertz * (oversampling as u32)
}

} // verus!
