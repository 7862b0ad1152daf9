use vstd::prelude::*;

verus! {

/// The render-block clock: what every time-aware process reads on a tick.
///
/// Rates are whole numbers, so that beat arithmetic is exact: one beat lasts
/// `60 * sample_rate / bpm` samples.
#[derive(Clone, Copy, Debug, PartialEq, Eq, Structural)]
pub struct Config {
    pub sample_rate: u32,
    pub channels: usize,
    pub bpm: u32,
}

impl Config {
    /// A clock that can drive processes: a positive sample rate and tempo.
    pub open spec fn wf(&self) -> bool {
        self.sample_rate > 0 && self.bpm > 0
    }

    pub fn new(sample_rate: u32, channels: usize, bpm: u32) -> (r: Config)
        ensures
            r.sample_rate == sample_rate,
            r.channels == channels,
            r.bpm == bpm,
    {
        Config { sample_rate, channels, bpm }
    }
}

} // verus!
