//! Throughput counters for raw and annotated frames.
use vstd::prelude::*;

verus! {

/// `n + 1` on a 64-bit counter that wraps around.
pub open spec fn wrapping_succ(n: u64) -> u64 {
    if n == u64::MAX {
        0
    } else {
        (n + 1) as u64
    }
}

/// Two frame counters, drained periodically by a logger.
///
/// The counters wrap around on overflow, as relaxed atomic adds do.
pub struct Meter {
    raw_frames: u64,
    infered_frames: u64,
}

impl Meter {
    pub closed spec fn raw(&self) -> u64 {
        self.raw_frames
    }

    pub closed spec fn infered(&self) -> u64 {
        self.infered_frames
    }

    /// A meter with both counters at zero.
    pub fn new() -> (m: Meter)
        ensures
            m.raw() == 0,
            m.infered() == 0,
    {
        Meter { raw_frames: 0, infered_frames: 0 }
    }

    /// Count one raw frame.
    pub fn tick_raw(&mut self)
        ensures
            final(self).raw() == wrapping_succ(old(self).raw()),
            final(self).infered() == old(self).infered(),
    {
        self.raw_frames = self.raw_frames.wrapping_add(1);
    }

    /// Count one annotated frame.
    pub fn tick_infered(&mut self)
        ensures
            final(self).infered() == wrapping_succ(old(self).infered()),
            final(self).raw() == old(self).raw(),
    {
        self.infered_frames = self.infered_frames.wrapping_add(1);
    }

    /// Take the raw count and start it again from zero.
    pub fn get_reset_raw(&mut self) -> (n: u64)
        ensures
            n == old(self).raw(),
            final(self).raw() == 0,
            final(self).infered() == old(self).infered(),
    {
        let n = self.raw_frames;
        self.raw_frames = 0;
        n
    }

    /// Take the annotated count and start it again from zero.
    pub fn get_reset_infered(&mut self) -> (n: u64)
        ensures
            n == old(self).infered(),
            final(self).infered() == 0,
            final(self).raw() == old(self).raw(),
    {
        let n = self.infered_frames;
        self.infered_frames = 0;
        n
    }
}

} // verus!
