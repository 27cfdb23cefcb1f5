//! The frame-paced driver's backpressure accounting: delay beyond a fixed
//! per-frame time budget accumulates, and once the accumulated delay exceeds
//! a ceiling, one whole tick is skipped and the accumulator reset. This is
//! the sole overload-shedding mechanism, trading temporal smoothness for not
//! falling permanently behind.

use vstd::prelude::*;

verus! {

/// The per-frame time budget: one sixtieth of a second, in nanoseconds.
pub const ALLOWED_FRAME_TIME_NS: u64 = 16_666_666;

/// The ceiling on accumulated frame delay, in nanoseconds.
pub const MAX_ACCUMULATED_FRAME_DELAY_NS: u64 = 20_000_000;

/// The delay accumulator of the frame-paced client loop.
#[derive(Clone, Copy, Debug)]
pub struct FramePacer {
    pub budget_ns: u64,
    pub ceiling_ns: u64,
    pub accumulated_ns: u64,
}

impl FramePacer {
    pub fn new(budget_ns: u64, ceiling_ns: u64) -> (r: Self)
        ensures
            r.budget_ns == budget_ns,
            r.ceiling_ns == ceiling_ns,
            r.accumulated_ns == 0,
    {
        FramePacer { budget_ns, ceiling_ns, accumulated_ns: 0 }
    }

    /// The pacer with the standard budget and ceiling.
    pub fn standard() -> (r: Self)
        ensures
            r.budget_ns == ALLOWED_FRAME_TIME_NS,
            r.ceiling_ns == MAX_ACCUMULATED_FRAME_DELAY_NS,
            r.accumulated_ns == 0,
    {
        Self::new(ALLOWED_FRAME_TIME_NS, MAX_ACCUMULATED_FRAME_DELAY_NS)
    }

    /// Decide whether this frame's tick runs. Once the accumulated delay
    /// exceeds the ceiling, the tick is skipped exactly once and the
    /// accumulator reset to zero.
    pub fn begin_frame(&mut self) -> (run: bool)
        ensures
            final(self).budget_ns == old(self).budget_ns,
            final(self).ceiling_ns == old(self).ceiling_ns,
            old(self).accumulated_ns > old(self).ceiling_ns ==> !run && final(self).accumulated_ns
                == 0,
            old(self).accumulated_ns <= old(self).ceiling_ns ==> run && final(self).accumulated_ns
                == old(self).accumulated_ns,
    {
        if self.accumulated_ns > self.ceiling_ns {
            self.accumulated_ns = 0;
            false
        } else {
            true
        }
    }

    /// Record a finished frame's wall-clock time. Time beyond the budget
    /// accumulates (saturating); a frame within the budget means the loop has
    /// caught up and the accumulator resets.
    pub fn end_frame(&mut self, frame_time_ns: u64)
        ensures
            final(self).budget_ns == old(self).budget_ns,
            final(self).ceiling_ns == old(self).ceiling_ns,
            frame_time_ns <= old(self).budget_ns ==> final(self).accumulated_ns == 0,
            frame_time_ns > old(self).budget_ns ==> final(self).accumulated_ns == (if old(
                self,
            ).accumulated_ns + (frame_time_ns - old(self).budget_ns) <= u64::MAX {
                old(self).accumulated_ns + (frame_time_ns - old(self).budget_ns)
            } else {
                u64::MAX as int
            }),
    {
        if frame_time_ns <= self.budget_ns {
            self.accumulated_ns = 0;
        } else {
            let delay = frame_time_ns - self.budget_ns;
            if delay > u64::MAX - self.accumulated_ns {
                self.accumulated_ns = u64::MAX;
            } else {
                self.accumulated_ns = self.accumulated_ns + delay;
            }
        }
    }
}

} // verus!
