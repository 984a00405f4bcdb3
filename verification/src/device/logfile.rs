//! A recorded log played back as if it were a bus.
//!
//! Times are nanoseconds on a clock of the caller's choice.

use vstd::prelude::*;
use crate::msg::{least, CanMsg};

verus! {

/// A log file as a device; it keeps the original timestamps.
pub struct LogFileDevice {
    pub frames: Vec<CanMsg>,
    /// When each frame is due.
    pub due: Vec<u64>,
    /// How many frames have been handed out.
    pub idx: usize,
    pub name: String,
}

/// What to do next.
#[derive(Debug, Clone, Copy, PartialEq, Eq, Structural)]
pub enum LogStep {
    /// Every frame has been handed out; wait as long as asked to.
    Finished,
    /// Wait this long, then look again.
    Wait(u64),
    /// The next frame is due.
    Ready,
}

/// What to do at time `now`, waiting at most `timeout`, with these frames still to come.
pub open spec fn log_step(due: Seq<u64>, now: u64, timeout: u64) -> LogStep {
    if due.len() == 0 {
        LogStep::Finished
    } else if due[0] <= now {
        LogStep::Ready
    } else if due[0] - now < timeout {
        LogStep::Wait((due[0] - now) as u64)
    } else {
        LogStep::Wait(timeout)
    }
}

impl LogFileDevice {
    /// Every frame has its time.
    pub open spec fn wf(self) -> bool {
        &&& self.frames@.len() == self.due@.len()
        &&& 0 < self.frames@.len()
        &&& self.idx <= self.frames@.len()
        &&& forall|i: int| 0 <= i < self.frames@.len() ==> (#[trigger] self.frames@[i]).wf()
    }

    /// A device for the frames of a log; `None` when there are none.
    pub fn open(frames: Vec<CanMsg>, due: Vec<u64>, name: String) -> (r: Option<Self>)
        requires
            frames@.len() == due@.len(),
            forall|i: int| 0 <= i < frames@.len() ==> (#[trigger] frames@[i]).wf(),
        ensures
            match r {
                Some(d) => d.wf() && frames@.len() > 0 && d.frames@ == frames@ && d.due@ == due@
                    && d.idx == 0 && d.name@ == name@,
                None => frames@.len() == 0,
            },
    {
        if frames.len() == 0 {
            return None;
        }
        Some(LogFileDevice { frames, due, idx: 0, name })
    }

    /// What to do at time `now`, waiting at most `timeout`.
    pub fn step(&self, now: u64, timeout: u64) -> (r: LogStep)
        requires
            self.wf(),
        ensures
            r == (if self.idx == self.frames@.len() {
                LogStep::Finished
            } else if self.due@[self.idx as int] > now {
                LogStep::Wait(least(self.due@[self.idx as int] - now, timeout as int) as u64)
            } else {
                LogStep::Ready
            }),
            r == log_step(self.due@.skip(self.idx as int), now, timeout),
    {
        if self.idx >= self.frames.len() {
            return LogStep::Finished;
        }
        let d: u64 = self.due[self.idx];
        if d > now {
            let gap: u64 = d - now;
            if gap < timeout {
                LogStep::Wait(gap)
            } else {
                LogStep::Wait(timeout)
            }
        } else {
            LogStep::Ready
        }
    }

    /// Hands out the next frame, if it is due.
    pub fn next(&mut self, now: u64) -> (r: Option<CanMsg>)
        requires
            old(self).wf(),
        ensures
            final(self).wf(),
            final(self).frames@ == old(self).frames@,
            final(self).due@ == old(self).due@,
            final(self).name == old(self).name,
            match r {
                Some(m) => old(self).idx < old(self).frames@.len() && old(self).due@[old(
                    self,
                ).idx as int] <= now && m == old(self).frames@[old(self).idx as int] && m.wf()
                    && final(self).idx == old(self).idx + 1,
                None => (old(self).idx == old(self).frames@.len() || old(self).due@[old(
                    self,
                ).idx as int] > now) && final(self).idx == old(self).idx,
            },
            (r is Some) == (log_step(old(self).due@.skip(old(self).idx as int), now, 0) is Ready),
    {
        if self.idx >= self.frames.len() || self.due[self.idx] > now {
            return None;
        }
        let m = self.frames[self.idx];
        self.idx = self.idx + 1;
        Some(m)
    }

    /// Whether every frame has been handed out.
    pub fn finished(&self) -> (r: bool)
        ensures
            r == (self.idx >= self.frames@.len()),
    {
        self.idx >= self.frames.len()
    }
}

/// A frame comes once its time has come and not before; until it comes the wait is neither
/// longer than asked for nor past its time.
pub proof fn law_frames_keep_their_time(due: Seq<u64>, now: u64, timeout: u64)
    ensures
        (log_step(due, now, timeout) is Finished) == (due.len() == 0),
        due.len() > 0 ==> (log_step(due, now, timeout) is Ready) == (due[0] <= now),
        log_step(due, now, timeout) matches LogStep::Wait(w) ==> {
            &&& w <= timeout
            &&& now + w <= due[0]
            &&& w == timeout || now + w == due[0]
        },
{
}

} // verus!
