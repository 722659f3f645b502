use vstd::prelude::*;
use std::collections::VecDeque;

verus! {

/// Length of the window over which frames are counted, in milliseconds.
pub const WINDOW_MS: u64 = 1000;

/// `times` without its leading entries that are a full window older than `now`.
pub open spec fn fresh(times: Seq<u64>, now: int) -> Seq<u64>
    decreases times.len(),
{
    if times.len() > 0 && times[0] + WINDOW_MS <= now {
        fresh(times.drop_first(), now)
    } else {
        times
    }
}

/// Counts the frames shown during the last second.
#[derive(Debug)]
pub struct FpsCounter {
    /// Times at which frames were shown, oldest first, in milliseconds.
    pub times: VecDeque<u64>,
}

impl FpsCounter {
    pub fn new() -> (r: FpsCounter)
        ensures
            r.times@.len() == 0,
    {
        FpsCounter { times: VecDeque::new() }
    }

    /// Records a frame shown at `now` (milliseconds) and returns how many
    /// frames fall in the window that ends there.
    pub fn run(&mut self, now: u64) -> (r: usize)
        requires
            old(self).times@.len() < usize::MAX,
        ensures
            final(self).times@ == fresh(old(self).times@, now as int).push(now),
            r == final(self).times@.len(),
    {
        loop
            invariant
                fresh(self.times@, now as int) == fresh(old(self).times@, now as int),
                self.times@.len() <= old(self).times@.len(),
            ensures
                self.times@ == fresh(old(self).times@, now as int),
                self.times@.len() <= old(self).times@.len(),
            decreases self.times@.len(),
        {
            if self.times.len() == 0 {
                break;
            }
            let front = self.times[0];
            if now >= WINDOW_MS && front <= now - WINDOW_MS {
                let ghost before = self.times@;
                self.times.pop_front();
                assert(self.times@ =~= before.drop_first());
            } else {
                break;
            }
        }
        self.times.push_back(now);
        self.times.len()
    }
}

} // verus!
