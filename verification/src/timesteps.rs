//! The table of absolute timesteps that value changes refer to by index.

use crate::error::Error;
use vstd::prelude::*;

verus! {

/// The number of timesteps that a 32-bit index can name.
pub const MAX_TIMESTEPS: u64 = 0x1_0000_0000;

/// The distinct timesteps of a trace, in the order in which the input
/// reached them. They strictly increase, so a timestep has one index.
pub struct TimestepTable {
    steps: Vec<u64>,
}

impl View for TimestepTable {
    type V = Seq<u64>;

    closed spec fn view(&self) -> Seq<u64> {
        self.steps@
    }
}

/// Whether a sequence of timesteps strictly increases.
pub open spec fn increasing(steps: Seq<u64>) -> bool {
    forall|i: int, j: int| 0 <= i < j < steps.len() ==> steps[i] < steps[j]
}

impl TimestepTable {
    /// The timesteps strictly increase and a 32-bit index reaches each.
    pub open spec fn wf(&self) -> bool {
        &&& increasing(self@)
        &&& self@.len() <= MAX_TIMESTEPS
    }

    /// A table without timesteps.
    pub fn new() -> (r: Self)
        ensures
            r.wf(),
            r@ == Seq::<u64>::empty(),
    {
        TimestepTable { steps: Vec::new() }
    }

    /// The number of distinct timesteps.
    pub fn len(&self) -> (r: usize)
        ensures
            r == self@.len(),
    {
        self.steps.len()
    }

    /// The most recent timestep, if there is one.
    pub fn last(&self) -> (r: Option<u64>)
        ensures
            r == if self@.len() == 0 {
                None
            } else {
                Some(self@.last())
            },
    {
        let n = self.steps.len();
        if n == 0 {
            None
        } else {
            Some(self.steps[n - 1])
        }
    }

    /// Moves the clock to `ts` and returns the index of `ts`. The most
    /// recent timestep again gives its index and allocates nothing; a later
    /// one is appended and gets the next index.
    ///
    /// Fails with `TimestepRegression` where `ts` is before the most recent
    /// timestep, and with `TimestepIndexOverflow` where a new index does not
    /// fit in 32 bits. The table is then unchanged.
    pub fn push(&mut self, ts: u64) -> (r: Result<u32, Error>)
        requires
            old(self).wf(),
        ensures
            final(self).wf(),
            r == if old(self)@.len() > 0 && ts < old(self)@.last() {
                Err::<u32, Error>(Error::TimestepRegression)
            } else if old(self)@.len() > 0 && ts == old(self)@.last() {
                Ok((old(self)@.len() - 1) as u32)
            } else if old(self)@.len() >= MAX_TIMESTEPS {
                Err(Error::TimestepIndexOverflow)
            } else {
                Ok(old(self)@.len() as u32)
            },
            final(self)@ == if r is Ok && !(old(self)@.len() > 0 && ts == old(self)@.last()) {
                old(self)@.push(ts)
            } else {
                old(self)@
            },
    {
        let n = self.steps.len();
        if n > 0 {
            let last = self.steps[n - 1];
            if ts < last {
                return Err(Error::TimestepRegression);
            }
            if ts == last {
                return Ok((n - 1) as u32);
            }
        }
        if n as u64 >= MAX_TIMESTEPS {
            return Err(Error::TimestepIndexOverflow);
        }
        self.steps.push(ts);
        Ok(n as u32)
    }

    /// The timestep with the given index, or `OutOfBounds`.
    pub fn get(&self, index: u32) -> (r: Result<u64, Error>)
        ensures
            r == if (index as int) < self@.len() {
                Ok::<u64, Error>(self@[index as int])
            } else {
                Err(Error::OutOfBounds)
            },
    {
        if (index as usize) < self.steps.len() {
            Ok(self.steps[index as usize])
        } else {
            Err(Error::OutOfBounds)
        }
    }
}

} // verus!
