//! Counting the steps of a load that runs in stages.

use vstd::prelude::*;

verus! {

/// How far the current stage of a load has come.
#[derive(Debug, Clone, Copy, PartialEq, Eq, Structural)]
pub struct Progress {
    acc: usize,
    end: usize,
    stage: usize,
}

impl Progress {
    /// The steps done in the current stage.
    pub closed spec fn acc(&self) -> usize {
        self.acc
    }

    /// The steps of the current stage; 0 where they are not known.
    pub closed spec fn end(&self) -> usize {
        self.end
    }

    /// The number of the current stage, from 0.
    pub closed spec fn stage(&self) -> usize {
        self.stage
    }

    /// The first stage, of `end` steps, with none done. An `end` of 0 is
    /// read as not known.
    pub fn new(end: Option<usize>) -> (r: Self)
        ensures
            r.acc() == 0,
            r.stage() == 0,
            r.end() == match end {
                Some(n) => n,
                None => 0,
            },
    {
        Progress {
            acc: 0,
            end: match end {
                Some(n) => n,
                None => 0,
            },
            stage: 0,
        }
    }

    /// Counts one step. The count wraps where it leaves the range of
    /// `usize`.
    pub fn tick(&mut self)
        ensures
            final(self).acc() == if old(self).acc() == usize::MAX {
                0
            } else {
                old(self).acc() + 1
            },
            final(self).end() == old(self).end(),
            final(self).stage() == old(self).stage(),
    {
        self.acc = if self.acc == usize::MAX {
            0
        } else {
            self.acc + 1
        };
    }

    /// The steps done and the steps of the stage, or `None` where the steps
    /// of the stage are not known. Their quotient is the share that is done.
    pub fn fraction(&self) -> (r: Option<(usize, usize)>)
        ensures
            r == if self.end() == 0 {
                None
            } else {
                Some((self.acc(), self.end()))
            },
    {
        if self.end == 0 {
            None
        } else {
            Some((self.acc, self.end))
        }
    }

    /// Begins the next stage, of `new_end` steps, with none done.
    pub fn next_stage(&mut self, new_end: Option<usize>)
        ensures
            final(self).acc() == 0,
            final(self).end() == match new_end {
                Some(n) => n,
                None => 0,
            },
            final(self).stage() == if old(self).stage() == usize::MAX {
                0
            } else {
                old(self).stage() + 1
            },
    {
        self.acc = 0;
        self.end = match new_end {
            Some(n) => n,
            None => 0,
        };
        self.stage = if self.stage == usize::MAX {
            0
        } else {
            self.stage + 1
        };
    }
}

} // verus!
