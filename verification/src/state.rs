//! Session state shared with the rendering loop: which screen is
//! shown, what the edit screen is doing, and how far a long pass has
//! come. The progress counter is integer-valued; the rendering side
//! divides the two numbers for its gauge.

use vstd::prelude::*;

verus! {

/// The screen the application is on.
#[derive(Clone, Copy, PartialEq, Eq, Structural, Debug)]
pub enum AppState {
    Home,
    SelectProcess,
    EditMemory,
}

/// What the memory-edit screen is doing. `Busy` marks a running pass
/// and blocks a second one from starting.
#[derive(Clone, Copy, PartialEq, Eq, Structural, Debug)]
pub enum EditState {
    Input,
    Select,
    Edit,
    Busy,
}

/// Progress of one pass: how much of `total` work is done. Within a
/// pass the counter never goes backwards, and it never passes the
/// total.
#[derive(Clone, Copy, PartialEq, Eq, Structural, Debug)]
pub struct Progress {
    done: u64,
    total: u64,
}

impl Progress {
    /// Work done so far.
    pub closed spec fn spec_done(self) -> u64 {
        self.done
    }

    /// The whole work of the pass.
    pub closed spec fn spec_total(self) -> u64 {
        self.total
    }

    /// The counter never exceeds the total.
    pub open spec fn inv(self) -> bool {
        self.spec_done() <= self.spec_total()
    }

    /// A fresh counter for a pass of `total` steps.
    pub fn new(total: u64) -> (p: Progress)
        ensures
            p.inv(),
            p.spec_done() == 0,
            p.spec_total() == total,
    {
        Progress { done: 0, total }
    }

    /// Records `amount` more steps, saturating at the total: the
    /// counter grows monotonically and stays within bounds.
    pub fn advance(&mut self, amount: u64)
        requires
            old(self).inv(),
        ensures
            final(self).inv(),
            final(self).spec_total() == old(self).spec_total(),
            final(self).spec_done() >= old(self).spec_done(),
            final(self).spec_done() == if old(self).spec_done() + amount <= old(self).spec_total() {
                old(self).spec_done() + amount
            } else {
                old(self).spec_total() as int
            },
    {
        if amount <= self.total - self.done {
            self.done = self.done + amount;
        } else {
            self.done = self.total;
        }
    }

    /// Marks the pass complete, whatever was counted: the gauge shows
    /// full after success and failure alike.
    pub fn finish(&mut self)
        ensures
            final(self).inv(),
            final(self).spec_total() == old(self).spec_total(),
            final(self).spec_done() == final(self).spec_total(),
    {
        self.done = self.total;
    }

    /// Work done so far.
    pub fn done(&self) -> (d: u64)
        ensures
            d == self.spec_done(),
    {
        self.done
    }

    /// The whole work of the pass.
    pub fn total(&self) -> (t: u64)
        ensures
            t == self.spec_total(),
    {
        self.total
    }
}

} // verus!
