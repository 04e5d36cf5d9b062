//! The two significance levels a trial count can be asked for.
use vstd::prelude::*;

verus! {

/// The chance, left over after the trials, that the event has still not occurred.
#[derive(Clone, Copy, Debug, PartialEq, Eq, Structural)]
pub enum Significance {
    /// Five percent.
    Five,
    /// One percent.
    One,
}

impl Significance {
    /// The level is one chance in this many.
    pub open spec fn spec_one_in(self) -> nat {
        match self {
            Significance::Five => 20,
            Significance::One => 100,
        }
    }

    /// The level as one chance in `n`: 20 for five percent, 100 for one percent.
    pub fn one_in(&self) -> (r: u64)
        ensures
            r == self.spec_one_in(),
    {
        match self {
            Significance::Five => 20,
            Significance::One => 100,
        }
    }
}

} // verus!
