//! Durations small enough to be held in femtoseconds.
use vstd::prelude::*;

verus! {

/// A duration below `MAX_NANOS` nanoseconds, kept as a femtosecond count
/// so that timer arithmetic stays in one 64-bit word. There are a million
/// femtoseconds in a nanosecond.
#[derive(Clone, Copy, PartialEq, Eq, Structural, Debug)]
pub struct SmallDuration {
    femto_seconds: u64,
}

/// The largest whole-nanosecond count that still fits when scaled to
/// femtoseconds.
pub const MAX_NANOS: u64 = 0xffff_ffff_ffff_ffff / 1_000_000;

impl SmallDuration {
    pub closed spec fn spec_femto_secs(self) -> u64 {
        self.femto_seconds
    }

    /// Scale a nanosecond count down to a small duration; refused when the
    /// femtosecond count would not fit one word.
    pub fn new(nanos: u128) -> (r: Option<SmallDuration>)
        requires
            nanos * 1_000_000 <= u128::MAX,
        ensures
            match r {
                Some(d) => nanos * 1_000_000 <= u64::MAX && d.spec_femto_secs() == nanos
                    * 1_000_000,
                None => nanos * 1_000_000 > u64::MAX,
            },
    {
        let fs: u128 = nanos * 1_000_000u128;
        if fs <= 0xffff_ffff_ffff_ffffu128 {
            Some(SmallDuration { femto_seconds: fs as u64 })
        } else {
            None
        }
    }

    /// The duration in femtoseconds.
    pub fn as_femto_secs(&self) -> (r: u64)
        ensures
            r == self.spec_femto_secs(),
    {
        self.femto_seconds
    }
}

} // verus!
