//! Hybrid logical timestamps.
use std::cmp::Ordering;
use vstd::prelude::*;

verus! {

/// A hybrid logical timestamp: milliseconds of a physical clock, and a counter
/// that tells apart events of the same millisecond.
#[derive(Debug, Clone, Copy, PartialEq, Eq, Structural, Ord, Hash)]
pub struct HlcTimestamp {
    pub physical: u64,
    pub logical: u32,
}

/// Timestamps are ordered by the clock, then by the counter.
pub open spec fn ts_lt(a: HlcTimestamp, b: HlcTimestamp) -> bool {
    a.physical < b.physical || (a.physical == b.physical && a.logical < b.logical)
}

/// `a` is `b` or earlier.
pub open spec fn ts_le(a: HlcTimestamp, b: HlcTimestamp) -> bool {
    a == b || ts_lt(a, b)
}

impl PartialOrd for HlcTimestamp {
    fn partial_cmp(&self, other: &Self) -> (r: Option<Ordering>) {
        if self.physical < other.physical {
            Some(Ordering::Less)
        } else if self.physical > other.physical {
            Some(Ordering::Greater)
        } else if self.logical < other.logical {
            Some(Ordering::Less)
        } else if self.logical > other.logical {
            Some(Ordering::Greater)
        } else {
            Some(Ordering::Equal)
        }
    }
}

impl vstd::std_specs::cmp::PartialOrdSpecImpl for HlcTimestamp {
    open spec fn obeys_partial_cmp_spec() -> bool {
        true
    }

    open spec fn partial_cmp_spec(&self, other: &Self) -> Option<Ordering> {
        if ts_lt(*self, *other) {
            Some(Ordering::Less)
        } else if ts_lt(*other, *self) {
            Some(Ordering::Greater)
        } else {
            Some(Ordering::Equal)
        }
    }
}

impl HlcTimestamp {
    /// The earliest timestamp.
    pub fn zero() -> (r: HlcTimestamp)
        ensures
            r == (HlcTimestamp { physical: 0, logical: 0 }),
    {
        HlcTimestamp { physical: 0, logical: 0 }
    }

    /// Whether this timestamp is earlier than `other`.
    pub fn is_before(&self, other: &HlcTimestamp) -> (r: bool)
        ensures
            r == ts_lt(*self, *other),
    {
        self.physical < other.physical || (self.physical == other.physical && self.logical
            < other.logical)
    }

    /// Whether this timestamp is `other` or earlier.
    pub fn is_at_or_before(&self, other: &HlcTimestamp) -> (r: bool)
        ensures
            r == ts_le(*self, *other),
    {
        !other.is_before(self)
    }
}

} // verus!
