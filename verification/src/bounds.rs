//! Caller-facing description of a bit range.

use vstd::prelude::*;

verus! {

/// One side of a range description: a bit index that belongs to the range,
/// a bit index just outside it, or no bound at all on that side.
#[derive(Clone, Copy, PartialEq, Eq, Structural)]
pub enum Endpoint {
    Included(u32),
    Excluded(u32),
    Unbounded,
}

/// A caller-supplied description of a contiguous set of bit positions.
/// Either side may be inclusive, exclusive or absent, so each of
/// `[a, b)`, `[a, b]`, `[a, +)`, `(-, b)`, `(-, b]` and the full range
/// can be written. Out-of-range indices are accepted; the per-width
/// normalizers clamp them.
#[derive(Clone, Copy, PartialEq, Eq, Structural)]
pub struct BitRange {
    pub start: Endpoint,
    pub end: Endpoint,
}

impl BitRange {
    /// The half-open range `a..b`.
    pub fn half_open(a: u32, b: u32) -> (r: BitRange)
        ensures
            r == (BitRange { start: Endpoint::Included(a), end: Endpoint::Excluded(b) }),
    {
        BitRange { start: Endpoint::Included(a), end: Endpoint::Excluded(b) }
    }

    /// The closed range `a..=b`.
    pub fn closed(a: u32, b: u32) -> (r: BitRange)
        ensures
            r == (BitRange { start: Endpoint::Included(a), end: Endpoint::Included(b) }),
    {
        BitRange { start: Endpoint::Included(a), end: Endpoint::Included(b) }
    }

    /// The range `a..`, unbounded above.
    pub fn starting_at(a: u32) -> (r: BitRange)
        ensures
            r == (BitRange { start: Endpoint::Included(a), end: Endpoint::Unbounded }),
    {
        BitRange { start: Endpoint::Included(a), end: Endpoint::Unbounded }
    }

    /// The range `..b`, unbounded below.
    pub fn up_to(b: u32) -> (r: BitRange)
        ensures
            r == (BitRange { start: Endpoint::Unbounded, end: Endpoint::Excluded(b) }),
    {
        BitRange { start: Endpoint::Unbounded, end: Endpoint::Excluded(b) }
    }

    /// The range `..=b`, unbounded below.
    pub fn up_through(b: u32) -> (r: BitRange)
        ensures
            r == (BitRange { start: Endpoint::Unbounded, end: Endpoint::Included(b) }),
    {
        BitRange { start: Endpoint::Unbounded, end: Endpoint::Included(b) }
    }

    /// The full range `..`.
    pub fn full() -> (r: BitRange)
        ensures
            r == (BitRange { start: Endpoint::Unbounded, end: Endpoint::Unbounded }),
    {
        BitRange { start: Endpoint::Unbounded, end: Endpoint::Unbounded }
    }
}

} // verus!
