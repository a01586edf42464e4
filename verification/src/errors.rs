//! Error types of the scrubber.

use vstd::prelude::*;

verus! {

/// Why an engine could not be constructed.
///
/// Construction refuses to proceed with a partially valid region set: the
/// first offending region (in the order supplied) decides the error.
#[derive(Clone, Copy, Debug, PartialEq, Eq, Structural)]
pub enum ConstructionError {
    /// The cache geometry is unusable: a zero `cache_index_width`, or widths
    /// so large that addresses and set counts no longer fit in `usize`.
    InvalidCacheGeometry,
    /// The region set is empty; nothing to scrub is a caller error, not a
    /// silent no-op.
    EmptyRegionSet,
    /// A region has `end < start`.
    InvalidRegion,
    /// A region is shorter than one cache line.
    RegionTooSmall,
    /// A region's start or length is not aligned to a cache-line boundary.
    /// The scrubber rejects such regions rather than silently truncating.
    Misaligned,
}

/// A fault reported by the caller-supplied cache-line read: the address whose
/// read failed. The engine propagates it verbatim and never retries.
#[derive(Clone, Copy, Debug, PartialEq, Eq, Structural)]
pub struct ScrubError {
    pub addr: usize,
}

} // verus!
