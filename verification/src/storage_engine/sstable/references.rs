//! The references to segments.

use crate::storage_engine::sstable::level::segment::Segment;
use std::sync::Arc;
use vstd::prelude::*;

verus! {

/// A number of references to a segment that was read for it. There is no other
/// way to one than to have it read.
pub struct References {
    number: usize,
    segment: Ghost<Arc<Segment>>,
}

impl References {
    /// The segment that the number was read for.
    pub closed spec fn of(&self) -> Arc<Segment> {
        self.segment@
    }

    /// The number that was read.
    pub closed spec fn count(&self) -> usize {
        self.number
    }

    /// The number that was read.
    pub fn number(&self) -> (n: usize)
        ensures
            n == self.count(),
    {
        self.number
    }
}

/// The numbers that were read.
pub open spec fn numbers(counts: Seq<References>) -> Seq<usize> {
    counts.map_values(|c: References| c.count())
}

/// Each number was read for the segment at its place.
pub open spec fn read_for(counts: Seq<References>, segs: Seq<Arc<Segment>>) -> bool {
    &&& counts.len() == segs.len()
    &&& forall|i: int| 0 <= i < segs.len() ==> (#[trigger] counts[i]).of() == segs[i]
}

/// Reads the number of references to a segment.
///
/// Trusted: `std::sync::Arc::strong_count`. What is returned holds the number
/// that the call gave, and it is noted for which segment the call was made. The
/// number depends on what other threads hold at the time, so nothing is claimed
/// of it.
#[verifier::external_body]
pub(crate) fn count_references(a: &Arc<Segment>) -> (r: References)
    ensures
        r.of() == *a,
{
    References { number: Arc::strong_count(a), segment: Ghost(*a) }
}

} // verus!
