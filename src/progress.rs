//! Events that report the progress of a rendering run.
use vstd::prelude::*;
use crate::coords::RLoc;

verus! {

/// One progress event. A run sends `BeginAll` with the number of chunks to
/// render first and `EndAll` last; for each region, `Begin` with its number
/// of chunks, one `Step` per chunk, then `End`.
#[derive(Clone, Copy, Debug, PartialEq, Eq, Structural)]
pub enum RegionProgress {
    BeginAll(usize),
    EndAll,
    Begin(RLoc, usize),
    Step(RLoc),
    End(RLoc),
}

/// The events of one region with `count` chunks to render, in the order in
/// which they are sent: `Begin`, one `Step` per chunk, then `End`.
pub fn region_events(rloc: &RLoc, count: usize) -> (r: Vec<RegionProgress>)
    requires
        count < usize::MAX - 1,
    ensures
        r@.len() == count + 2,
        r@[0] == RegionProgress::Begin(*rloc, count),
        forall|i: int| 1 <= i <= count ==> #[trigger] r@[i] == RegionProgress::Step(*rloc),
        r@[count + 1] == RegionProgress::End(*rloc),
{
    let mut r: Vec<RegionProgress> = Vec::new();
    r.push(RegionProgress::Begin(*rloc, count));
    let mut i: usize = 0;
    while i < count
        invariant
            i <= count,
            r@.len() == i + 1,
            r@[0] == RegionProgress::Begin(*rloc, count),
            forall|j: int| 1 <= j <= i ==> #[trigger] r@[j] == RegionProgress::Step(*rloc),
        decreases count - i,
    {
        r.push(RegionProgress::Step(*rloc));
        i += 1;
    }
    r.push(RegionProgress::End(*rloc));
    r
}

} // verus!
