use vstd::prelude::*;
use timely::progress::frontier::Antichain;
use crate::frontier::{antichain_elements, elements};

verus! {

/// What the registry needs of an arranged trace handle: read how far its
/// batches reach, and let it compact.
///
/// A handle remembers the frontiers it was last handed: `advance_frontier`
/// (logical compaction) and `distinguish_frontier` (physical compaction), as a
/// differential dataflow `TraceAgent` does. A frontier is given as the
/// elements of an antichain of timestamps.
///
/// The spec functions carry placeholder bodies only so that handles defined
/// outside verified code, which cannot define spec functions, still compile.
/// The code of this crate is generic over the handle and never sees those
/// bodies: it knows of a handle only what the method contracts below say.
pub trait Arrangement {
    /// The frontier last handed to `advance_by`.
    closed spec fn advance_frontier(&self) -> Seq<u64> {
        Seq::empty()
    }

    /// The frontier last handed to `distinguish_since`.
    closed spec fn distinguish_frontier(&self) -> Seq<u64> {
        Seq::empty()
    }

    /// Which shared trace this handle reads; no method of the handle changes it.
    closed spec fn trace_id(&self) -> int {
        0
    }

    /// What `read_upper` makes of an accumulator that holds `acc`, given the
    /// batches the trace holds now.
    closed spec fn read_into(&self, acc: Seq<u64>) -> Seq<u64> {
        acc
    }

    /// Writes the upper frontier of the batches the trace currently holds into
    /// `target`. Neither compaction frontier changes.
    fn read_upper(&mut self, target: &mut Antichain<u64>)
        ensures
            antichain_elements(*final(target)) == old(self).read_into(antichain_elements(*old(target))),
            final(self).advance_frontier() == old(self).advance_frontier(),
            final(self).distinguish_frontier() == old(self).distinguish_frontier(),
            final(self).trace_id() == old(self).trace_id(),
    ;

    /// Allows the trace to merge batches that differ only at times not in
    /// advance of `frontier`.
    fn distinguish_since(&mut self, frontier: &[u64])
        ensures
            final(self).distinguish_frontier() == frontier@,
            final(self).advance_frontier() == old(self).advance_frontier(),
            final(self).trace_id() == old(self).trace_id(),
    ;

    /// Allows the trace to give up correct accumulations at times not in
    /// advance of `frontier`.
    fn advance_by(&mut self, frontier: &[u64])
        ensures
            final(self).advance_frontier() == frontier@,
            final(self).distinguish_frontier() == old(self).distinguish_frontier(),
            final(self).trace_id() == old(self).trace_id(),
    ;
}

/// One bound arrangement: the trace handle and the resource released when the
/// binding goes away.
pub struct Bound<H, C> {
    pub trace: H,
    pub callback: Option<C>,
}

impl<H, C> Bound<H, C> {
    /// A binding just made from `trace` and `callback`.
    pub open spec fn is_fresh(&self, trace: H, callback: Option<C>) -> bool {
        &&& self.trace == trace
        &&& self.callback == callback
    }

    pub fn new(trace: H, callback: Option<C>) -> (r: Self)
        ensures
            r.is_fresh(trace, callback),
    {
        Bound { trace, callback }
    }
}

impl<H: Arrangement, C> Bound<H, C> {
    /// `self` is `old` after reading the upper frontier into an accumulator
    /// that held `acc` and distinguishing since the result: the same trace and
    /// callback, the same logical frontier, and the physical frontier read.
    pub open spec fn merged_physically_from(&self, old: Self, acc: Seq<u64>) -> bool {
        &&& self.callback == old.callback
        &&& self.trace.trace_id() == old.trace.trace_id()
        &&& self.trace.advance_frontier() == old.trace.advance_frontier()
        &&& self.trace.distinguish_frontier() == old.trace.read_into(acc)
    }

    /// `self` is `old` after `advance_by(frontier)`: the same trace and
    /// callback, and the physical frontier left as it was.
    pub open spec fn merged_logically_from(&self, old: Self, frontier: Seq<u64>) -> bool {
        &&& self.callback == old.callback
        &&& self.trace.trace_id() == old.trace.trace_id()
        &&& self.trace.advance_frontier() == frontier
        &&& self.trace.distinguish_frontier() == old.trace.distinguish_frontier()
    }

    /// Reads the trace's upper frontier into `antichain` and lets the trace
    /// merge batches below it.
    pub fn merge_physical(&mut self, antichain: &mut Antichain<u64>)
        ensures
            final(self).merged_physically_from(*old(self), antichain_elements(*old(antichain))),
            antichain_elements(*final(antichain)) == old(self).trace.read_into(antichain_elements(*old(antichain))),
    {
        self.trace.read_upper(antichain);
        self.trace.distinguish_since(elements(antichain));
    }

    /// Commits the logical compaction frontier to the trace.
    pub fn merge_logical(&mut self, frontier: &[u64])
        ensures
            final(self).merged_logically_from(*old(self), frontier@),
    {
        self.trace.advance_by(frontier);
    }
}

} // verus!
