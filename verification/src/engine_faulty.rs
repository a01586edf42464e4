//! A cache descriptor that reports a fault at one poisoned address: it lets
//! callers exercise how the engine propagates a read fault and resumes after
//! one.

use vstd::prelude::*;
use crate::engine::CachelineReader;
use crate::errors::ScrubError;

verus! {

/// Touches and records every cache line except one poisoned address, whose
/// read it reports as a fault.
pub struct FaultyCacheDesc {
    pub poisoned: usize,
    pub visits: Vec<usize>,
}

impl FaultyCacheDesc {
    /// A fresh descriptor that faults at `poisoned` and has touched nothing.
    pub fn new(poisoned: usize) -> (d: FaultyCacheDesc)
        ensures
            d.poisoned == poisoned,
            d.visits@ == Seq::<usize>::empty(),
    {
        FaultyCacheDesc { poisoned, visits: Vec::new() }
    }
}

impl CachelineReader for FaultyCacheDesc {
    open spec fn touched(&self) -> Seq<int> {
        self.visits@.map_values(|a: usize| a as int)
    }

    /// Exactly the poisoned address may fault — and, per the impl's own
    /// contract below, always does.
    open spec fn spec_faults(&self, addr: int) -> bool {
        addr == self.poisoned as int
    }

    fn read_cacheline(&mut self, addr: usize) -> (r: Result<(), ScrubError>)
        ensures
            r is Err <==> addr == old(self).poisoned,
            final(self).poisoned == old(self).poisoned,
    {
        if addr == self.poisoned {
            Err(ScrubError { addr })
        } else {
            self.visits.push(addr);
            proof {
                assert(self.visits@.map_values(|a: usize| a as int) =~= old(
                    self,
                ).visits@.map_values(|a: usize| a as int).push(addr as int));
            }
            Ok(())
        }
    }
}

} // verus!
