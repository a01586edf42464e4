//! The scrub engine: composes a cache geometry, a caller-supplied cache-line
//! touch capability and a validated region set, and walks the cache lines in
//! set-major order through an incremental, resumable `scrub` operation.

use vstd::prelude::*;
use crate::errors::ConstructionError;
use crate::errors::ScrubError;
use crate::geometry::geometry_ok;
use crate::geometry::lemma_pow2_increases;
use crate::geometry::pow2_usize;
use crate::geometry::checked_pow2;
use crate::geometry::spec_cacheline_size;
use crate::region::ScrubArea;
use crate::region::regions_valid;
use crate::region::spec_regions_error;
use crate::region::validate_regions;
use crate::traversal::build_schedule;
use crate::traversal::lemma_total_bytes_lines;
use crate::traversal::lemma_traversal_len;
use crate::traversal::seq_matches;
use crate::traversal::total_bytes;
use crate::traversal::total_lines;
use crate::traversal::traversal;

verus! {

/// The caller-supplied touch capability: reads one whole cache line so the
/// hardware's ECC check-and-correct logic runs. The read must not mutate
/// program-visible memory, and must not be optimised away.
pub trait CachelineReader: Sized {
    /// The addresses this reader has touched so far, oldest first.
    spec fn touched(&self) -> Seq<int>;

    /// The addresses whose read may report a fault. A read anywhere else is
    /// owed success; a reader with nothing in this set never fails.
    spec fn spec_faults(&self, addr: int) -> bool;

    /// Touches the cache line at `addr`. A successful touch records the
    /// address; a fault — possible only where `spec_faults` admits one — is
    /// reported as an error carrying the address it was handed, verbatim, and
    /// records nothing. Reading never changes which addresses may fault.
    fn read_cacheline(&mut self, addr: usize) -> (r: Result<(), ScrubError>)
        ensures
            !old(self).spec_faults(addr as int) ==> r is Ok,
            forall|a: int| final(self).spec_faults(a) == old(self).spec_faults(a),
            r is Ok ==> final(self).touched() == old(self).touched().push(addr as int),
            r is Err ==> final(self).touched() == old(self).touched(),
            r matches Err(e) ==> e.addr == addr,
    ;
}

/// A software cache descriptor: carries the set-selection width and records
/// every cache line it is asked to touch, so that a traversal can be observed
/// and checked. A hardware-backed reader lives with the caller instead.
pub struct MyCacheDesc {
    pub my_cache_index_width: usize,
    pub visits: Vec<usize>,
}

impl MyCacheDesc {
    /// A fresh descriptor with the given set-selection width and no visits.
    pub fn new(my_cache_index_width: usize) -> (d: MyCacheDesc)
        ensures
            d.my_cache_index_width == my_cache_index_width,
            d.visits@ == Seq::<usize>::empty(),
    {
        MyCacheDesc { my_cache_index_width, visits: Vec::new() }
    }

    /// The set-selection width this descriptor was built with.
    pub fn cache_index_width(&self) -> (w: usize)
        ensures
            w == self.my_cache_index_width,
    {
        self.my_cache_index_width
    }
}

impl CachelineReader for MyCacheDesc {
    open spec fn touched(&self) -> Seq<int> {
        self.visits@.map_values(|a: usize| a as int)
    }

    /// This reader performs no hardware read, so no address ever faults.
    open spec fn spec_faults(&self, addr: int) -> bool {
        false
    }

    fn read_cacheline(&mut self, addr: usize) -> (r: Result<(), ScrubError>)
        ensures
            r is Ok,
            final(self).my_cache_index_width == old(self).my_cache_index_width,
    {
        self.visits.push(addr);
        proof {
            assert(self.visits@.map_values(|a: usize| a as int) =~= old(
                self,
            ).visits@.map_values(|a: usize| a as int).push(addr as int));
        }
        Ok(())
    }
}

/// The scrub engine. It owns the reader, the validated regions, the schedule
/// of one full cycle in set-major order, and the cursor: the index into that
/// cycle of the next line due for a touch. Observers may read the fields;
/// only `scrub` is meant to advance the cursor.
pub struct MemoryScrubber<T: CachelineReader> {
    pub desc: T,
    pub cacheline_width: usize,
    pub cache_index_width: usize,
    pub regions: Vec<ScrubArea>,
    pub schedule: Vec<usize>,
    pub cursor: usize,
}

impl<T: CachelineReader> MemoryScrubber<T> {
    /// The cache-line width, as a ghost width.
    pub open spec fn clw(&self) -> nat {
        self.cacheline_width as nat
    }

    /// The set-selection width, as a ghost width.
    pub open spec fn ciw(&self) -> nat {
        self.cache_index_width as nat
    }

    /// One full cycle of this engine, in set-major order.
    pub open spec fn trav(&self) -> Seq<int> {
        traversal(self.regions@, self.clw(), self.ciw())
    }

    /// The number of cache lines in one full cycle.
    pub open spec fn total(&self) -> int {
        self.schedule@.len() as int
    }

    /// The cache-line size in bytes, as a ghost value.
    pub open spec fn spec_cls(&self) -> int {
        spec_cacheline_size(self.clw()) as int
    }

    /// A well-formed engine: usable geometry, a nonempty set of valid regions
    /// whose total size fits the address space, a schedule that spells out
    /// exactly one full cycle, and a cursor inside it.
    pub open spec fn wf(&self) -> bool {
        &&& geometry_ok(self.clw(), self.ciw())
        &&& regions_valid(self.regions@, self.clw())
        &&& self.regions@.len() >= 1
        &&& total_bytes(self.regions@) <= usize::MAX
        &&& seq_matches(self.schedule@, self.trav())
        &&& self.schedule@.len() >= 1
        &&& self.cursor < self.schedule@.len()
        &&& self.total() * self.spec_cls() == total_bytes(self.regions@)
    }

    /// The error construction reports, if any: bad geometry first, then an
    /// empty region set, then the first offending region.
    pub open spec fn spec_new_error(
        cacheline_width: nat,
        cache_index_width: nat,
        regions: Seq<ScrubArea>,
    ) -> Option<ConstructionError> {
        if !geometry_ok(cacheline_width, cache_index_width) {
            Some(ConstructionError::InvalidCacheGeometry)
        } else if regions.len() == 0 {
            Some(ConstructionError::EmptyRegionSet)
        } else {
            spec_regions_error(regions, cacheline_width)
        }
    }

    /// Builds an engine over the given reader, geometry and regions, with the
    /// cursor at the first line of the first cycle; or reports exactly the
    /// error `spec_new_error` names. Nothing is touched yet.
    pub fn new(
        desc: T,
        cacheline_width: usize,
        cache_index_width: usize,
        regions: Vec<ScrubArea>,
    ) -> (r: Result<MemoryScrubber<T>, ConstructionError>)
        requires
            total_bytes(regions@) <= usize::MAX,
        ensures
            match r {
                Ok(e) => {
                    &&& Self::spec_new_error(
                        cacheline_width as nat,
                        cache_index_width as nat,
                        regions@,
                    ) is None
                    &&& e.wf()
                    &&& e.desc == desc
                    &&& e.cacheline_width == cacheline_width
                    &&& e.cache_index_width == cache_index_width
                    &&& e.regions@ == regions@
                    &&& e.cursor == 0
                },
                Err(err) => Self::spec_new_error(
                    cacheline_width as nat,
                    cache_index_width as nat,
                    regions@,
                ) == Some(err),
            },
    {
        let ghost clw = cacheline_width as nat;
        let ghost ciw = cache_index_width as nat;
        if cache_index_width == 0 {
            return Err(ConstructionError::InvalidCacheGeometry);
        }
        if cacheline_width > usize::MAX - cache_index_width {
            proof {
                lemma_pow2_gt(clw + ciw);
            }
            return Err(ConstructionError::InvalidCacheGeometry);
        }
        let width_sum = cacheline_width + cache_index_width;
        match checked_pow2(width_sum) {
            None => {
                return Err(ConstructionError::InvalidCacheGeometry);
            },
            Some(_) => {},
        }
        proof {
            lemma_pow2_increases(clw, clw + ciw);
        }
        if regions.len() == 0 {
            return Err(ConstructionError::EmptyRegionSet);
        }
        let cls = pow2_usize(cacheline_width);
        match validate_regions(&regions, cacheline_width, cls) {
            Ok(()) => {},
            Err(e) => {
                return Err(e);
            },
        }
        let schedule = build_schedule(&regions, cacheline_width, cache_index_width);
        proof {
            crate::region::lemma_regions_error_none(regions@, clw);
            lemma_traversal_len(regions@, clw, ciw);
            lemma_total_bytes_lines(regions@, clw);
        }
        Ok(
            MemoryScrubber {
                desc,
                cacheline_width,
                cache_index_width,
                regions,
                schedule,
                cursor: 0,
            },
        )
    }

    /// How many lines a `scrub(byte_count)` call starting at this engine's
    /// cursor visits: the requested number of whole lines, or what is left of
    /// the cycle, whichever is smaller.
    pub open spec fn planned_lines(&self, byte_count: int) -> int {
        let want = byte_count / self.spec_cls();
        let remaining = self.total() - self.cursor;
        if want <= remaining {
            want
        } else {
            remaining
        }
    }

    /// What a successful `scrub` call did: it touched, in order, the next
    /// `planned_lines` addresses of the cycle, reported their size in bytes,
    /// and moved the cursor past them, back to the start when the cycle is
    /// done.
    pub open spec fn scrub_ok_post(pre: Self, post: Self, byte_count: int, n: int) -> bool {
        let p = pre.planned_lines(byte_count);
        &&& n == p * pre.spec_cls()
        &&& post.cursor as int == if pre.cursor + p == pre.total() {
            0int
        } else {
            pre.cursor + p
        }
        &&& post.desc.touched() == pre.desc.touched() + pre.trav().subrange(
            pre.cursor as int,
            pre.cursor + p,
        )
    }

    /// A failing `scrub` call stopped after `k` successful touches: it
    /// touched, in order, the first `k` lines it planned, left the cursor on
    /// the line whose touch reported the fault — a line the reader admits may
    /// fault — and returned that fault verbatim, carrying that line's
    /// address. The next call retries the line.
    pub open spec fn scrub_stopped_at(
        pre: Self,
        post: Self,
        byte_count: int,
        e: ScrubError,
        k: int,
    ) -> bool {
        &&& 0 <= k < pre.planned_lines(byte_count)
        &&& post.cursor as int == pre.cursor + k
        &&& post.desc.touched() == pre.desc.touched() + pre.trav().subrange(
            pre.cursor as int,
            pre.cursor + k,
        )
        &&& pre.desc.spec_faults(pre.trav()[pre.cursor + k])
        &&& e.addr as int == pre.trav()[pre.cursor + k]
    }

    pub open spec fn scrub_err_post(pre: Self, post: Self, byte_count: int, e: ScrubError) -> bool {
        exists|k: int| Self::scrub_stopped_at(pre, post, byte_count, e, k)
    }

    /// Visits cache lines from the cursor on, in set-major order, until
    /// `byte_count` bytes' worth of lines are touched or the cycle wraps to
    /// its start, whichever comes first; returns the bytes actually touched.
    /// A fault from the reader is propagated verbatim, never retried; a
    /// reader that admits no fault is owed success.
    pub fn scrub(&mut self, byte_count: usize) -> (r: Result<usize, ScrubError>)
        requires
            old(self).wf(),
        ensures
            final(self).wf(),
            final(self).cacheline_width == old(self).cacheline_width,
            final(self).cache_index_width == old(self).cache_index_width,
            final(self).regions@ == old(self).regions@,
            final(self).schedule@ == old(self).schedule@,
            forall|a: int|
                final(self).desc.spec_faults(a) == old(self).desc.spec_faults(a),
            (forall|a: int| !old(self).desc.spec_faults(a)) ==> r is Ok,
            match r {
                Ok(n) => Self::scrub_ok_post(*old(self), *final(self), byte_count as int, n as int),
                Err(e) => Self::scrub_err_post(*old(self), *final(self), byte_count as int, e),
            },
    {
        let ghost pre = *self;
        proof {
            lemma_pow2_increases(pre.clw(), pre.clw() + pre.ciw());
        }
        let cls = pow2_usize(self.cacheline_width);
        let want = byte_count / cls;
        let remaining = self.schedule.len() - self.cursor;
        let n_lines = if want < remaining {
            want
        } else {
            remaining
        };
        proof {
            assert(n_lines as int == pre.planned_lines(byte_count as int));
            assert(pre.desc.touched() + pre.trav().subrange(
                pre.cursor as int,
                pre.cursor as int,
            ) =~= pre.desc.touched());
        }
        let mut k: usize = 0;
        while k < n_lines
            invariant
                0 <= k <= n_lines,
                pre == *old(self),
                pre.wf(),
                pre.total() <= usize::MAX,
                cls == spec_cacheline_size(pre.clw()),
                n_lines as int == pre.planned_lines(byte_count as int),
                pre.cursor + n_lines <= pre.total(),
                self.cacheline_width == pre.cacheline_width,
                self.cache_index_width == pre.cache_index_width,
                self.regions == pre.regions,
                self.schedule == pre.schedule,
                self.cursor == pre.cursor,
                self.desc.touched() == pre.desc.touched() + pre.trav().subrange(
                    pre.cursor as int,
                    pre.cursor + k,
                ),
                forall|a: int| self.desc.spec_faults(a) == pre.desc.spec_faults(a),
            decreases n_lines - k,
        {
            let addr = self.schedule[self.cursor + k];
            let ghost touched_before = self.desc.touched();
            match self.desc.read_cacheline(addr) {
                Ok(()) => {
                    proof {
                        assert(pre.trav().subrange(pre.cursor as int, pre.cursor + k + 1)
                            =~= pre.trav().subrange(pre.cursor as int, pre.cursor + k).push(
                            addr as int,
                        ));
                        assert(pre.desc.touched() + pre.trav().subrange(
                            pre.cursor as int,
                            pre.cursor + k + 1,
                        ) =~= (pre.desc.touched() + pre.trav().subrange(
                            pre.cursor as int,
                            pre.cursor + k,
                        )).push(addr as int));
                    }
                    k = k + 1;
                },
                Err(e) => {
                    self.cursor = self.cursor + k;
                    proof {
                        assert(addr as int == pre.trav()[pre.cursor + k]);
                        assert(pre.desc.spec_faults(addr as int));
                        assert(Self::scrub_stopped_at(pre, *self, byte_count as int, e, k as int));
                    }
                    return Err(e);
                },
            }
        }
        let new_cursor = self.cursor + n_lines;
        if new_cursor == self.schedule.len() {
            self.cursor = 0;
        } else {
            self.cursor = new_cursor;
        }
        proof {
            assert(n_lines as int * cls as int <= pre.total() * pre.spec_cls()) by {
                vstd::arithmetic::mul::lemma_mul_inequality(
                    n_lines as int,
                    pre.total(),
                    pre.spec_cls(),
                );
            }
        }
        let bytes = n_lines * cls;
        Ok(bytes)
    }

    /// The number of cache lines one full cycle visits: the sum over the
    /// regions of their whole-line counts.
    pub fn total_cachelines(&self) -> (n: usize)
        requires
            self.wf(),
        ensures
            n as int == total_lines(self.regions@, self.clw()),
            n as int == self.total(),
    {
        proof {
            lemma_traversal_len(self.regions@, self.clw(), self.ciw());
        }
        self.schedule.len()
    }

    /// The number of bytes one full cycle touches: the byte budget to hand
    /// `scrub` so that a single call covers every line once.
    pub fn cycle_bytes(&self) -> (n: usize)
        requires
            self.wf(),
        ensures
            n as int == total_bytes(self.regions@),
            n as int == self.total() * self.spec_cls(),
    {
        proof {
            lemma_pow2_increases(self.clw(), self.clw() + self.ciw());
        }
        let cls = pow2_usize(self.cacheline_width);
        self.schedule.len() * cls
    }

    /// The size of one cache line in bytes.
    pub fn cacheline_size(&self) -> (n: usize)
        requires
            self.wf(),
        ensures
            n as int == self.spec_cls(),
            n >= 1,
    {
        proof {
            lemma_pow2_increases(self.clw(), self.clw() + self.ciw());
        }
        pow2_usize(self.cacheline_width)
    }
}

/// `2^n` always exceeds `n`.
proof fn lemma_pow2_gt(n: nat)
    ensures
        vstd::arithmetic::power2::pow2(n) > n,
    decreases n,
{
    if n == 0 {
        vstd::arithmetic::power2::lemma2_to64();
    } else {
        lemma_pow2_gt((n - 1) as nat);
        vstd::arithmetic::power2::lemma_pow2_unfold(n);
    }
}

} // verus!
