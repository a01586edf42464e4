//! Cache geometry: the widths that fix the cache-line size and the number of
//! cache sets, and the mapping from a byte address to its cache set.

use vstd::prelude::*;
use vstd::arithmetic::power2::pow2;
use vstd::arithmetic::power2::lemma_pow2_unfold;
use vstd::arithmetic::power2::lemma_pow2_pos;
use vstd::arithmetic::power::lemma_pow_increases;

verus! {

/// A usable cache geometry: a nonzero set-selection width (a zero width is a
/// configuration error, never clamped), and widths small enough that one full
/// sweep of every set of one cache line each still fits in the address space.
pub open spec fn geometry_ok(cacheline_width: nat, cache_index_width: nat) -> bool {
    &&& cache_index_width >= 1
    &&& pow2(cacheline_width + cache_index_width) <= usize::MAX
}

/// The cache-line size, in bytes, for a given cache-line width.
pub open spec fn spec_cacheline_size(cacheline_width: nat) -> nat {
    pow2(cacheline_width)
}

/// The number of cache sets for a given set-selection width.
pub open spec fn spec_num_sets(cache_index_width: nat) -> nat {
    pow2(cache_index_width)
}

/// The cache set that the cache line at `addr` maps to: the low
/// `cache_index_width` bits of the cache-line number, the conventional
/// set-associative indexing scheme.
pub open spec fn set_of_addr(addr: int, cacheline_width: nat, cache_index_width: nat) -> int {
    (addr / spec_cacheline_size(cacheline_width) as int) % spec_num_sets(cache_index_width) as int
}

/// `2^e` never decreases as `e` grows.
pub proof fn lemma_pow2_increases(e1: nat, e2: nat)
    requires
        e1 <= e2,
    ensures
        pow2(e1) <= pow2(e2),
{
    vstd::arithmetic::power2::lemma_pow2(e1);
    vstd::arithmetic::power2::lemma_pow2(e2);
    lemma_pow_increases(2, e1, e2);
}

/// `2^e` as a `usize`, or `None` where it does not fit.
pub fn checked_pow2(e: usize) -> (r: Option<usize>)
    ensures
        match r {
            Some(v) => v == pow2(e as nat) && v >= 1,
            None => pow2(e as nat) > usize::MAX,
        },
{
    let mut r: usize = 1;
    let mut i: usize = 0;
    proof {
        vstd::arithmetic::power2::lemma2_to64();
    }
    while i < e
        invariant
            0 <= i <= e,
            r == pow2(i as nat),
            r >= 1,
        decreases e - i,
    {
        if r > usize::MAX / 2 {
            // 2^(i+1) already exceeds the address space, so 2^e does too.
            proof {
                vstd::arithmetic::div_mod::lemma_fundamental_div_mod(usize::MAX as int, 2);
                lemma_pow2_unfold((i + 1) as nat);
                lemma_pow2_increases((i + 1) as nat, e as nat);
            }
            return None;
        }
        proof {
            vstd::arithmetic::div_mod::lemma_fundamental_div_mod(usize::MAX as int, 2);
            lemma_pow2_unfold((i + 1) as nat);
        }
        r = r * 2;
        i = i + 1;
    }
    proof {
        lemma_pow2_pos(e as nat);
    }
    Some(r)
}

/// `2^e` as a `usize`, for exponents the geometry bound admits.
pub fn pow2_usize(e: usize) -> (r: usize)
    requires
        pow2(e as nat) <= usize::MAX,
    ensures
        r == pow2(e as nat),
        r >= 1,
{
    match checked_pow2(e) {
        Some(v) => v,
        None => {
            // Unreachable: the requires bounds 2^e by the address space.
            proof {
                assert(false);
            }
            1
        },
    }
}

} // verus!
