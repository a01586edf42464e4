//! Scrub regions: inclusive address ranges, and their validation against a
//! cache geometry.

use vstd::prelude::*;
use crate::errors::ConstructionError;
use crate::geometry::spec_cacheline_size;

verus! {

/// One contiguous block of memory to be scrubbed: an ordered, inclusive byte
/// address range. The caller owns the underlying memory; a `ScrubArea` only
/// carries address values, never the memory itself.
#[derive(Clone, Copy, Debug, PartialEq, Eq, Structural)]
pub struct ScrubArea {
    pub start: usize,
    pub end: usize,
}

/// The length of a region in bytes (`end` is inclusive).
pub open spec fn region_len(r: ScrubArea) -> int {
    r.end - r.start + 1
}

/// The number of whole cache lines a region holds.
pub open spec fn region_lines(r: ScrubArea, cacheline_width: nat) -> int {
    region_len(r) / spec_cacheline_size(cacheline_width) as int
}

/// A region the engine accepts: ordered bounds, start and length aligned to
/// the cache-line size, and at least one whole cache line long.
pub open spec fn region_valid(r: ScrubArea, cacheline_width: nat) -> bool {
    let cls = spec_cacheline_size(cacheline_width) as int;
    &&& r.start <= r.end
    &&& r.start as int % cls == 0
    &&& region_len(r) % cls == 0
    &&& region_len(r) >= cls
}

/// Every region of a set is valid.
pub open spec fn regions_valid(regions: Seq<ScrubArea>, cacheline_width: nat) -> bool {
    forall|i: int| 0 <= i < regions.len() ==> region_valid(#[trigger] regions[i], cacheline_width)
}

/// The error the validation of one region reports, if any. The checks are
/// ordered: inverted bounds first, then a length below one cache line, then
/// misalignment of the start or of the length.
pub open spec fn spec_region_error(r: ScrubArea, cacheline_width: nat) -> Option<
    ConstructionError,
> {
    let cls = spec_cacheline_size(cacheline_width) as int;
    if r.end < r.start {
        Some(ConstructionError::InvalidRegion)
    } else if region_len(r) < cls {
        Some(ConstructionError::RegionTooSmall)
    } else if r.start as int % cls != 0 || region_len(r) % cls != 0 {
        Some(ConstructionError::Misaligned)
    } else {
        None
    }
}

/// The error the validation of a whole region set reports, if any: the first
/// offending region, in the order supplied, decides.
pub open spec fn spec_regions_error(regions: Seq<ScrubArea>, cacheline_width: nat) -> Option<
    ConstructionError,
>
    decreases regions.len(),
{
    if regions.len() == 0 {
        None
    } else if spec_region_error(regions.first(), cacheline_width) is Some {
        spec_region_error(regions.first(), cacheline_width)
    } else {
        spec_regions_error(regions.drop_first(), cacheline_width)
    }
}

/// A region set whose validation reports nothing is valid region by region,
/// and the other way round.
pub proof fn lemma_regions_error_none(regions: Seq<ScrubArea>, cacheline_width: nat)
    ensures
        spec_regions_error(regions, cacheline_width) is None <==> regions_valid(
            regions,
            cacheline_width,
        ),
    decreases regions.len(),
{
    if regions.len() > 0 {
        lemma_regions_error_none(regions.drop_first(), cacheline_width);
        assert(spec_region_error(regions.first(), cacheline_width) is None <==> region_valid(
            regions.first(),
            cacheline_width,
        ));
        if regions_valid(regions, cacheline_width) {
            assert forall|i: int|
                0 <= i < regions.drop_first().len() implies region_valid(
                #[trigger] regions.drop_first()[i],
                cacheline_width,
            ) by {
                assert(regions.drop_first()[i] == regions[i + 1]);
            }
        }
        if spec_regions_error(regions, cacheline_width) is None {
            assert forall|i: int| 0 <= i < regions.len() implies region_valid(
                #[trigger] regions[i],
                cacheline_width,
            ) by {
                if i > 0 {
                    assert(regions[i] == regions.drop_first()[i - 1]);
                }
            }
        }
    }
}

/// Skipping a prefix of regions that all validate leaves the reported error
/// unchanged.
pub proof fn lemma_regions_error_skip(regions: Seq<ScrubArea>, cacheline_width: nat, i: int)
    requires
        0 <= i <= regions.len(),
        forall|j: int|
            0 <= j < i ==> spec_region_error(#[trigger] regions[j], cacheline_width) is None,
    ensures
        spec_regions_error(regions, cacheline_width) == spec_regions_error(
            regions.skip(i),
            cacheline_width,
        ),
    decreases i,
{
    if i == 0 {
        assert(regions.skip(0) =~= regions);
    } else {
        lemma_regions_error_skip(regions, cacheline_width, i - 1);
        let tail = regions.skip(i - 1);
        assert(tail.first() == regions[i - 1]);
        assert(tail.drop_first() =~= regions.skip(i));
        assert(spec_regions_error(tail, cacheline_width) == spec_regions_error(
            tail.drop_first(),
            cacheline_width,
        ));
    }
}

/// Validates one region against the cache-line size, reporting exactly the
/// error `spec_region_error` names.
pub fn check_region(r: &ScrubArea, cacheline_width: usize, cacheline_size: usize) -> (res: Result<
    (),
    ConstructionError,
>)
    requires
        cacheline_size == spec_cacheline_size(cacheline_width as nat),
        cacheline_size >= 1,
    ensures
        match res {
            Ok(()) => spec_region_error(*r, cacheline_width as nat) is None,
            Err(e) => spec_region_error(*r, cacheline_width as nat) == Some(e),
        },
{
    if r.end < r.start {
        return Err(ConstructionError::InvalidRegion);
    }
    // Work with `end - start` so that a region reaching the top of the
    // address space does not overflow the byte length.
    let len_m1 = r.end - r.start;
    if len_m1 < cacheline_size - 1 {
        return Err(ConstructionError::RegionTooSmall);
    }
    if r.start % cacheline_size != 0 || len_m1 % cacheline_size != cacheline_size - 1 {
        proof {
            lemma_len_mod(len_m1 as int, cacheline_size as int);
        }
        return Err(ConstructionError::Misaligned);
    }
    proof {
        lemma_len_mod(len_m1 as int, cacheline_size as int);
    }
    Ok(())
}

/// `a + 1` is a multiple of `c` exactly when `a` leaves remainder `c - 1`.
proof fn lemma_len_mod(a: int, c: int)
    requires
        a >= 0,
        c >= 1,
    ensures
        (a + 1) % c == 0 <==> a % c == c - 1,
{
    vstd::arithmetic::div_mod::lemma_fundamental_div_mod(a, c);
    vstd::arithmetic::div_mod::lemma_mod_bound(a, c);
    if a % c == c - 1 {
        assert(a + 1 == c * (a / c) + c);
        assert((a / c + 1) * c == c * (a / c) + c) by (nonlinear_arith);
        assert((a + 1) % c == 0) by {
            vstd::arithmetic::div_mod::lemma_fundamental_div_mod_converse(
                a + 1,
                c,
                a / c + 1,
                0,
            );
        }
    }
    if (a + 1) % c == 0 {
        vstd::arithmetic::div_mod::lemma_fundamental_div_mod(a + 1, c);
        let q = (a + 1) / c;
        assert(a + 1 == c * q);
        assert(q >= 1) by (nonlinear_arith)
            requires
                c * q == a + 1,
                a >= 0,
                c >= 1,
        ;
        assert((q - 1) * c == c * q - c) by (nonlinear_arith);
        assert(a == (q - 1) * c + (c - 1));
        vstd::arithmetic::div_mod::lemma_fundamental_div_mod_converse(a, c, q - 1, c - 1);
    }
}

/// Validates a whole region set, reporting exactly the error
/// `spec_regions_error` names: the first offending region decides.
pub fn validate_regions(regions: &Vec<ScrubArea>, cacheline_width: usize, cacheline_size: usize)
    -> (res: Result<(), ConstructionError>)
    requires
        cacheline_size == spec_cacheline_size(cacheline_width as nat),
        cacheline_size >= 1,
    ensures
        match res {
            Ok(()) => regions_valid(regions@, cacheline_width as nat) && spec_regions_error(
                regions@,
                cacheline_width as nat,
            ) is None,
            Err(e) => spec_regions_error(regions@, cacheline_width as nat) == Some(e),
        },
{
    let mut i: usize = 0;
    while i < regions.len()
        invariant
            0 <= i <= regions@.len(),
            cacheline_size == spec_cacheline_size(cacheline_width as nat),
            cacheline_size >= 1,
            forall|j: int|
                0 <= j < i ==> spec_region_error(
                    #[trigger] regions@[j],
                    cacheline_width as nat,
                ) is None,
        decreases regions@.len() - i,
    {
        let r = regions[i];
        match check_region(&r, cacheline_width, cacheline_size) {
            Ok(()) => {},
            Err(e) => {
                proof {
                    lemma_regions_error_skip(regions@, cacheline_width as nat, i as int);
                    assert(regions@.skip(i as int).first() == regions@[i as int]);
                }
                return Err(e);
            },
        }
        i = i + 1;
    }
    proof {
        lemma_regions_error_skip(regions@, cacheline_width as nat, regions@.len() as int);
        assert(regions@.skip(regions@.len() as int) =~= Seq::<ScrubArea>::empty());
        lemma_regions_error_none(regions@, cacheline_width as nat);
    }
    Ok(())
}

} // verus!
