use memscrub::ConstructionError;
use memscrub::FaultyCacheDesc;
use memscrub::MemoryScrubber;
use memscrub::MyCacheDesc;
use memscrub::ScrubArea;

fn area(start: usize, end: usize) -> ScrubArea {
    ScrubArea { start, end }
}

fn new_scrubber(
    cache_index_width: usize,
    cacheline_width: usize,
    regions: Vec<ScrubArea>,
) -> Result<MemoryScrubber<MyCacheDesc>, ConstructionError> {
    let desc = MyCacheDesc::new(cache_index_width);
    let w = desc.cache_index_width();
    MemoryScrubber::new(desc, cacheline_width, w, regions)
}

#[test]
fn example_sixteen_lines_four_sets() {
    // Four sets, 64-byte lines, one region of 1024 bytes: sixteen lines.
    let mut e = new_scrubber(2, 6, vec![area(0, 1023)]).unwrap();
    assert_eq!(e.total_cachelines(), 16);
    assert_eq!(e.cacheline_size(), 64);
    // One full cycle through repeated single-line calls.
    for _ in 0..16 {
        assert_eq!(e.scrub(64).unwrap(), 64);
    }
    assert_eq!(e.desc.visits.len(), 16);
    // Exactly four lines went to each of the four sets.
    let mut per_set = [0usize; 4];
    for &a in e.desc.visits.iter() {
        per_set[(a / 64) % 4] += 1;
    }
    assert_eq!(per_set, [4, 4, 4, 4]);
    // The cursor wrapped: the next call starts the next cycle.
    assert_eq!(e.cursor, 0);
}

#[test]
fn sets_are_swept_fairly_across_regions() {
    // Two regions of sixteen lines over four sets: eight lines per set.
    let mut e = new_scrubber(2, 6, vec![area(0, 1023), area(2048, 3071)]).unwrap();
    let bytes = e.cycle_bytes();
    assert_eq!(e.scrub(bytes).unwrap(), bytes);
    let mut per_set = [0usize; 4];
    for &a in e.desc.visits.iter() {
        per_set[(a / 64) % 4] += 1;
    }
    assert_eq!(per_set, [8, 8, 8, 8]);
    // Within the cycle the set indices never decrease: set-major order.
    let sets: Vec<usize> = e.desc.visits.iter().map(|&a| (a / 64) % 4).collect();
    for w in sets.windows(2) {
        assert!(w[0] <= w[1]);
    }
}

#[test]
fn full_cycle_visits_every_line_once() {
    let mut e = new_scrubber(2, 6, vec![area(0, 1023), area(4096, 4351)]).unwrap();
    let total = e.total_cachelines();
    assert_eq!(total, 16 + 4);
    let bytes = e.cycle_bytes();
    assert_eq!(bytes, total * 64);
    assert_eq!(e.scrub(bytes).unwrap(), bytes);
    // The multiset of visited addresses is the multiset of all line starts.
    let mut visited = e.desc.visits.clone();
    visited.sort();
    let mut expected: Vec<usize> = (0..16).map(|i| i * 64).collect();
    expected.extend((0..4).map(|i| 4096 + i * 64));
    expected.sort();
    assert_eq!(visited, expected);
}

#[test]
fn set_major_order_across_regions() {
    // Two sets, 64-byte lines. Region one holds lines 0 and 64 (sets 0, 1);
    // region two holds lines 256 and 320 (sets 0, 1). Set-major order visits
    // set 0 across both regions before set 1.
    let mut e = new_scrubber(1, 6, vec![area(0, 127), area(256, 383)]).unwrap();
    let bytes = e.cycle_bytes();
    assert_eq!(e.scrub(bytes).unwrap(), bytes);
    assert_eq!(e.desc.visits, vec![0, 256, 64, 320]);
}

#[test]
fn scrub_resumes_across_calls() {
    let mut split = new_scrubber(2, 6, vec![area(0, 1023)]).unwrap();
    assert_eq!(split.scrub(5 * 64).unwrap(), 5 * 64);
    assert_eq!(split.scrub(11 * 64).unwrap(), 11 * 64);
    let mut whole = new_scrubber(2, 6, vec![area(0, 1023)]).unwrap();
    assert_eq!(whole.scrub(16 * 64).unwrap(), 16 * 64);
    assert_eq!(split.desc.visits, whole.desc.visits);
}

#[test]
fn construction_is_deterministic() {
    let mut a = new_scrubber(2, 6, vec![area(512, 1535), area(0, 255)]).unwrap();
    let mut b = new_scrubber(2, 6, vec![area(512, 1535), area(0, 255)]).unwrap();
    let bytes = a.cycle_bytes();
    assert_eq!(a.scrub(bytes).unwrap(), b.scrub(bytes).unwrap());
    assert_eq!(a.desc.visits, b.desc.visits);
    assert_eq!(a.cursor, b.cursor);
}

#[test]
fn single_line_region_wraps() {
    let mut e = new_scrubber(1, 6, vec![area(128, 191)]).unwrap();
    assert_eq!(e.total_cachelines(), 1);
    assert_eq!(e.scrub(64).unwrap(), 64);
    assert_eq!(e.cursor, 0);
    assert_eq!(e.scrub(64).unwrap(), 64);
    assert_eq!(e.desc.visits, vec![128, 128]);
}

#[test]
fn scrub_zero_is_a_no_op() {
    let mut e = new_scrubber(2, 6, vec![area(0, 1023)]).unwrap();
    assert_eq!(e.scrub(0).unwrap(), 0);
    assert_eq!(e.desc.visits.len(), 0);
    assert_eq!(e.cursor, 0);
}

#[test]
fn scrub_returns_less_when_cycle_ends() {
    let mut e = new_scrubber(2, 6, vec![area(0, 1023)]).unwrap();
    // Ask for more than one cycle: the call stops at the wrap.
    assert_eq!(e.scrub(100 * 64).unwrap(), 16 * 64);
    assert_eq!(e.cursor, 0);
}

#[test]
fn partial_bytes_round_down_to_lines() {
    let mut e = new_scrubber(2, 6, vec![area(0, 1023)]).unwrap();
    assert_eq!(e.scrub(63).unwrap(), 0);
    assert_eq!(e.scrub(130).unwrap(), 128);
    assert_eq!(e.desc.visits.len(), 2);
}

#[test]
fn inverted_region_is_invalid() {
    let r = new_scrubber(2, 6, vec![area(1024, 512)]);
    assert_eq!(r.err().unwrap(), ConstructionError::InvalidRegion);
}

#[test]
fn short_region_is_too_small() {
    let r = new_scrubber(2, 6, vec![area(0, 31)]);
    assert_eq!(r.err().unwrap(), ConstructionError::RegionTooSmall);
}

#[test]
fn misaligned_region_is_rejected() {
    // Long enough, but starting off a line boundary.
    let r = new_scrubber(2, 6, vec![area(32, 287)]);
    assert_eq!(r.err().unwrap(), ConstructionError::Misaligned);
    // Aligned start, ragged length.
    let r2 = new_scrubber(2, 6, vec![area(0, 95)]);
    assert_eq!(r2.err().unwrap(), ConstructionError::Misaligned);
}

#[test]
fn empty_region_set_is_rejected() {
    let r = new_scrubber(2, 6, Vec::new());
    assert_eq!(r.err().unwrap(), ConstructionError::EmptyRegionSet);
}

#[test]
fn zero_index_width_is_rejected() {
    let desc = MyCacheDesc::new(0);
    let r = MemoryScrubber::new(desc, 6, 0, vec![area(0, 1023)]);
    assert_eq!(r.err().unwrap(), ConstructionError::InvalidCacheGeometry);
}

#[test]
fn oversized_widths_are_rejected() {
    let desc = MyCacheDesc::new(usize::BITS as usize);
    let r = MemoryScrubber::new(desc, usize::BITS as usize, usize::BITS as usize, vec![area(
        0, 1023,
    )]);
    assert_eq!(r.err().unwrap(), ConstructionError::InvalidCacheGeometry);
}

#[test]
fn first_offending_region_decides() {
    // The first region is fine; the second is inverted; the third is short.
    let r = new_scrubber(2, 6, vec![area(0, 255), area(96, 64), area(0, 31)]);
    assert_eq!(r.err().unwrap(), ConstructionError::InvalidRegion);
}

#[test]
fn fault_is_propagated_and_scrub_resumes() {
    // Two sets over lines 0, 64, 128, 192: set-major order 0, 128, 64, 192.
    let desc = FaultyCacheDesc::new(128);
    let mut e = MemoryScrubber::new(desc, 6, 1, vec![area(0, 255)]).unwrap();
    let bytes = e.cycle_bytes();
    let err = e.scrub(bytes).unwrap_err();
    assert_eq!(err.addr, 128);
    assert_eq!(e.desc.visits, vec![0]);
    // The cursor stayed on the faulting line; once the fault clears, the
    // same call finishes the cycle.
    e.desc.poisoned = usize::MAX;
    assert_eq!(e.scrub(bytes).unwrap(), 3 * 64);
    assert_eq!(e.desc.visits, vec![0, 128, 64, 192]);
    assert_eq!(e.cursor, 0);
}

#[test]
fn sets_without_lines_are_skipped() {
    // Sixteen sets but only two lines: the empty sets add nothing.
    let mut e = new_scrubber(4, 6, vec![area(0, 127)]).unwrap();
    assert_eq!(e.total_cachelines(), 2);
    let bytes = e.cycle_bytes();
    assert_eq!(e.scrub(bytes).unwrap(), bytes);
    assert_eq!(e.desc.visits, vec![0, 64]);
}
