//! The cache-set-major traversal order: for each cache set in turn, every
//! cache line of every region that maps to that set, regions in the order
//! supplied and lines in address order. One pass over this order is one full
//! scrub cycle, and it visits every cache line of every region exactly once.

use vstd::prelude::*;
use vstd::seq_lib::lemma_multiset_commutative;
use crate::geometry::geometry_ok;
use crate::geometry::lemma_pow2_increases;
use crate::geometry::set_of_addr;
use crate::geometry::spec_cacheline_size;
use crate::geometry::spec_num_sets;
use crate::region::ScrubArea;
use crate::region::region_len;
use crate::region::region_lines;
use crate::region::region_valid;
use crate::region::regions_valid;

verus! {

/// Holds of the addresses that map to cache set `s`.
pub open spec fn in_set(cacheline_width: nat, cache_index_width: nat, s: int) -> spec_fn(
    int,
) -> bool {
    |a: int| set_of_addr(a, cacheline_width, cache_index_width) == s
}

/// The addresses of all cache lines of one region, in address order.
pub open spec fn region_line_addrs(r: ScrubArea, cacheline_width: nat) -> Seq<int> {
    Seq::new(
        region_lines(r, cacheline_width) as nat,
        |j: int| r.start + j * spec_cacheline_size(cacheline_width) as int,
    )
}

/// The lines of one region that map to cache set `s`, in address order.
pub open spec fn region_set_lines(
    r: ScrubArea,
    cacheline_width: nat,
    cache_index_width: nat,
    s: int,
) -> Seq<int> {
    region_line_addrs(r, cacheline_width).filter(in_set(cacheline_width, cache_index_width, s))
}

/// One sweep of cache set `s`: its lines from every region in turn.
pub open spec fn set_sweep(
    regions: Seq<ScrubArea>,
    cacheline_width: nat,
    cache_index_width: nat,
    s: int,
) -> Seq<int> {
    Seq::new(
        regions.len(),
        |i: int| region_set_lines(regions[i], cacheline_width, cache_index_width, s),
    ).flatten()
}

/// One full scrub cycle: the sweeps of all cache sets, set by set.
pub open spec fn traversal(
    regions: Seq<ScrubArea>,
    cacheline_width: nat,
    cache_index_width: nat,
) -> Seq<int> {
    Seq::new(
        spec_num_sets(cache_index_width),
        |s: int| set_sweep(regions, cacheline_width, cache_index_width, s),
    ).flatten()
}

/// All cache lines of all regions, region by region in address order: the
/// reference against which the cycle is measured.
pub open spec fn all_lines(regions: Seq<ScrubArea>, cacheline_width: nat) -> Seq<int> {
    Seq::new(regions.len(), |i: int| region_line_addrs(regions[i], cacheline_width)).flatten()
}

/// The number of cache lines across all regions.
pub open spec fn total_lines(regions: Seq<ScrubArea>, cacheline_width: nat) -> int
    decreases regions.len(),
{
    if regions.len() == 0 {
        0
    } else {
        total_lines(regions.drop_last(), cacheline_width) + region_lines(
            regions.last(),
            cacheline_width,
        )
    }
}

/// The number of bytes across all regions.
pub open spec fn total_bytes(regions: Seq<ScrubArea>) -> int
    decreases regions.len(),
{
    if regions.len() == 0 {
        0
    } else {
        total_bytes(regions.drop_last()) + region_len(regions.last())
    }
}

/// An executable address list agrees with a ghost one element by element.
pub open spec fn seq_matches(v: Seq<usize>, t: Seq<int>) -> bool {
    &&& v.len() == t.len()
    &&& forall|k: int| 0 <= k < v.len() ==> v[k] as int == t[k]
}

/// A valid region's byte length is exactly its line count times the
/// cache-line size, and it holds at least one line.
pub proof fn lemma_region_exact(r: ScrubArea, cacheline_width: nat)
    requires
        region_valid(r, cacheline_width),
    ensures
        region_len(r) == region_lines(r, cacheline_width) * spec_cacheline_size(
            cacheline_width,
        ) as int,
        region_lines(r, cacheline_width) >= 1,
{
    let cls = spec_cacheline_size(cacheline_width) as int;
    vstd::arithmetic::power2::lemma_pow2_pos(cacheline_width);
    vstd::arithmetic::div_mod::lemma_fundamental_div_mod(region_len(r), cls);
    assert(region_len(r) == cls * region_lines(r, cacheline_width));
    vstd::arithmetic::div_mod::lemma_div_is_ordered(cls, region_len(r), cls);
    assert(cls / cls == 1) by {
        vstd::arithmetic::div_mod::lemma_div_by_self(cls);
    }
    assert(region_lines(r, cacheline_width) * cls == cls * region_lines(r, cacheline_width))
        by (nonlinear_arith);
}

/// Every address a region's line list holds lies between the region's bounds,
/// on a cache-line boundary.
pub proof fn lemma_region_line_addrs_bounds(r: ScrubArea, cacheline_width: nat, j: int)
    requires
        region_valid(r, cacheline_width),
        0 <= j < region_lines(r, cacheline_width),
    ensures
        r.start <= region_line_addrs(r, cacheline_width)[j],
        region_line_addrs(r, cacheline_width)[j] + spec_cacheline_size(cacheline_width) as int - 1
            <= r.end,
{
    let cls = spec_cacheline_size(cacheline_width) as int;
    let q = region_lines(r, cacheline_width);
    vstd::arithmetic::power2::lemma_pow2_pos(cacheline_width);
    lemma_region_exact(r, cacheline_width);
    vstd::arithmetic::mul::lemma_mul_nonnegative(j, cls);
    assert((j + 1) * cls <= q * cls) by {
        vstd::arithmetic::mul::lemma_mul_inequality(j + 1, q, cls);
    }
    assert((j + 1) * cls == j * cls + cls) by (nonlinear_arith);
}

/// Flattening a sequence of empty sequences yields the empty sequence.
proof fn lemma_flatten_all_empty(q: Seq<Seq<int>>)
    requires
        forall|k: int| 0 <= k < q.len() ==> (#[trigger] q[k]).len() == 0,
    ensures
        q.flatten() == Seq::<int>::empty(),
    decreases q.len(),
{
    if q.len() > 0 {
        lemma_flatten_all_empty(q.drop_first());
        assert(q.first() =~= Seq::<int>::empty());
        assert(q.flatten() =~= Seq::<int>::empty());
    }
}

/// Flattening a grid whose rows each split into two parts gives, as a
/// multiset, the flattenings of the two parts taken together.
proof fn lemma_flatten_pointwise_add(x: Seq<Seq<int>>, y: Seq<Seq<int>>, z: Seq<Seq<int>>)
    requires
        x.len() == z.len(),
        y.len() == z.len(),
        forall|k: int| 0 <= k < z.len() ==> #[trigger] z[k] == x[k] + y[k],
    ensures
        z.flatten().to_multiset() == x.flatten().to_multiset().add(y.flatten().to_multiset()),
    decreases z.len(),
{
    broadcast use vstd::multiset::group_multiset_axioms;

    if z.len() == 0 {
        assert(z.flatten() =~= x.flatten() + y.flatten());
        lemma_multiset_commutative(x.flatten(), y.flatten());
    } else {
        assert forall|k: int| 0 <= k < z.drop_first().len() implies #[trigger] z.drop_first()[k]
            == x.drop_first()[k] + y.drop_first()[k] by {
            assert(z[k + 1] == x[k + 1] + y[k + 1]);
        }
        lemma_flatten_pointwise_add(x.drop_first(), y.drop_first(), z.drop_first());
        let xf = x.first().to_multiset();
        let yf = y.first().to_multiset();
        let xr = x.drop_first().flatten().to_multiset();
        let yr = y.drop_first().flatten().to_multiset();
        lemma_multiset_commutative(x.first(), y.first());
        lemma_multiset_commutative(z.first(), z.drop_first().flatten());
        lemma_multiset_commutative(x.first(), x.drop_first().flatten());
        lemma_multiset_commutative(y.first(), y.drop_first().flatten());
        assert(z.flatten() == z.first() + z.drop_first().flatten());
        assert(z.flatten().to_multiset() == xf.add(yf).add(xr.add(yr)));
        assert(xf.add(yf).add(xr.add(yr)) =~= xf.add(xr).add(yf.add(yr)));
        assert(x.flatten() == x.first() + x.drop_first().flatten());
        assert(y.flatten() == y.first() + y.drop_first().flatten());
    }
}

/// Flattening a grid with one singleton row and every other row empty gives
/// just that one element.
proof fn lemma_flatten_one_singleton(n: int, s0: int, e: int)
    requires
        0 <= s0 < n,
    ensures
        Seq::new(n as nat, |s: int| if s == s0 { seq![e] } else { Seq::<int>::empty() }).flatten()
            =~= seq![e],
    decreases n,
{
    let g = Seq::new(n as nat, |s: int| if s == s0 { seq![e] } else { Seq::<int>::empty() });
    if s0 == 0 {
        assert forall|k: int| 0 <= k < g.drop_first().len() implies (#[trigger] g.drop_first()[
            k
        ]).len() == 0 by {
            assert(g.drop_first()[k] == g[k + 1]);
        }
        lemma_flatten_all_empty(g.drop_first());
        assert(g.first() == seq![e]);
        assert(g.flatten() =~= seq![e]);
    } else {
        let g2 = Seq::new(
            (n - 1) as nat,
            |s: int| if s == s0 - 1 {
                seq![e]
            } else {
                Seq::<int>::empty()
            },
        );
        assert(g.drop_first() =~= g2);
        lemma_flatten_one_singleton(n - 1, s0 - 1, e);
        assert(g.first() =~= Seq::<int>::empty());
        assert(g.flatten() =~= g.drop_first().flatten());
    }
}

/// Splitting a list of nonnegative addresses into one filtered row per cache
/// set and flattening the rows back together is a permutation of the list.
proof fn lemma_partition_by_set(l: Seq<int>, cacheline_width: nat, cache_index_width: nat)
    requires
        forall|k: int| 0 <= k < l.len() ==> l[k] >= 0,
    ensures
        Seq::new(
            spec_num_sets(cache_index_width) as int as nat,
            |s: int| l.filter(in_set(cacheline_width, cache_index_width, s)),
        ).flatten().to_multiset() == l.to_multiset(),
    decreases l.len(),
{
    broadcast use vstd::multiset::group_multiset_axioms;

    let ns = spec_num_sets(cache_index_width) as int;
    let cls = spec_cacheline_size(cacheline_width) as int;
    vstd::arithmetic::power2::lemma_pow2_pos(cache_index_width);
    vstd::arithmetic::power2::lemma_pow2_pos(cacheline_width);
    let z = Seq::new(ns as nat, |s: int| l.filter(in_set(cacheline_width, cache_index_width, s)));
    if l.len() == 0 {
        assert forall|s: int| 0 <= s < ns implies (#[trigger] z[s]).len() == 0 by {
            l.lemma_filter_len(in_set(cacheline_width, cache_index_width, s));
        }
        lemma_flatten_all_empty(z);
        assert(l =~= Seq::<int>::empty());
        assert(l == z.flatten());
    } else {
        let l0 = l.drop_last();
        let e = l.last();
        let s0 = set_of_addr(e, cacheline_width, cache_index_width);
        assert(0 <= s0 < ns) by {
            vstd::arithmetic::div_mod::lemma_div_pos_is_pos(e, cls);
            vstd::arithmetic::div_mod::lemma_mod_bound(e / cls, ns);
        }
        let x = Seq::new(
            ns as nat,
            |s: int| l0.filter(in_set(cacheline_width, cache_index_width, s)),
        );
        let y = Seq::new(ns as nat, |s: int| if s == s0 { seq![e] } else { Seq::<int>::empty() });
        assert forall|s: int| 0 <= s < ns implies #[trigger] z[s] == x[s] + y[s] by {
            let pred = in_set(cacheline_width, cache_index_width, s);
            assert(l0.push(e) =~= l);
            l0.lemma_filter_push(e, pred);
            if s == s0 {
                assert(pred(e));
                assert(l0.filter(pred).push(e) =~= l0.filter(pred) + seq![e]);
            } else {
                assert(!pred(e));
                assert(l0.filter(pred) =~= l0.filter(pred) + Seq::<int>::empty());
            }
        }
        lemma_flatten_pointwise_add(x, y, z);
        lemma_partition_by_set(l0, cacheline_width, cache_index_width);
        lemma_flatten_one_singleton(ns, s0, e);
        lemma_multiset_commutative(l0, seq![e]);
        assert(l0 + seq![e] =~= l);
    }
}

/// Appending one region extends every set's sweep by that region's lines of
/// that set.
pub proof fn lemma_set_sweep_push(
    regions: Seq<ScrubArea>,
    r: ScrubArea,
    cacheline_width: nat,
    cache_index_width: nat,
    s: int,
)
    ensures
        set_sweep(regions.push(r), cacheline_width, cache_index_width, s) == set_sweep(
            regions,
            cacheline_width,
            cache_index_width,
            s,
        ) + region_set_lines(r, cacheline_width, cache_index_width, s),
{
    let g0 = Seq::new(
        regions.len(),
        |i: int| region_set_lines(regions[i], cacheline_width, cache_index_width, s),
    );
    let g1 = Seq::new(
        regions.push(r).len(),
        |i: int| region_set_lines(regions.push(r)[i], cacheline_width, cache_index_width, s),
    );
    assert(g1 =~= g0.push(region_set_lines(r, cacheline_width, cache_index_width, s)));
    g0.lemma_flatten_push(region_set_lines(r, cacheline_width, cache_index_width, s));
}

/// Appending one region extends the reference line list by that region's
/// lines.
proof fn lemma_all_lines_push(regions: Seq<ScrubArea>, r: ScrubArea, cacheline_width: nat)
    ensures
        all_lines(regions.push(r), cacheline_width) == all_lines(regions, cacheline_width)
            + region_line_addrs(r, cacheline_width),
{
    let g0 = Seq::new(regions.len(), |i: int| region_line_addrs(regions[i], cacheline_width));
    let g1 = Seq::new(
        regions.push(r).len(),
        |i: int| region_line_addrs(regions.push(r)[i], cacheline_width),
    );
    assert(g1 =~= g0.push(region_line_addrs(r, cacheline_width)));
    g0.lemma_flatten_push(region_line_addrs(r, cacheline_width));
}

/// One full cycle in set-major order visits, as a multiset, exactly the cache
/// lines of the regions: every line once, none besides.
pub proof fn lemma_cycle_is_permutation(
    regions: Seq<ScrubArea>,
    cacheline_width: nat,
    cache_index_width: nat,
)
    requires
        regions_valid(regions, cacheline_width),
    ensures
        traversal(regions, cacheline_width, cache_index_width).to_multiset() == all_lines(
            regions,
            cacheline_width,
        ).to_multiset(),
    decreases regions.len(),
{
    let ns = spec_num_sets(cache_index_width);
    if regions.len() == 0 {
        let g = Seq::new(ns, |s: int| set_sweep(regions, cacheline_width, cache_index_width, s));
        assert forall|k: int| 0 <= k < g.len() implies (#[trigger] g[k]).len() == 0 by {
            assert(Seq::new(
                regions.len(),
                |i: int| region_set_lines(regions[i], cacheline_width, cache_index_width, k),
            ).len() == 0);
        }
        lemma_flatten_all_empty(g);
        assert(all_lines(regions, cacheline_width) =~= Seq::<int>::empty());
        assert(traversal(regions, cacheline_width, cache_index_width) == all_lines(
            regions,
            cacheline_width,
        ));
    } else {
        broadcast use vstd::multiset::group_multiset_axioms;

        let r0 = regions.drop_last();
        let r = regions.last();
        assert(r0.push(r) =~= regions);
        assert(regions_valid(r0, cacheline_width)) by {
            assert(forall|i: int|
                0 <= i < r0.len() ==> #[trigger] r0[i] == regions[i] && region_valid(
                    regions[i],
                    cacheline_width,
                ));
        }
        assert(region_valid(r, cacheline_width));
        let l = region_line_addrs(r, cacheline_width);
        let x = Seq::new(ns, |s: int| set_sweep(r0, cacheline_width, cache_index_width, s));
        let y = Seq::new(ns, |s: int| l.filter(in_set(cacheline_width, cache_index_width, s)));
        let z = Seq::new(ns, |s: int| set_sweep(regions, cacheline_width, cache_index_width, s));
        assert forall|s: int| 0 <= s < ns implies #[trigger] z[s] == x[s] + y[s] by {
            lemma_set_sweep_push(r0, r, cacheline_width, cache_index_width, s);
            assert(set_sweep(r0.push(r), cacheline_width, cache_index_width, s) == set_sweep(
                regions,
                cacheline_width,
                cache_index_width,
                s,
            ));
        }
        lemma_flatten_pointwise_add(x, y, z);
        assert forall|k: int| 0 <= k < l.len() implies l[k] >= 0 by {
            vstd::arithmetic::mul::lemma_mul_nonnegative(
                k,
                spec_cacheline_size(cacheline_width) as int,
            );
        }
        lemma_partition_by_set(l, cacheline_width, cache_index_width);
        lemma_cycle_is_permutation(r0, cacheline_width, cache_index_width);
        lemma_all_lines_push(r0, r, cacheline_width);
        assert(all_lines(r0.push(r), cacheline_width) == all_lines(regions, cacheline_width));
        lemma_multiset_commutative(all_lines(r0, cacheline_width), l);
    }
}

/// The reference line list is as long as the regions' line counts say.
pub proof fn lemma_all_lines_len(regions: Seq<ScrubArea>, cacheline_width: nat)
    requires
        regions_valid(regions, cacheline_width),
    ensures
        all_lines(regions, cacheline_width).len() == total_lines(regions, cacheline_width),
        total_lines(regions, cacheline_width) >= regions.len(),
    decreases regions.len(),
{
    if regions.len() == 0 {
        assert(all_lines(regions, cacheline_width) =~= Seq::<int>::empty());
    } else {
        let r0 = regions.drop_last();
        let r = regions.last();
        assert(r0.push(r) =~= regions);
        assert(regions_valid(r0, cacheline_width)) by {
            assert(forall|i: int|
                0 <= i < r0.len() ==> #[trigger] r0[i] == regions[i] && region_valid(
                    regions[i],
                    cacheline_width,
                ));
        }
        lemma_all_lines_len(r0, cacheline_width);
        lemma_all_lines_push(r0, r, cacheline_width);
        lemma_region_exact(r, cacheline_width);
        assert(total_lines(regions, cacheline_width) == total_lines(r0, cacheline_width)
            + region_lines(r, cacheline_width));
    }
}

/// One full cycle is exactly as long as the regions' line counts say.
pub proof fn lemma_traversal_len(
    regions: Seq<ScrubArea>,
    cacheline_width: nat,
    cache_index_width: nat,
)
    requires
        regions_valid(regions, cacheline_width),
    ensures
        traversal(regions, cacheline_width, cache_index_width).len() == total_lines(
            regions,
            cacheline_width,
        ),
        total_lines(regions, cacheline_width) >= regions.len(),
{
    lemma_cycle_is_permutation(regions, cacheline_width, cache_index_width);
    lemma_all_lines_len(regions, cacheline_width);
    traversal(regions, cacheline_width, cache_index_width).to_multiset_ensures();
    all_lines(regions, cacheline_width).to_multiset_ensures();
}

/// The regions' byte total is their line total times the cache-line size.
pub proof fn lemma_total_bytes_lines(regions: Seq<ScrubArea>, cacheline_width: nat)
    requires
        regions_valid(regions, cacheline_width),
    ensures
        total_bytes(regions) == total_lines(regions, cacheline_width) * spec_cacheline_size(
            cacheline_width,
        ) as int,
        total_lines(regions, cacheline_width) >= 0,
    decreases regions.len(),
{
    let cls = spec_cacheline_size(cacheline_width) as int;
    if regions.len() == 0 {
        assert(0 * cls == 0) by (nonlinear_arith);
    } else {
        let r0 = regions.drop_last();
        let r = regions.last();
        assert(regions_valid(r0, cacheline_width)) by {
            assert(forall|i: int|
                0 <= i < r0.len() ==> #[trigger] r0[i] == regions[i] && region_valid(
                    regions[i],
                    cacheline_width,
                ));
        }
        lemma_total_bytes_lines(r0, cacheline_width);
        lemma_region_exact(r, cacheline_width);
        let a = total_lines(r0, cacheline_width);
        let b = region_lines(r, cacheline_width);
        assert((a + b) * cls == a * cls + b * cls) by (nonlinear_arith);
    }
}

/// A set of valid regions never has a negative byte total.
pub proof fn lemma_total_bytes_nonneg(regions: Seq<ScrubArea>, cacheline_width: nat)
    requires
        regions_valid(regions, cacheline_width),
    ensures
        total_bytes(regions) >= 0,
    decreases regions.len(),
{
    if regions.len() > 0 {
        let r0 = regions.drop_last();
        assert(regions_valid(r0, cacheline_width)) by {
            assert(forall|i: int|
                0 <= i < r0.len() ==> #[trigger] r0[i] == regions[i] && region_valid(
                    regions[i],
                    cacheline_width,
                ));
        }
        lemma_total_bytes_nonneg(r0, cacheline_width);
        assert(region_valid(regions.last(), cacheline_width));
    }
}

/// No single valid region is longer than the byte total of the whole set.
pub proof fn lemma_total_bytes_bound(regions: Seq<ScrubArea>, cacheline_width: nat, i: int)
    requires
        regions_valid(regions, cacheline_width),
        0 <= i < regions.len(),
    ensures
        region_len(regions[i]) <= total_bytes(regions),
    decreases regions.len(),
{
    let r0 = regions.drop_last();
    assert(regions_valid(r0, cacheline_width)) by {
        assert(forall|k: int|
            0 <= k < r0.len() ==> #[trigger] r0[k] == regions[k] && region_valid(
                regions[k],
                cacheline_width,
            ));
    }
    if i == regions.len() - 1 {
        lemma_total_bytes_nonneg(r0, cacheline_width);
    } else {
        lemma_total_bytes_bound(r0, cacheline_width, i);
        assert(region_valid(regions.last(), cacheline_width));
    }
}

/// The part of the cycle that the schedule builder has emitted after
/// finishing `s` whole sets and, within set `s`, the first `i` regions.
pub open spec fn built_prefix(
    regions: Seq<ScrubArea>,
    cacheline_width: nat,
    cache_index_width: nat,
    s: int,
    i: int,
) -> Seq<int> {
    Seq::new(s as nat, |t: int| set_sweep(regions, cacheline_width, cache_index_width, t)).flatten()
        + Seq::new(
        i as nat,
        |i2: int| region_set_lines(regions[i2], cacheline_width, cache_index_width, s),
    ).flatten()
}

/// The number of whole cache lines one valid region holds.
pub fn size_in_cachelines(r: &ScrubArea, cacheline_width: usize, cacheline_size: usize) -> (n:
    usize)
    requires
        cacheline_size == spec_cacheline_size(cacheline_width as nat),
        region_valid(*r, cacheline_width as nat),
        region_len(*r) <= usize::MAX,
    ensures
        n as int == region_lines(*r, cacheline_width as nat),
        n >= 1,
{
    let ghost clw = cacheline_width as nat;
    proof {
        vstd::arithmetic::power2::lemma_pow2_pos(clw);
    }
    let len_m1 = r.end - r.start;
    let lines_m1 = len_m1 / cacheline_size;
    proof {
        lemma_region_exact(*r, clw);
        let cls = spec_cacheline_size(clw) as int;
        let q = region_lines(*r, clw);
        assert(q * cls - 1 == (q - 1) * cls + (cls - 1)) by (nonlinear_arith);
        vstd::arithmetic::div_mod::lemma_fundamental_div_mod_converse(
            len_m1 as int,
            cls,
            q - 1,
            cls - 1,
        );
        assert(q <= q * cls) by (nonlinear_arith)
            requires
                cls >= 1,
                q >= 1,
        ;
    }
    lines_m1 + 1
}

/// Builds the scrub schedule: the addresses of one full cycle, in set-major
/// order, as a list the engine can walk with a plain index cursor.
pub fn build_schedule(regions: &Vec<ScrubArea>, cacheline_width: usize, cache_index_width: usize)
    -> (v: Vec<usize>)
    requires
        geometry_ok(cacheline_width as nat, cache_index_width as nat),
        regions_valid(regions@, cacheline_width as nat),
        total_bytes(regions@) <= usize::MAX,
    ensures
        seq_matches(v@, traversal(regions@, cacheline_width as nat, cache_index_width as nat)),
{
    let ghost clw = cacheline_width as nat;
    let ghost ciw = cache_index_width as nat;
    proof {
        lemma_pow2_increases(clw, clw + ciw);
        lemma_pow2_increases(ciw, clw + ciw);
    }
    let cls = crate::geometry::pow2_usize(cacheline_width);
    let num_sets = crate::geometry::pow2_usize(cache_index_width);
    let mut v: Vec<usize> = Vec::new();
    let mut s: usize = 0;
    proof {
        assert(built_prefix(regions@, clw, ciw, 0, 0) =~= Seq::<int>::empty());
    }
    while s < num_sets
        invariant
            0 <= s <= num_sets,
            num_sets == spec_num_sets(ciw),
            cls == spec_cacheline_size(clw),
            cls >= 1,
            num_sets >= 1,
            clw == cacheline_width as nat,
            ciw == cache_index_width as nat,
            geometry_ok(clw, ciw),
            regions_valid(regions@, clw),
            total_bytes(regions@) <= usize::MAX,
            seq_matches(v@, built_prefix(regions@, clw, ciw, s as int, 0)),
        decreases num_sets - s,
    {
        let mut i: usize = 0;
        while i < regions.len()
            invariant
                0 <= i <= regions@.len(),
                0 <= s < num_sets,
                num_sets == spec_num_sets(ciw),
                cls == spec_cacheline_size(clw),
                cls >= 1,
                num_sets >= 1,
                clw == cacheline_width as nat,
                ciw == cache_index_width as nat,
                geometry_ok(clw, ciw),
                regions_valid(regions@, clw),
                total_bytes(regions@) <= usize::MAX,
                seq_matches(v@, built_prefix(regions@, clw, ciw, s as int, i as int)),
            decreases regions@.len() - i,
        {
            let r = regions[i];
            let len_m1 = r.end - r.start;
            let lines_m1 = len_m1 / cls;
            proof {
                lemma_region_exact(regions@[i as int], clw);
                let q = region_lines(regions@[i as int], clw);
                assert(q * cls - 1 == (q - 1) * cls + (cls - 1)) by (nonlinear_arith);
                vstd::arithmetic::div_mod::lemma_fundamental_div_mod_converse(
                    len_m1 as int,
                    cls as int,
                    q - 1,
                    cls - 1,
                );
                assert(q <= q * cls) by (nonlinear_arith)
                    requires
                        cls >= 1,
                        q >= 1,
                ;
                lemma_total_bytes_bound(regions@, clw, i as int);
            }
            let lines = lines_m1 + 1;
            let ghost base = built_prefix(regions@, clw, ciw, s as int, i as int);
            let ghost la = region_line_addrs(regions@[i as int], clw);
            let ghost pred = in_set(clw, ciw, s as int);
            proof {
                assert(la.take(0) =~= Seq::<int>::empty());
                assert(la.take(0).filter(pred) =~= Seq::<int>::empty()) by {
                    la.take(0).lemma_filter_len(pred);
                }
                assert(base + la.take(0).filter(pred) =~= base);
            }
            let mut j: usize = 0;
            while j < lines
                invariant
                    0 <= j <= lines,
                    0 <= i < regions@.len(),
                    0 <= s < num_sets,
                    num_sets == spec_num_sets(ciw),
                    cls == spec_cacheline_size(clw),
                    cls >= 1,
                    num_sets >= 1,
                    clw == cacheline_width as nat,
                    ciw == cache_index_width as nat,
                    geometry_ok(clw, ciw),
                    regions_valid(regions@, clw),
                    total_bytes(regions@) <= usize::MAX,
                    r == regions@[i as int],
                    lines as int == region_lines(regions@[i as int], clw),
                    base == built_prefix(regions@, clw, ciw, s as int, i as int),
                    la == region_line_addrs(regions@[i as int], clw),
                    pred == in_set(clw, ciw, s as int),
                    seq_matches(v@, base + la.take(j as int).filter(pred)),
                decreases lines - j,
            {
                proof {
                    lemma_region_line_addrs_bounds(regions@[i as int], clw, j as int);
                }
                let addr = r.start + j * cls;
                let set_idx = (addr / cls) % num_sets;
                proof {
                    assert(la[j as int] == addr as int);
                    assert(set_idx as int == set_of_addr(addr as int, clw, ciw));
                    assert(la.take(j as int + 1) =~= la.take(j as int).push(addr as int));
                    la.take(j as int).lemma_filter_push(addr as int, pred);
                }
                if set_idx == s {
                    v.push(addr);
                    proof {
                        assert(pred(addr as int));
                        let t0 = base + la.take(j as int).filter(pred);
                        let t1 = base + la.take(j as int + 1).filter(pred);
                        assert(t1 =~= t0.push(addr as int));
                        assert(seq_matches(v@, t1));
                    }
                } else {
                    proof {
                        assert(!pred(addr as int));
                        assert(la.take(j as int + 1).filter(pred) == la.take(j as int).filter(
                            pred,
                        ));
                    }
                }
                j = j + 1;
            }
            proof {
                assert(la.take(lines as int) =~= la);
                let rsl = region_set_lines(regions@[i as int], clw, ciw, s as int);
                assert(la.filter(pred) == rsl);
                let g_i = Seq::new(
                    i as nat,
                    |i2: int| region_set_lines(regions@[i2], clw, ciw, s as int),
                );
                let g_i1 = Seq::new(
                    (i + 1) as nat,
                    |i2: int| region_set_lines(regions@[i2], clw, ciw, s as int),
                );
                assert(g_i1 =~= g_i.push(rsl));
                g_i.lemma_flatten_push(rsl);
                let sweeps = Seq::new(s as nat, |t: int| set_sweep(regions@, clw, ciw, t));
                assert(sweeps.flatten() + g_i1.flatten() =~= (sweeps.flatten() + g_i.flatten())
                    + rsl);
                assert(built_prefix(regions@, clw, ciw, s as int, i as int + 1) == base + rsl);
            }
            i = i + 1;
        }
        proof {
            let g_full = Seq::new(
                regions@.len(),
                |i2: int| region_set_lines(regions@[i2], clw, ciw, s as int),
            );
            assert(g_full.flatten() == set_sweep(regions@, clw, ciw, s as int));
            let sweeps = Seq::new(s as nat, |t: int| set_sweep(regions@, clw, ciw, t));
            let sweeps1 = Seq::new((s + 1) as nat, |t: int| set_sweep(regions@, clw, ciw, t));
            assert(sweeps1 =~= sweeps.push(set_sweep(regions@, clw, ciw, s as int)));
            sweeps.lemma_flatten_push(set_sweep(regions@, clw, ciw, s as int));
            let g0 = Seq::new(
                0,
                |i2: int| region_set_lines(regions@[i2], clw, ciw, s as int + 1),
            );
            assert(g0.flatten() =~= Seq::<int>::empty());
            assert(built_prefix(regions@, clw, ciw, s as int + 1, 0) =~= sweeps.flatten()
                + g_full.flatten());
        }
        s = s + 1;
    }
    proof {
        let sweeps = Seq::new(
            spec_num_sets(ciw),
            |t: int| set_sweep(regions@, clw, ciw, t),
        );
        let g0 = Seq::new(0, |i2: int| region_set_lines(regions@[i2], clw, ciw, num_sets as int));
        assert(g0.flatten() =~= Seq::<int>::empty());
        assert(built_prefix(regions@, clw, ciw, num_sets as int, 0) =~= sweeps.flatten());
    }
    v
}

} // verus!
