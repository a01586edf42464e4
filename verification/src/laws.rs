//! Laws of the scrub engine, proved once and for all: determinism of
//! construction, and resumability of incremental scrubbing. The permutation
//! law of one full cycle lives beside the traversal definition.

use vstd::prelude::*;
use crate::engine::CachelineReader;
use crate::engine::MemoryScrubber;
use crate::geometry::set_of_addr;
use crate::geometry::spec_cacheline_size;
use crate::geometry::spec_num_sets;
use crate::region::ScrubArea;
use crate::region::region_lines;
use crate::region::region_valid;
use crate::region::regions_valid;
use crate::traversal::all_lines;
use crate::traversal::in_set;
use crate::traversal::lemma_cycle_is_permutation;
use crate::traversal::lemma_region_exact;
use crate::traversal::lemma_set_sweep_push;
use crate::traversal::total_bytes;
use crate::traversal::region_line_addrs;
use crate::traversal::region_set_lines;
use crate::traversal::seq_matches;
use crate::traversal::set_sweep;
use crate::traversal::total_lines;

verus! {

/// Construction is deterministic: two well-formed engines built over the same
/// geometry and the same regions carry the same cycle, line for line, so
/// cursors driven identically visit the same addresses in the same order.
pub proof fn lemma_construction_deterministic<T1: CachelineReader, T2: CachelineReader>(
    e1: MemoryScrubber<T1>,
    e2: MemoryScrubber<T2>,
)
    requires
        e1.wf(),
        e2.wf(),
        e1.cacheline_width == e2.cacheline_width,
        e1.cache_index_width == e2.cache_index_width,
        e1.regions@ == e2.regions@,
    ensures
        e1.trav() == e2.trav(),
        e1.schedule@ == e2.schedule@,
{
    assert(e1.schedule@ =~= e2.schedule@) by {
        assert(seq_matches(e1.schedule@, e1.trav()));
        assert(seq_matches(e2.schedule@, e2.trav()));
    }
}

/// Scrubbing is resumable: a `scrub(a)` call followed by a `scrub(b)` call
/// visits the same lines, in the same order, as one `scrub(a + b)` call would
/// have, whenever `a` is a whole number of cache lines and the two calls
/// together stay within the rest of the current cycle.
pub proof fn lemma_scrub_resumable<T: CachelineReader>(
    pre: MemoryScrubber<T>,
    mid: MemoryScrubber<T>,
    a: int,
    b: int,
    n: int,
)
    requires
        pre.wf(),
        mid.wf(),
        MemoryScrubber::scrub_ok_post(pre, mid, a, n),
        mid.cacheline_width == pre.cacheline_width,
        mid.cache_index_width == pre.cache_index_width,
        mid.regions@ == pre.regions@,
        mid.schedule@ == pre.schedule@,
        a >= 0,
        b >= 0,
        a % pre.spec_cls() == 0,
        a / pre.spec_cls() + b / pre.spec_cls() <= pre.total() - pre.cursor,
    ensures
        pre.trav().subrange(pre.cursor as int, pre.cursor + pre.planned_lines(a)) + mid.trav()
            .subrange(mid.cursor as int, mid.cursor + mid.planned_lines(b)) == pre.trav()
            .subrange(pre.cursor as int, pre.cursor + pre.planned_lines(a + b)),
{
    let cls = pre.spec_cls();
    let qa = a / cls;
    let qb = b / cls;
    vstd::arithmetic::power2::lemma_pow2_pos(pre.clw());
    vstd::arithmetic::div_mod::lemma_fundamental_div_mod(a, cls);
    vstd::arithmetic::div_mod::lemma_fundamental_div_mod(b, cls);
    vstd::arithmetic::div_mod::lemma_div_pos_is_pos(a, cls);
    vstd::arithmetic::div_mod::lemma_div_pos_is_pos(b, cls);
    vstd::arithmetic::div_mod::lemma_mod_bound(b, cls);
    assert(a + b == cls * (qa + qb) + b % cls) by (nonlinear_arith)
        requires
            a == cls * qa,
            b == cls * qb + b % cls,
    ;
    assert((qa + qb) * cls == cls * (qa + qb)) by (nonlinear_arith);
    vstd::arithmetic::div_mod::lemma_fundamental_div_mod_converse(a + b, cls, qa + qb, b % cls);
    assert((a + b) / cls == qa + qb);
    assert(pre.planned_lines(a) == qa);
    assert(pre.planned_lines(a + b) == qa + qb);
    assert(mid.trav() == pre.trav());
    if pre.cursor + qa == pre.total() {
        assert(qb == 0);
        assert(mid.cursor == 0);
        assert(mid.planned_lines(b) == 0);
        assert(mid.trav().subrange(0, 0) =~= Seq::<int>::empty());
        assert(pre.trav().subrange(pre.cursor as int, pre.cursor + qa) + Seq::<int>::empty()
            =~= pre.trav().subrange(pre.cursor as int, pre.cursor + qa + qb));
    } else {
        assert(mid.cursor == pre.cursor + qa);
        assert(mid.total() == pre.total());
        assert(mid.planned_lines(b) == qb);
        assert(pre.trav().subrange(pre.cursor as int, pre.cursor + qa) + pre.trav().subrange(
            pre.cursor + qa,
            pre.cursor + qa + qb,
        ) =~= pre.trav().subrange(pre.cursor as int, pre.cursor + qa + qb));
    }
}

/// One full-cycle call from the start of the cycle touches every cache line
/// of every region exactly once: it appends the whole cycle to the reader's
/// log, the cycle is a permutation of all the regions' cache-line starts, and
/// the cursor wraps back to the start.
pub proof fn lemma_full_cycle_touches_every_line<T: CachelineReader>(
    pre: MemoryScrubber<T>,
    post: MemoryScrubber<T>,
    n: int,
)
    requires
        pre.wf(),
        pre.cursor == 0,
        MemoryScrubber::scrub_ok_post(pre, post, total_bytes(pre.regions@), n),
    ensures
        n == total_bytes(pre.regions@),
        post.desc.touched() == pre.desc.touched() + pre.trav(),
        pre.trav().to_multiset() == all_lines(pre.regions@, pre.clw()).to_multiset(),
        post.cursor == 0,
{
    let cls = pre.spec_cls();
    let total = pre.total();
    vstd::arithmetic::power2::lemma_pow2_pos(pre.clw());
    assert(total_bytes(pre.regions@) == total * cls);
    assert((cls * total) / cls == total) by {
        vstd::arithmetic::div_mod::lemma_div_multiples_vanish(total, cls);
    }
    assert(total * cls == cls * total) by (nonlinear_arith);
    assert(pre.planned_lines(total_bytes(pre.regions@)) == total);
    assert(total * cls == n);
    assert(pre.trav().subrange(0, total) =~= pre.trav()) by {
        assert(seq_matches(pre.schedule@, pre.trav()));
    }
    lemma_cycle_is_permutation(pre.regions@, pre.clw(), pre.ciw());
}

/// The cache set of the `j`-th line of a valid region is the region's first
/// line number plus `j`, reduced modulo the set count.
proof fn lemma_line_set(r: ScrubArea, clw: nat, ciw: nat, j: int)
    requires
        region_valid(r, clw),
        0 <= j < region_lines(r, clw),
    ensures
        set_of_addr(region_line_addrs(r, clw)[j], clw, ciw) == (r.start as int
            / spec_cacheline_size(clw) as int + j) % spec_num_sets(ciw) as int,
{
    let cls = spec_cacheline_size(clw) as int;
    let sb = r.start as int / cls;
    vstd::arithmetic::power2::lemma_pow2_pos(clw);
    vstd::arithmetic::power2::lemma_pow2_pos(ciw);
    vstd::arithmetic::div_mod::lemma_fundamental_div_mod(r.start as int, cls);
    assert(r.start as int == cls * sb);
    let addr = region_line_addrs(r, clw)[j];
    assert(addr == cls * sb + j * cls);
    assert(cls * sb + j * cls == cls * (sb + j)) by (nonlinear_arith);
    vstd::arithmetic::div_mod::lemma_div_multiples_vanish(sb + j, cls);
    assert(addr / cls == sb + j);
}

/// Filtering a list whose predicate holds at exactly one index keeps exactly
/// one element.
proof fn lemma_filter_unique_index(q: Seq<int>, pred: spec_fn(int) -> bool, j0: int)
    requires
        0 <= j0 < q.len(),
        pred(q[j0]),
        forall|t: int| 0 <= t < q.len() && t != j0 ==> !pred(#[trigger] q[t]),
    ensures
        q.filter(pred).len() == 1,
    decreases q.len(),
{
    reveal(Seq::filter);
    let rest = q.drop_last();
    if j0 == q.len() - 1 {
        assert(rest.all(|x: int| !pred(x))) by {
            assert forall|i: int| 0 <= i < rest.len() implies !pred(rest[i]) by {
                assert(rest[i] == q[i]);
            }
        }
        rest.lemma_all_neg_filter_empty(pred);
        assert(q.filter(pred) == rest.filter(pred).push(q.last()));
    } else {
        assert(!pred(q.last()));
        assert forall|t: int| 0 <= t < rest.len() && t != j0 implies !pred(#[trigger] rest[t]) by {
            assert(rest[t] == q[t]);
        }
        assert(rest[j0] == q[j0]);
        lemma_filter_unique_index(rest, pred, j0);
        assert(q.filter(pred) == rest.filter(pred));
    }
}

/// Among the lines of a prefix whose length is a whole number of windows of
/// consecutive line numbers, each cache set claims exactly one line per
/// window.
proof fn lemma_filter_count_mod(la: Seq<int>, base: int, clw: nat, ciw: nat, s: int, t: int)
    requires
        0 <= t <= la.len(),
        t % (spec_num_sets(ciw) as int) == 0,
        0 <= s < spec_num_sets(ciw) as int,
        forall|j: int|
            0 <= j < la.len() ==> set_of_addr(#[trigger] la[j], clw, ciw) == (base + j)
                % (spec_num_sets(ciw) as int),
    ensures
        la.take(t).filter(in_set(clw, ciw, s)).len() * (spec_num_sets(ciw) as int) == t,
    decreases t,
{
    let ns = spec_num_sets(ciw) as int;
    let pred = in_set(clw, ciw, s);
    vstd::arithmetic::power2::lemma_pow2_pos(ciw);
    if t == 0 {
        la.take(0).lemma_filter_len(pred);
        assert(la.take(0).filter(pred).len() == 0);
        assert(0 * ns == 0) by (nonlinear_arith);
    } else {
        vstd::arithmetic::div_mod::lemma_fundamental_div_mod(t, ns);
        let qt = t / ns;
        assert(t == ns * qt);
        assert(qt >= 1) by (nonlinear_arith)
            requires
                ns * qt == t,
                t > 0,
                ns >= 1,
        ;
        assert(t - ns >= 0) by (nonlinear_arith)
            requires
                t == ns * qt,
                qt >= 1,
                ns >= 1,
        ;
        assert((t - ns) % ns == 0) by {
            assert(ns * (qt - 1) + 0 == t - ns) by (nonlinear_arith)
                requires
                    t == ns * qt,
            ;
            vstd::arithmetic::div_mod::lemma_mod_multiples_vanish(qt - 1, 0, ns);
            vstd::arithmetic::div_mod::lemma_small_mod(0nat, ns as nat);
        }
        lemma_filter_count_mod(la, base, clw, ciw, s, t - ns);
        let head = la.take(t - ns);
        let w = la.subrange(t - ns, t);
        assert(la.take(t) =~= head + w);
        Seq::filter_distributes_over_add(head, w, pred);
        let bb = base + t - ns;
        let j0 = (s - bb) % ns;
        vstd::arithmetic::div_mod::lemma_mod_bound(s - bb, ns);
        assert(w[j0] == la[t - ns + j0]);
        assert((bb + j0) % ns == s) by {
            vstd::arithmetic::div_mod::lemma_fundamental_div_mod(s - bb, ns);
            let qq = (s - bb) / ns;
            assert(bb + j0 == ns * (-qq) + s) by (nonlinear_arith)
                requires
                    s - bb == ns * qq + j0,
            ;
            vstd::arithmetic::div_mod::lemma_mod_multiples_vanish(-qq, s, ns);
            vstd::arithmetic::div_mod::lemma_small_mod(s as nat, ns as nat);
        }
        assert(pred(w[j0]));
        assert forall|k: int| 0 <= k < w.len() && k != j0 implies !pred(#[trigger] w[k]) by {
            assert(w[k] == la[t - ns + k]);
            assert(set_of_addr(w[k], clw, ciw) == (bb + k) % ns);
            if (bb + k) % ns == s {
                vstd::arithmetic::div_mod::lemma_fundamental_div_mod(bb + k, ns);
                vstd::arithmetic::div_mod::lemma_fundamental_div_mod(bb + j0, ns);
                let q1 = (bb + k) / ns;
                let q2 = (bb + j0) / ns;
                assert(k - j0 == ns * (q1 - q2)) by (nonlinear_arith)
                    requires
                        bb + k == ns * q1 + s,
                        bb + j0 == ns * q2 + s,
                ;
                assert(q1 == q2) by (nonlinear_arith)
                    requires
                        k - j0 == ns * (q1 - q2),
                        -ns < k - j0 < ns,
                        ns >= 1,
                ;
                assert(false);
            }
        }
        lemma_filter_unique_index(w, pred, j0);
        assert((head.filter(pred).len() + 1) * ns == head.filter(pred).len() * ns + ns)
            by (nonlinear_arith);
    }
}

/// A region whose line count is a multiple of the set count contributes the
/// same number of lines to every cache set.
proof fn lemma_region_set_count(r: ScrubArea, clw: nat, ciw: nat, s: int)
    requires
        region_valid(r, clw),
        region_lines(r, clw) % (spec_num_sets(ciw) as int) == 0,
        0 <= s < spec_num_sets(ciw) as int,
    ensures
        region_set_lines(r, clw, ciw, s).len() * (spec_num_sets(ciw) as int) == region_lines(
            r,
            clw,
        ),
{
    let la = region_line_addrs(r, clw);
    let cls = spec_cacheline_size(clw) as int;
    let sb = r.start as int / cls;
    let n = region_lines(r, clw);
    lemma_region_exact(r, clw);
    assert forall|j: int| 0 <= j < la.len() implies set_of_addr(#[trigger] la[j], clw, ciw) == (sb
        + j) % (spec_num_sets(ciw) as int) by {
        lemma_line_set(r, clw, ciw, j);
    }
    lemma_filter_count_mod(la, sb, clw, ciw, s, n);
    assert(la.take(n) =~= la);
}

/// Every cache set's sweep of such a region set is the same share of the
/// whole cycle.
proof fn lemma_set_sweep_count(regions: Seq<ScrubArea>, clw: nat, ciw: nat, s: int)
    requires
        regions_valid(regions, clw),
        forall|i: int|
            0 <= i < regions.len() ==> region_lines(#[trigger] regions[i], clw) % (spec_num_sets(
                ciw,
            ) as int) == 0,
        0 <= s < spec_num_sets(ciw) as int,
    ensures
        set_sweep(regions, clw, ciw, s).len() * (spec_num_sets(ciw) as int) == total_lines(
            regions,
            clw,
        ),
    decreases regions.len(),
{
    let ns = spec_num_sets(ciw) as int;
    if regions.len() == 0 {
        assert(Seq::new(
            regions.len(),
            |i: int| region_set_lines(regions[i], clw, ciw, s),
        ).flatten() =~= Seq::<int>::empty());
        assert(0 * ns == 0) by (nonlinear_arith);
    } else {
        let r0 = regions.drop_last();
        let r = regions.last();
        assert(r0.push(r) =~= regions);
        assert forall|i: int| 0 <= i < r0.len() implies region_valid(#[trigger] r0[i], clw)
            && region_lines(r0[i], clw) % ns == 0 by {
            assert(r0[i] == regions[i]);
            assert(region_valid(regions[i], clw));
            assert(region_lines(regions[i], clw) % ns == 0);
        }
        lemma_set_sweep_count(r0, clw, ciw, s);
        lemma_region_set_count(r, clw, ciw, s);
        lemma_set_sweep_push(r0, r, clw, ciw, s);
        assert(set_sweep(r0.push(r), clw, ciw, s) == set_sweep(regions, clw, ciw, s));
        let x = set_sweep(r0, clw, ciw, s).len() as int;
        let y = region_set_lines(r, clw, ciw, s).len() as int;
        assert((x + y) * ns == x * ns + y * ns) by (nonlinear_arith);
    }
}

/// Set-fairness: when every region's line count is a multiple of the set
/// count, one full cycle sweeps every cache set equally often — each set
/// receives exactly its share of the cycle. (A region set that fills its sets
/// unevenly, say five lines across four sets, visits the overfull set once
/// more per cycle than the rest, so this law asks for counts that divide
/// evenly.)
pub proof fn lemma_set_fairness(regions: Seq<ScrubArea>, clw: nat, ciw: nat, s1: int, s2: int)
    requires
        regions_valid(regions, clw),
        forall|i: int|
            0 <= i < regions.len() ==> region_lines(#[trigger] regions[i], clw) % (spec_num_sets(
                ciw,
            ) as int) == 0,
        0 <= s1 < spec_num_sets(ciw) as int,
        0 <= s2 < spec_num_sets(ciw) as int,
    ensures
        set_sweep(regions, clw, ciw, s1).len() == set_sweep(regions, clw, ciw, s2).len(),
        set_sweep(regions, clw, ciw, s1).len() * (spec_num_sets(ciw) as int) == total_lines(
            regions,
            clw,
        ),
{
    let ns = spec_num_sets(ciw) as int;
    vstd::arithmetic::power2::lemma_pow2_pos(ciw);
    lemma_set_sweep_count(regions, clw, ciw, s1);
    lemma_set_sweep_count(regions, clw, ciw, s2);
    let x = set_sweep(regions, clw, ciw, s1).len() as int;
    let y = set_sweep(regions, clw, ciw, s2).len() as int;
    assert(x == y) by (nonlinear_arith)
        requires
            x * ns == y * ns,
            ns >= 1,
            x >= 0,
            y >= 0,
    ;
}

} // verus!
