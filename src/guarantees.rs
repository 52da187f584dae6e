//! What the allocator guarantees across calls, stated over the same spec
//! functions as the contracts of `Allocator::new`, `allocate` and
//! `dealloc`.
use crate::allocator::{
    alloc_bin, alloc_block, alloc_bins, alloc_result, buddy_of, coalesce, lemma_alloc,
    lemma_coalesce, lemma_halves_are_buddies, lemma_lowest_nonempty, split, AllocErr, Allocator, Layout,
};
use crate::blocks::{block_bytes, free_bytes, total_free, valid_slot};
use crate::sizes::{power_of_two, BINS, BIN_MAX, BIN_MIN};
use vstd::arithmetic::div_mod::{
    lemma_fundamental_div_mod, lemma_mod_multiples_vanish, lemma_small_mod,
};
use vstd::arithmetic::power2::{lemma_pow2_pos, lemma_pow2_unfold, pow2};
use vstd::prelude::*;

verus! {

/// Every free block of bin `k` starts at a multiple of `2^k` from the
/// region's start.
pub proof fn lemma_blocks_aligned(a: &Allocator)
    requires
        a.wf(),
    ensures
        forall|k: int, i: int|
            #![trigger a.bins()[k][i]]
            valid_slot(a.bins(), k, i) ==> (a.bins()[k][i] - a.region_start()) % (pow2(
                k as nat,
            ) as int) == 0,
{
}

/// A served request gets an address that is a multiple of its alignment,
/// and the requested bytes from that address lie inside a block that was
/// free and is free no longer.
pub proof fn lemma_allocation_correct(a: &Allocator, layout: Layout)
    requires
        a.wf(),
        alloc_result(a.bins(), a.region_start() as int, layout) is Ok,
    ensures
        ({
            let start = a.region_start() as int;
            let k = alloc_bin(start, layout) as int;
            let b = alloc_block(a.bins(), start, layout) as int;
            let addr = alloc_result(a.bins(), start, layout)->Ok_0 as int;
            &&& addr % (layout.align as int) == 0
            &&& b <= addr && addr + layout.size <= b + pow2(k as nat)
            &&& block_bytes(b, k).subset_of(a.free())
            &&& block_bytes(b, k).disjoint(free_bytes(alloc_bins(a.bins(), start, layout)))
        }),
{
    lemma_alloc(a.bins(), layout, a.region_start() as int, a.region_end() as int);
}

/// Two requests served one after the other, with no release between them,
/// get byte ranges that do not overlap.
pub proof fn lemma_no_double_issue(a: &Allocator, first: Layout, second: Layout)
    requires
        a.wf(),
        alloc_result(a.bins(), a.region_start() as int, first) is Ok,
        alloc_result(
            alloc_bins(a.bins(), a.region_start() as int, first),
            a.region_start() as int,
            second,
        ) is Ok,
    ensures
        ({
            let start = a.region_start() as int;
            let a1 = alloc_result(a.bins(), start, first)->Ok_0 as int;
            let a2 = alloc_result(alloc_bins(a.bins(), start, first), start, second)->Ok_0 as int;
            a1 + first.size <= a2 || a2 + second.size <= a1
        }),
{
    let v = a.bins();
    let start = a.region_start() as int;
    let end = a.region_end() as int;
    let w = alloc_bins(v, start, first);
    lemma_alloc(v, first, start, end);
    lemma_alloc(w, second, start, end);
    let a1 = alloc_result(v, start, first)->Ok_0 as int;
    let a2 = alloc_result(w, start, second)->Ok_0 as int;
    let k1 = alloc_bin(start, first) as int;
    let k2 = alloc_bin(start, second) as int;
    if !(a1 + first.size <= a2 || a2 + second.size <= a1) {
        let x = if a1 <= a2 {
            a2
        } else {
            a1
        };
        assert(block_bytes(alloc_block(v, start, first) as int, k1).contains(x));
        assert(block_bytes(alloc_block(w, start, second) as int, k2).contains(x));
        assert(free_bytes(w).contains(x));
    }
}

/// Releasing a served request right away, with the address it got and the
/// same layout, gives back exactly the free bytes there were before, and
/// so the same total. `dealloc`'s requirements hold on the way.
pub proof fn lemma_round_trip(a: &Allocator, layout: Layout)
    requires
        a.wf(),
        alloc_result(a.bins(), a.region_start() as int, layout) is Ok,
    ensures
        ({
            let start = a.region_start() as int;
            let k = alloc_bin(start, layout);
            let w = alloc_bins(a.bins(), start, layout);
            let ptr = alloc_result(a.bins(), start, layout)->Ok_0 as int;
            let b = ptr - (ptr - start) % (pow2(k) as int);
            &&& start <= ptr
            &&& b == alloc_block(a.bins(), start, layout)
            &&& b + pow2(k) <= a.region_end()
            &&& block_bytes(b, k as int).disjoint(free_bytes(w))
            &&& free_bytes(coalesce(w, k as int, b, start)) == a.free()
            &&& total_free(coalesce(w, k as int, b, start)) == total_free(a.bins())
        }),
{
    let v = a.bins();
    let start = a.region_start() as int;
    let end = a.region_end() as int;
    let k = alloc_bin(start, layout);
    let p = pow2(k) as int;
    let b0 = alloc_block(v, start, layout) as int;
    let ptr = alloc_result(v, start, layout)->Ok_0 as int;
    lemma_alloc(v, layout, start, end);
    let s = ptr - b0;
    lemma_pow2_pos(k);
    lemma_fundamental_div_mod(b0 - start, p);
    lemma_mod_multiples_vanish((b0 - start) / p, s, p);
    lemma_small_mod(s as nat, p as nat);
    assert(ptr - start == p * ((b0 - start) / p) + s);
    let w = alloc_bins(v, start, layout);
    lemma_coalesce(w, k as int, b0, start, end);
    assert(free_bytes(coalesce(w, k as int, b0, start)) =~= a.free());
}

/// Splitting the top block `b` of bin `j` and then releasing the lower half
/// merges the two halves back into `b` in bin `j`, and coalescing goes on
/// from there as when `b` itself is released. When `b`'s own buddy is not
/// free, or `j` is the top bin, the bins are exactly as before the split.
pub proof fn lemma_split_merge(a: &Allocator, j: int)
    requires
        a.wf(),
        BIN_MIN < j <= BIN_MAX,
        a.bins()[j].len() > 0,
    ensures
        ({
            let v = a.bins();
            let start = a.region_start() as int;
            let b = v[j].last();
            let w = split(v, j);
            let lower_taken = w.update(j - 1, w[j - 1].drop_last());
            &&& coalesce(lower_taken, j - 1, b as int, start) == coalesce(
                v.update(j, v[j].drop_last()),
                j,
                b as int,
                start,
            )
            &&& (j == BIN_MAX || !v[j].contains(buddy_of(b as int, j, start) as usize)) ==> coalesce(
                lower_taken,
                j - 1,
                b as int,
                start,
            ) == v
        }),
{
    let v = a.bins();
    let start = a.region_start() as int;
    let end = a.region_end() as int;
    let n = v[j].len() - 1;
    let b = v[j].last();
    let h = pow2((j - 1) as nat) as int;
    lemma_pow2_unfold(j as nat);
    lemma_pow2_pos((j - 1) as nat);
    assert(valid_slot(v, j, n));
    assert(b == v[j][n]);
    assert(b + 2 * h <= end);
    let hi = (b + h) as usize;
    let w = split(v, j);
    let lower_taken = w.update(j - 1, w[j - 1].drop_last());
    assert(w[j - 1].drop_last() =~= v[j - 1].push(hi));
    assert(lower_taken =~= v.update(j, v[j].drop_last()).update(j - 1, v[j - 1].push(hi)));
    // `b` is the left block of its pair in bin `j - 1`.
    lemma_halves_are_buddies(b as int, j as nat, start);
    // The upper half is listed nowhere before the split: it lies inside `b`.
    assert(!v[j - 1].contains(hi)) by {
        if v[j - 1].contains(hi) {
            let i = choose|i: int| 0 <= i < v[j - 1].len() && #[trigger] v[j - 1][i] == hi;
            assert(valid_slot(v, j - 1, i));
        }
    }
    let s = v[j - 1].push(hi);
    assert(s[v[j - 1].len() as int] == hi);
    assert(s.contains(hi));
    s.index_of_first_ensures(hi);
    let idx = s.index_of_first(hi)->0;
    if idx < v[j - 1].len() {
        assert(s[idx] == v[j - 1][idx]);
    }
    assert(idx == v[j - 1].len());
    assert(s.remove_value(hi) =~= v[j - 1]);
    assert(lower_taken[j - 1] == s);
    let after = lower_taken.update(j - 1, lower_taken[j - 1].remove_value(hi));
    assert(after =~= v.update(j, v[j].drop_last()));
    if j == BIN_MAX || !v[j].contains(buddy_of(b as int, j, start) as usize) {
        let u = v.update(j, v[j].drop_last());
        let d = buddy_of(b as int, j, start);
        if j < BIN_MAX && u[j].contains(d as usize) {
            let i = choose|i: int| 0 <= i < u[j].len() && #[trigger] u[j][i] == d as usize;
            assert(v[j][i] == u[j][i]);
        }
        assert(coalesce(u, j, b as int, start) == u.update(j, u[j].push(b)));
        assert(u[j].push(b) =~= v[j]);
        assert(u.update(j, u[j].push(b)) =~= v);
    }
}

/// A supported request whose bin would lie above `BIN_MAX`, or any
/// supported request once no bin holds a block, is refused as `Exhausted`
/// and leaves the bins as they were.
pub proof fn lemma_exhausted(v: Seq<Seq<usize>>, start: int, layout: Layout)
    requires
        v.len() == BINS,
        power_of_two(layout.align as nat),
        layout.size > 0,
        alloc_bin(start, layout) > BIN_MAX || forall|k: int|
            0 <= k < BINS ==> #[trigger] v[k].len() == 0,
    ensures
        alloc_result(v, start, layout) == Err::<usize, AllocErr>(
            AllocErr::Exhausted { request: layout },
        ),
        alloc_bins(v, start, layout) == v,
{
    let k = alloc_bin(start, layout) as int;
    if k <= BIN_MAX {
        lemma_lowest_nonempty(v, k);
    }
}

} // verus!
