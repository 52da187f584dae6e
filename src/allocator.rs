//! The binned buddy allocator.
use crate::blocks::{
    aligned_within, block_bytes, disjoint, free_bytes, in_block, lemma_push_disjoint,
    lemma_push_free, lemma_push_placed, lemma_remove_free, lemma_remove_keeps,
    lemma_total_update, placed, total_free, valid_slot,
};
use crate::free_list::FreeList;
use crate::sizes::{
    align_up, bin_size, fit_bin, is_power_of_two, lemma_aligned_down, lemma_aligned_step,
    lemma_pow2_le, lemma_request_bin, lemma_round_up, lemma_slack, power_of_two, request_bin,
    round_up, slack, BINS, BIN_MAX, BIN_MIN,
};
use vstd::arithmetic::div_mod::{
    lemma_div_multiples_vanish, lemma_fundamental_div_mod, lemma_mod_decreases, lemma_mod_multiples_basic, lemma_mod_multiples_vanish, lemma_small_mod,
};
use vstd::arithmetic::power2::{lemma_pow2_pos, lemma_pow2_strictly_increases, lemma_pow2_unfold, pow2};
use vstd::prelude::*;

verus! {

/// A request for `size` bytes aligned to `align`.
#[derive(Clone, Copy, Debug, PartialEq, Eq)]
pub struct Layout {
    pub size: usize,
    pub align: usize,
}

impl Layout {
    pub fn from_size_align(size: usize, align: usize) -> (l: Layout)
        ensures
            l.size == size,
            l.align == align,
    {
        Layout { size, align }
    }

    pub fn size(&self) -> (s: usize)
        ensures
            s == self.size,
    {
        self.size
    }

    pub fn align(&self) -> (a: usize)
        ensures
            a == self.align,
    {
        self.align
    }
}

/// Why a request was refused.
#[derive(Clone, Copy, Debug, PartialEq, Eq)]
pub enum AllocErr {
    /// No free block can serve the request, or it is larger than any block.
    Exhausted { request: Layout },
    /// The request breaks the caller's side of the contract.
    Unsupported { details: &'static str },
}

/// A bin allocator over the region `[start, end)`.
#[derive(Debug)]
pub struct Allocator {
    bins: Vec<FreeList>,
    start: usize,
    end: usize,
}

/// The contents of each list of a bin table.
pub open spec fn views(v: Seq<FreeList>) -> Seq<Seq<usize>> {
    v.map_values(|l: FreeList| l@)
}

/// The bytes from `lo` up to, not including, `hi`.
pub open spec fn interval(lo: int, hi: int) -> Set<int> {
    Set::new(|a: int| lo <= a < hi)
}

/// What holds of the bins while `new` carves `[start, end)` and its cursor
/// stands at `c`.
pub open spec fn carving(v: Seq<Seq<usize>>, start: int, end: int, c: int) -> bool {
    let rem = end - c;
    &&& v.len() == BINS
    &&& start <= c <= end
    &&& placed(v, BIN_MIN as int, BIN_MAX as int, start, end)
    &&& disjoint(v)
    &&& free_bytes(v) == interval(start, c)
    &&& forall|k: nat|
        BIN_MIN <= k <= BIN_MAX && #[trigger] pow2(k) <= rem ==> (c - start) % (pow2(k) as int)
            == 0
    &&& (c - start) % (pow2(BIN_MIN as nat) as int) == 0
    &&& forall|k: int|
        0 <= k < BIN_MAX ==> #[trigger] v[k].len() <= 1 && (v[k].len() == 1 ==> pow2(k as nat)
            > rem)
    &&& forall|k: int, i: int| #[trigger]
        valid_slot(v, k, i) ==> v[k][i] + pow2(k as nat) <= c
    &&& largest_first(v)
    &&& forall|i: int|
        0 <= i < v[BIN_MAX as int].len() ==> #[trigger] v[BIN_MAX as int][i] == start + i * pow2(
            BIN_MAX as nat,
        )
    &&& (forall|k: int| 0 <= k < BIN_MAX ==> #[trigger] v[k].len() == 0) ==> c == start + v[BIN_MAX as int].len()
        * pow2(BIN_MAX as nat)
}

/// A block of a larger bin lies below every block of a smaller bin.
pub open spec fn largest_first(v: Seq<Seq<usize>>) -> bool {
    forall|k1: int, i1: int, k2: int, i2: int|
        #![trigger v[k1][i1], v[k2][i2]]
        valid_slot(v, k1, i1) && valid_slot(v, k2, i2) && k1 > k2 ==> v[k1][i1] < v[k2][i2]
}

/// One step of carving: the block placed at the cursor keeps `carving`.
proof fn lemma_carve_step(v: Seq<Seq<usize>>, start: int, end: int, c: usize, k: nat)
    requires
        carving(v, start, end, c as int),
        BIN_MIN <= k <= BIN_MAX,
        pow2(k) <= end - c,
        k < BIN_MAX ==> end - c < pow2(k + 1),
    ensures
        carving(v.update(k as int, v[k as int].push(c)), start, end, c + pow2(k)),
{
    let nv = v.update(k as int, v[k as int].push(c));
    let rem = end - c;
    let c2 = c + pow2(k);
    let rem2 = end - c2;
    let n = v[k as int].len() as int;
    lemma_pow2_pos(k);
    if k < BIN_MAX {
        lemma_pow2_unfold(k + 1);
    }
    // No bin below `k` holds a block yet.
    assert forall|k1: int| 0 <= k1 < k implies #[trigger] v[k1].len() == 0 by {
        if v[k1].len() == 1 {
            lemma_pow2_strictly_increases(k1 as nat, k);
        }
    }
    // A smaller block would not have been placed before a larger one.
    assert forall|k2: nat| BIN_MIN <= k2 <= BIN_MAX && #[trigger] pow2(k2) <= rem2 implies k2 <= k by {
        if k2 > k {
            lemma_pow2_le(k + 1, k2);
        }
    }
    assert(aligned_within(c as int, k as int, start, end));
    assert(block_bytes(c as int, k as int).disjoint(free_bytes(v)));
    lemma_push_free(v, k as int, c);
    lemma_push_disjoint(v, k as int, c);
    lemma_push_placed(v, k as int, c, BIN_MIN as int, BIN_MAX as int, start, end);
    assert(free_bytes(nv) =~= interval(start, c2));
    assert forall|k2: nat|
        BIN_MIN <= k2 <= BIN_MAX && #[trigger] pow2(k2) <= rem2 implies (c2 - start) % (pow2(
        k2,
    ) as int) == 0 by {
        lemma_aligned_step(c - start, k2, k);
    }
    lemma_aligned_step(c - start, BIN_MIN as nat, k);
    assert forall|k1: int, i1: int| #[trigger] valid_slot(nv, k1, i1) implies nv[k1][i1] + pow2(
        k1 as nat,
    ) <= c2 by {
        if k1 != k || i1 != n {
            assert(valid_slot(v, k1, i1));
        }
    }
    assert forall|k1: int, i1: int, k2: int, i2: int|
        #![trigger nv[k1][i1], nv[k2][i2]]
        valid_slot(nv, k1, i1) && valid_slot(nv, k2, i2) && k1 > k2 implies nv[k1][i1]
        < nv[k2][i2] by {
        if k1 == k && i1 == n {
            assert(v[k2].len() == 0 || k2 == k);
        } else if k2 == k && i2 == n {
            assert(valid_slot(v, k1, i1));
            lemma_pow2_pos(k1 as nat);
        } else {
            assert(valid_slot(v, k1, i1) && valid_slot(v, k2, i2));
        }
    }
    if k == BIN_MAX {
        assert(c == start + n * pow2(BIN_MAX as nat));
        assert(c2 == start + (n + 1) * pow2(BIN_MAX as nat)) by (nonlinear_arith)
            requires
                c == start + n * pow2(BIN_MAX as nat),
                c2 == c + pow2(BIN_MAX as nat),
        ;
    }
    assert forall|i: int|
        0 <= i < nv[BIN_MAX as int].len() implies #[trigger] nv[BIN_MAX as int][i] == start + i
        * pow2(BIN_MAX as nat) by {
        if k == BIN_MAX && i == n {
        } else {
            assert(nv[BIN_MAX as int][i] == v[BIN_MAX as int][i]);
        }
    }
    assert forall|k1: int| 0 <= k1 < BIN_MAX implies #[trigger] nv[k1].len() <= 1 && (
    nv[k1].len() == 1 ==> pow2(k1 as nat) > rem2) by {
        if k1 == k {
            assert(v[k1].len() == 0 || pow2(k1 as nat) > rem);
        }
    }
    if k < BIN_MAX {
        assert(nv[k as int].len() != 0);
    }
}

/// Bin `j` with its top block split in two halves pushed onto bin `j - 1`,
/// the upper half first, so that the lower half is the new top.
pub open spec fn split(v: Seq<Seq<usize>>, j: int) -> Seq<Seq<usize>> {
    let b = v[j].last();
    v.update(j, v[j].drop_last()).update(
        j - 1,
        v[j - 1].push((b + pow2((j - 1) as nat)) as usize).push(b),
    )
}

/// The lowest bin at or above `k` that holds a block, or `BINS` when none
/// does.
pub open spec fn lowest_nonempty(v: Seq<Seq<usize>>, k: int) -> int
    decreases BINS - k,
{
    if k >= BINS {
        BINS as int
    } else if v[k].len() > 0 {
        k
    } else {
        lowest_nonempty(v, k + 1)
    }
}

/// The bins while the top block `b` of bin `j` is split down to bin `i`:
/// each bin between them holds its upper half, and bin `i` has the rest
/// of `b` on top.
pub open spec fn split_down(v: Seq<Seq<usize>>, j: int, i: int) -> Seq<Seq<usize>> {
    let b = v[j].last();
    Seq::new(
        v.len(),
        |m: int|
            if i == j {
                v[m]
            } else if m == j {
                v[j].drop_last()
            } else if i < m < j {
                v[m].push((b + pow2(m as nat)) as usize)
            } else if m == i {
                v[i].push((b + pow2(i as nat)) as usize).push(b)
            } else {
                v[m]
            },
    )
}

/// The bins once a block of bin `k` has been cut from the top block `b` of
/// bin `j`: `b` leaves bin `j`, each bin `m` in `k..j` gains the block at
/// `b + 2^m`, and the block at `b` is handed out.
pub open spec fn granted(v: Seq<Seq<usize>>, j: int, k: int) -> Seq<Seq<usize>> {
    let b = v[j].last();
    Seq::new(
        v.len(),
        |m: int|
            if m == j {
                v[j].drop_last()
            } else if k <= m < j {
                v[m].push((b + pow2(m as nat)) as usize)
            } else {
                v[m]
            },
    )
}

/// Splitting keeps the bins placed and disjoint, and keeps the free bytes
/// and their total.
proof fn lemma_split(v: Seq<Seq<usize>>, j: int, start: int, end: int)
    requires
        v.len() == BINS,
        BIN_MIN < j <= BIN_MAX,
        v[j].len() > 0,
        end <= usize::MAX,
        placed(v, BIN_MIN as int, BIN_MAX as int, start, end),
        disjoint(v),
    ensures
        placed(split(v, j), BIN_MIN as int, BIN_MAX as int, start, end),
        disjoint(split(v, j)),
        free_bytes(split(v, j)) == free_bytes(v),
        total_free(split(v, j)) == total_free(v),
        split(v, j)[j - 1].last() == v[j].last(),
{
    let n = v[j].len() - 1;
    let b = v[j][n];
    let h = pow2((j - 1) as nat);
    lemma_pow2_unfold(j as nat);
    lemma_pow2_pos((j - 1) as nat);
    assert(valid_slot(v, j, n));
    assert(aligned_within(b as int, j, start, end));
    let v1 = v.update(j, v[j].remove(n));
    assert(v1 =~= v.update(j, v[j].drop_last()));
    lemma_remove_free(v, j, n);
    lemma_remove_keeps(v, j, n, BIN_MIN as int, BIN_MAX as int, start, end);
    let hi = (b + h) as usize;
    let v2 = v1.update(j - 1, v1[j - 1].push(hi));
    assert(block_bytes(hi as int, j - 1).disjoint(free_bytes(v1))) by {
        assert forall|a: int| block_bytes(hi as int, j - 1).contains(a) implies !free_bytes(
            v1,
        ).contains(a) by {
            assert(in_block(a, b as int, j));
        }
    }
    lemma_aligned_down(b - start, (j - 1) as nat, j as nat);
    lemma_aligned_step(b - start, (j - 1) as nat, (j - 1) as nat);
    lemma_push_free(v1, j - 1, hi);
    lemma_push_disjoint(v1, j - 1, hi);
    lemma_push_placed(v1, j - 1, hi, BIN_MIN as int, BIN_MAX as int, start, end);
    let v3 = v2.update(j - 1, v2[j - 1].push(b));
    assert(v3 =~= split(v, j));
    assert(block_bytes(b as int, j - 1).disjoint(free_bytes(v2))) by {
        assert forall|a: int| block_bytes(b as int, j - 1).contains(a) implies !free_bytes(
            v2,
        ).contains(a) by {
            assert(in_block(a, b as int, j));
        }
    }
    lemma_push_free(v2, j - 1, b);
    lemma_push_disjoint(v2, j - 1, b);
    lemma_push_placed(v2, j - 1, b, BIN_MIN as int, BIN_MAX as int, start, end);
    assert(free_bytes(v3) =~= free_bytes(v)) by {
        assert forall|a: int| block_bytes(b as int, j).contains(a) implies free_bytes(v).contains(
            a,
        ) by {
            assert(in_block(a, v[j][n] as int, j));
        }
    }
    let p = pow2(j as nat) as int;
    lemma_total_update(v, j, v[j].remove(n), BINS as int);
    assert((v[j].remove(n).len() - v[j].len()) * p == -p) by (nonlinear_arith)
        requires
            v[j].remove(n).len() == v[j].len() - 1,
    ;
    lemma_total_update(v1, j - 1, v1[j - 1].push(hi), BINS as int);
    assert((v1[j - 1].push(hi).len() - v1[j - 1].len()) * h == h) by (nonlinear_arith)
        requires
            v1[j - 1].push(hi).len() == v1[j - 1].len() + 1,
    ;
    lemma_total_update(v2, j - 1, v2[j - 1].push(b), BINS as int);
    assert((v2[j - 1].push(b).len() - v2[j - 1].len()) * h == h) by (nonlinear_arith)
        requires
            v2[j - 1].push(b).len() == v2[j - 1].len() + 1,
    ;
}

/// One more split continues the split down from bin `j`.
proof fn lemma_split_down_step(v: Seq<Seq<usize>>, j: int, i: int)
    requires
        v.len() == BINS,
        BIN_MIN < i <= j <= BIN_MAX,
        v[j].len() > 0,
    ensures
        split(split_down(v, j, i), i) == split_down(v, j, i - 1),
        split_down(v, j, i)[i].last() == v[j].last(),
        split_down(v, j, i)[i].len() > 0,
{
    let w = split_down(v, j, i);
    assert(w[i].last() == v[j].last());
    assert(w[i - 1] == v[i - 1]);
    let lhs = split(w, i);
    let rhs = split_down(v, j, i - 1);
    assert forall|m: int| 0 <= m < BINS implies lhs[m] =~= rhs[m] by {}
    assert(lhs =~= rhs);
}

/// Taking the top block of bin `k` after the split down gives `granted`.
proof fn lemma_granted(v: Seq<Seq<usize>>, j: int, k: int)
    requires
        v.len() == BINS,
        0 <= k <= j < BINS,
        v[j].len() > 0,
    ensures
        split_down(v, j, k)[k].len() > 0,
        split_down(v, j, k)[k].last() == v[j].last(),
        split_down(v, j, k).update(k, split_down(v, j, k)[k].drop_last()) == granted(v, j, k),
{
    let w = split_down(v, j, k);
    let lhs = w.update(k, w[k].drop_last());
    let rhs = granted(v, j, k);
    assert forall|m: int| 0 <= m < BINS implies lhs[m] =~= rhs[m] by {}
    assert(lhs =~= rhs);
}

/// The buddy of the block of bin `k` at `b`: the other half of the block of
/// bin `k + 1` that holds it, found by the parity of `b`'s index among the
/// blocks of bin `k` counted from `start`.
pub open spec fn buddy_of(b: int, k: int, start: int) -> int {
    if ((b - start) / (pow2(k as nat) as int)) % 2 == 0 {
        b + pow2(k as nat)
    } else {
        b - pow2(k as nat)
    }
}

/// The bins once the block of bin `k` at `b` is freed: while a bin below
/// `BIN_MAX` holds the block's buddy, the buddy leaves it and the merged
/// block moves one bin up; the block then joins its bin.
pub open spec fn coalesce(v: Seq<Seq<usize>>, k: int, b: int, start: int) -> Seq<Seq<usize>>
    decreases BIN_MAX - k,
{
    let d = buddy_of(b, k, start);
    if k < BIN_MAX && 0 <= d <= usize::MAX && v[k].contains(d as usize) {
        coalesce(
            v.update(k, v[k].remove_value(d as usize)),
            k + 1,
            if d < b {
                d
            } else {
                b
            },
            start,
        )
    } else {
        v.update(k, v[k].push(b as usize))
    }
}

/// The buddy of an aligned block is its neighbour on one side, and the
/// lower of the two starts a block aligned for the next bin.
proof fn lemma_buddy(b: int, k: nat, start: int)
    requires
        start <= b,
        (b - start) % (pow2(k) as int) == 0,
    ensures
        buddy_of(b, k as int, start) == b + pow2(k) ==> (b - start) % (pow2(k + 1) as int) == 0,
        buddy_of(b, k as int, start) == b - pow2(k) ==> buddy_of(b, k as int, start) >= start && (
        buddy_of(b, k as int, start) - start) % (pow2(k + 1) as int) == 0,
        buddy_of(b, k as int, start) == b + pow2(k) || buddy_of(b, k as int, start) == b - pow2(k),
{
    let p = pow2(k) as int;
    lemma_pow2_pos(k);
    lemma_pow2_unfold(k + 1);
    let x = b - start;
    let q = x / p;
    lemma_fundamental_div_mod(x, p);
    assert(x == p * q);
    assert(q >= 0) by (nonlinear_arith)
        requires
            x >= 0,
            p > 0,
            x == p * q,
    ;
    let t = q / 2;
    if q % 2 == 0 {
        assert(x == t * (2 * p)) by (nonlinear_arith)
            requires
                x == p * q,
                q == 2 * t,
        ;
        lemma_mod_multiples_basic(t, 2 * p);
    } else {
        assert(x - p == t * (2 * p)) by (nonlinear_arith)
            requires
                x == p * q,
                q == 2 * t + 1,
        ;
        assert(x - p >= 0) by (nonlinear_arith)
            requires
                t >= 0,
                p > 0,
                x - p == t * (2 * p),
        ;
        lemma_mod_multiples_basic(t, 2 * p);
    }
}

/// A bin lists no address twice.
proof fn lemma_no_duplicates(v: Seq<Seq<usize>>, k: int, i: int)
    requires
        disjoint(v),
        valid_slot(v, k, i),
    ensures
        v[k].remove(i) == v[k].remove_value(v[k][i]),
{
    let d = v[k][i];
    v[k].index_of_first_ensures(d);
    let f = v[k].index_of_first(d)->0;
    lemma_pow2_pos(k as nat);
    assert(valid_slot(v, k, f));
    assert(f == i);
}

/// Merging a freed block with its free buddy: the buddy leaves its bin and
/// the merged block, one bin up, covers both.
proof fn lemma_merge_step(v: Seq<Seq<usize>>, k: int, b: int, i: int, start: int, end: int)
    requires
        v.len() == BINS,
        0 <= start,
        end <= usize::MAX,
        placed(v, BIN_MIN as int, BIN_MAX as int, start, end),
        disjoint(v),
        BIN_MIN <= k < BIN_MAX,
        aligned_within(b, k, start, end),
        block_bytes(b, k).disjoint(free_bytes(v)),
        valid_slot(v, k, i),
        v[k][i] == buddy_of(b, k, start),
    ensures
        ({
            let nv = v.update(k, v[k].remove(i));
            let d = buddy_of(b, k, start);
            let m = if d < b {
                d
            } else {
                b
            };
            &&& nv == v.update(k, v[k].remove_value(d as usize))
            &&& placed(nv, BIN_MIN as int, BIN_MAX as int, start, end)
            &&& disjoint(nv)
            &&& aligned_within(m, k + 1, start, end)
            &&& block_bytes(m, k + 1).disjoint(free_bytes(nv))
            &&& free_bytes(nv).union(block_bytes(m, k + 1)) == free_bytes(v).union(
                block_bytes(b, k),
            )
            &&& total_free(nv) + pow2((k + 1) as nat) == total_free(v) + pow2(k as nat)
        }),
{
    let nv = v.update(k, v[k].remove(i));
    let d = buddy_of(b, k, start);
    let m = if d < b {
        d
    } else {
        b
    };
    let p = pow2(k as nat) as int;
    lemma_buddy(b, k as nat, start);
    lemma_pow2_unfold((k + 1) as nat);
    lemma_no_duplicates(v, k, i);
    assert(aligned_within(d, k, start, end));
    lemma_remove_free(v, k, i);
    lemma_remove_keeps(v, k, i, BIN_MIN as int, BIN_MAX as int, start, end);
    assert(block_bytes(m, k + 1) =~= block_bytes(b, k).union(block_bytes(d, k)));
    assert(block_bytes(m, k + 1).disjoint(free_bytes(nv)));
    assert(free_bytes(nv).union(block_bytes(m, k + 1)) =~= free_bytes(v).union(block_bytes(b, k)))
        by {
        assert forall|a: int| block_bytes(d, k).contains(a) implies free_bytes(v).contains(a) by {
            assert(in_block(a, v[k][i] as int, k));
        }
    }
    lemma_total_update(v, k, v[k].remove(i), BINS as int);
    assert((v[k].remove(i).len() - v[k].len()) * p == -p) by (nonlinear_arith)
        requires
            v[k].remove(i).len() == v[k].len() - 1,
    ;
}

/// The bin that serves `layout` in a region that starts at `start`: the
/// least exponent `k >= BIN_MIN` whose block is a multiple of `align` and
/// holds `size` bytes after the block's start is rounded up to `align`.
/// Blocks lie at multiples of their size from `start`, so that rounding
/// adds `start`'s slack, which is 0 when `start` is a multiple of `align`.
pub open spec fn alloc_bin(start: int, layout: Layout) -> nat {
    request_bin((layout.size + slack(start, layout.align as int)) as nat, layout.align as nat)
}

/// The block that serves `layout` from bins `v`: the top block of the
/// lowest non-empty bin at or above `alloc_bin`.
pub open spec fn alloc_block(v: Seq<Seq<usize>>, start: int, layout: Layout) -> usize {
    let k = alloc_bin(start, layout) as int;
    v[lowest_nonempty(v, k)].last()
}

/// A request is served: it is supported, its bin exists, and some bin from
/// there up holds a block.
pub open spec fn alloc_succeeds(v: Seq<Seq<usize>>, start: int, layout: Layout) -> bool {
    let k = alloc_bin(start, layout) as int;
    &&& power_of_two(layout.align as nat)
    &&& layout.size > 0
    &&& k <= BIN_MAX
    &&& lowest_nonempty(v, k) <= BIN_MAX
}

/// What `allocate(layout)` returns on bins `v` of a region that starts at
/// `start`.
pub open spec fn alloc_result(v: Seq<Seq<usize>>, start: int, layout: Layout) -> Result<
    usize,
    AllocErr,
> {
    if !power_of_two(layout.align as nat) {
        Err(AllocErr::Unsupported { details: "layout alignment must be 2^n" })
    } else if layout.size == 0 {
        Err(AllocErr::Unsupported { details: "allocating size cannot be equal 0" })
    } else if !alloc_succeeds(v, start, layout) {
        Err(AllocErr::Exhausted { request: layout })
    } else {
        Ok(round_up(alloc_block(v, start, layout) as int, layout.align as int) as usize)
    }
}

/// The bins after `allocate(layout)` on bins `v`: unchanged on an error.
pub open spec fn alloc_bins(v: Seq<Seq<usize>>, start: int, layout: Layout) -> Seq<Seq<usize>> {
    let k = alloc_bin(start, layout) as int;
    if alloc_succeeds(v, start, layout) {
        granted(v, lowest_nonempty(v, k), k)
    } else {
        v
    }
}

/// Coalescing keeps the bins placed and disjoint and adds exactly the freed
/// block's bytes.
pub proof fn lemma_coalesce(v: Seq<Seq<usize>>, k: int, b: int, start: int, end: int)
    requires
        v.len() == BINS,
        0 <= start,
        end <= usize::MAX,
        placed(v, BIN_MIN as int, BIN_MAX as int, start, end),
        disjoint(v),
        BIN_MIN <= k <= BIN_MAX,
        aligned_within(b, k, start, end),
        block_bytes(b, k).disjoint(free_bytes(v)),
    ensures
        coalesce(v, k, b, start).len() == BINS,
        placed(coalesce(v, k, b, start), BIN_MIN as int, BIN_MAX as int, start, end),
        disjoint(coalesce(v, k, b, start)),
        free_bytes(coalesce(v, k, b, start)) == free_bytes(v).union(block_bytes(b, k)),
        total_free(coalesce(v, k, b, start)) == total_free(v) + pow2(k as nat),
    decreases BIN_MAX - k,
{
    let d = buddy_of(b, k, start);
    if k < BIN_MAX && 0 <= d <= usize::MAX && v[k].contains(d as usize) {
        let i = choose|i: int| 0 <= i < v[k].len() && v[k][i] == d as usize;
        lemma_merge_step(v, k, b, i, start, end);
        let m = if d < b {
            d
        } else {
            b
        };
        lemma_coalesce(v.update(k, v[k].remove(i)), k + 1, m, start, end);
    } else {
        let bb = b as usize;
        lemma_push_free(v, k, bb);
        lemma_push_disjoint(v, k, bb);
        lemma_push_placed(v, k, bb, BIN_MIN as int, BIN_MAX as int, start, end);
        lemma_total_update(v, k, v[k].push(bb), BINS as int);
        assert((v[k].push(bb).len() - v[k].len()) * pow2(k as nat) == pow2(k as nat))
            by (nonlinear_arith)
            requires
                v[k].push(bb).len() == v[k].len() + 1,
        ;
    }
}

/// Splitting the top block of bin `j` down to bin `i` keeps the bins placed
/// and disjoint and keeps the free bytes and their total.
pub proof fn lemma_split_down(v: Seq<Seq<usize>>, j: int, i: int, start: int, end: int)
    requires
        v.len() == BINS,
        BIN_MIN <= i <= j <= BIN_MAX,
        v[j].len() > 0,
        end <= usize::MAX,
        placed(v, BIN_MIN as int, BIN_MAX as int, start, end),
        disjoint(v),
    ensures
        split_down(v, j, i).len() == BINS,
        placed(split_down(v, j, i), BIN_MIN as int, BIN_MAX as int, start, end),
        disjoint(split_down(v, j, i)),
        free_bytes(split_down(v, j, i)) == free_bytes(v),
        total_free(split_down(v, j, i)) == total_free(v),
    decreases j - i,
{
    if i == j {
        assert(split_down(v, j, i) =~= v);
    } else {
        lemma_split_down(v, j, i + 1, start, end);
        lemma_split_down_step(v, j, i + 1);
        lemma_split(split_down(v, j, i + 1), i + 1, start, end);
    }
}

/// A served request leaves the bins placed and disjoint, takes exactly the
/// handed-out block's bytes out of the free bytes, and that block was free
/// and lies in the region aligned to its bin.
pub proof fn lemma_alloc(v: Seq<Seq<usize>>, layout: Layout, start: int, end: int)
    requires
        v.len() == BINS,
        end <= usize::MAX,
        placed(v, BIN_MIN as int, BIN_MAX as int, start, end),
        disjoint(v),
        alloc_succeeds(v, start, layout),
    ensures
        ({
            let k = alloc_bin(start, layout) as int;
            let b = alloc_block(v, start, layout) as int;
            let w = alloc_bins(v, start, layout);
            let addr = round_up(b, layout.align as int);
            &&& w.len() == BINS
            &&& placed(w, BIN_MIN as int, BIN_MAX as int, start, end)
            &&& disjoint(w)
            &&& free_bytes(w) == free_bytes(v).difference(block_bytes(b, k))
            &&& total_free(w) == total_free(v) - pow2(k as nat)
            &&& block_bytes(b, k).subset_of(free_bytes(v))
            &&& aligned_within(b, k, start, end)
            &&& pow2(k as nat) >= layout.align
            &&& addr == b + slack(start, layout.align as int)
            &&& addr % (layout.align as int) == 0
            &&& b <= addr
            &&& addr + layout.size <= b + pow2(k as nat)
            &&& alloc_result(v, start, layout) == Ok::<usize, AllocErr>(addr as usize)
        }),
{
    let k = alloc_bin(start, layout) as int;
    let j = lowest_nonempty(v, k);
    let b = alloc_block(v, start, layout) as int;
    let al = layout.align as int;
    let e = choose|e: nat| pow2(e) == layout.align as nat;
    lemma_pow2_pos(e);
    lemma_round_up(start, al);
    lemma_lowest_nonempty(v, k);
    lemma_request_bin((layout.size + slack(start, al)) as nat, layout.align as nat, k as nat);
    if e > k {
        lemma_pow2_strictly_increases(k as nat, e);
    }
    let n = v[j].len() - 1;
    assert(valid_slot(v, j, n));
    assert(aligned_within(b, j, start, end));
    lemma_aligned_down(b - start, k as nat, j as nat);
    lemma_aligned_down(b - start, e, k as nat);
    lemma_slack(b, start, al);
    lemma_pow2_le(k as nat, j as nat);
    assert forall|a: int| block_bytes(b, k).contains(a) implies free_bytes(v).contains(a) by {
        assert(in_block(a, v[j][n] as int, j));
    }
    lemma_split_down(v, j, k, start, end);
    lemma_granted(v, j, k);
    let w = split_down(v, j, k);
    let m = w[k].len() - 1;
    assert(valid_slot(w, k, m));
    assert(w[k].remove(m) =~= w[k].drop_last());
    lemma_remove_free(w, k, m);
    lemma_remove_keeps(w, k, m, BIN_MIN as int, BIN_MAX as int, start, end);
    lemma_total_update(w, k, w[k].remove(m), BINS as int);
    assert((w[k].remove(m).len() - w[k].len()) * pow2(k as nat) == -pow2(k as nat))
        by (nonlinear_arith)
        requires
            w[k].remove(m).len() == w[k].len() - 1,
    ;
}

/// `lowest_nonempty` finds a non-empty bin at or above `k`, or there is
/// none up to `BIN_MAX`.
pub proof fn lemma_lowest_nonempty(v: Seq<Seq<usize>>, k: int)
    requires
        v.len() == BINS,
        0 <= k <= BINS,
    ensures
        k <= lowest_nonempty(v, k) <= BINS,
        lowest_nonempty(v, k) < BINS ==> v[lowest_nonempty(v, k)].len() > 0,
        forall|m: int| k <= m < lowest_nonempty(v, k) ==> #[trigger] v[m].len() == 0,
    decreases BINS - k,
{
    if k < BINS && v[k].len() == 0 {
        lemma_lowest_nonempty(v, k + 1);
    }
}

/// No bin below `BIN_MAX` holds a block together with its buddy: two free
/// buddies are always merged into the bin above.
pub open spec fn buddies_merged(v: Seq<Seq<usize>>, start: int) -> bool {
    forall|k: int, i1: int, i2: int|
        #![trigger v[k][i1], v[k][i2]]
        0 <= k < BIN_MAX && 0 <= i1 < v[k].len() && 0 <= i2 < v[k].len() ==> v[k][i2] as int
            != buddy_of(v[k][i1] as int, k, start)
}

/// A block is not its own buddy.
proof fn lemma_buddy_differs(b: int, k: int, start: int)
    requires
        0 <= k,
    ensures
        buddy_of(b, k, start) != b,
{
    lemma_pow2_pos(k as nat);
}

/// Being buddies is symmetric for aligned blocks.
proof fn lemma_buddy_symmetric(b: int, k: nat, start: int)
    requires
        start <= b,
        (b - start) % (pow2(k) as int) == 0,
    ensures
        buddy_of(buddy_of(b, k as int, start), k as int, start) == b,
{
    let p = pow2(k) as int;
    lemma_pow2_pos(k);
    let q = (b - start) / p;
    lemma_fundamental_div_mod(b - start, p);
    lemma_buddy(b, k, start);
    let d = buddy_of(b, k as int, start);
    if q % 2 == 0 {
        assert(d - start == p * (q + 1)) by (nonlinear_arith)
            requires
                b - start == p * q,
                d == b + p,
        ;
        lemma_div_multiples_vanish(q + 1, p);
    } else {
        assert(d - start == p * (q - 1)) by (nonlinear_arith)
            requires
                b - start == p * q,
                d == b - p,
        ;
        lemma_div_multiples_vanish(q - 1, p);
    }
}

/// The two halves of a block of bin `k` aligned from `start` are each
/// other's buddies in bin `k - 1`, the lower one on the left.
pub proof fn lemma_halves_are_buddies(b: int, k: nat, start: int)
    requires
        k > 0,
        start <= b,
        (b - start) % (pow2(k) as int) == 0,
    ensures
        buddy_of(b, k - 1, start) == b + pow2((k - 1) as nat),
        buddy_of(b + pow2((k - 1) as nat), k - 1, start) == b,
{
    let h = pow2((k - 1) as nat) as int;
    lemma_pow2_unfold(k);
    lemma_pow2_pos((k - 1) as nat);
    let q = (b - start) / (2 * h);
    lemma_fundamental_div_mod(b - start, 2 * h);
    assert(b - start == h * (2 * q)) by (nonlinear_arith)
        requires
            b - start == (2 * h) * q + (b - start) % (2 * h),
            (b - start) % (2 * h) == 0,
    ;
    lemma_div_multiples_vanish(2 * q, h);
    lemma_aligned_down(b - start, (k - 1) as nat, k);
    lemma_buddy_symmetric(b, (k - 1) as nat, start);
}

/// A served request keeps free buddies merged: the bins it fills were
/// empty and now hold one block each.
proof fn lemma_granted_merged(v: Seq<Seq<usize>>, layout: Layout, start: int)
    requires
        v.len() == BINS,
        alloc_succeeds(v, start, layout),
        buddies_merged(v, start),
    ensures
        buddies_merged(alloc_bins(v, start, layout), start),
{
    let k = alloc_bin(start, layout) as int;
    let j = lowest_nonempty(v, k);
    let w = alloc_bins(v, start, layout);
    lemma_lowest_nonempty(v, k);
    assert forall|m: int, i1: int, i2: int|
        #![trigger w[m][i1], w[m][i2]]
        0 <= m < BIN_MAX && 0 <= i1 < w[m].len() && 0 <= i2 < w[m].len() implies w[m][i2] as int
        != buddy_of(w[m][i1] as int, m, start) by {
        if m == j {
            assert(w[m][i1] == v[m][i1] && w[m][i2] == v[m][i2]);
        } else if k <= m < j {
            assert(v[m].len() == 0);
            assert(i1 == 0 && i2 == 0);
            lemma_buddy_differs(w[m][i1] as int, m, start);
        } else {
            assert(w[m] == v[m]);
        }
    }
}

/// Coalescing keeps free buddies merged: each merge only removes a block,
/// and the block that finally joins a bin finds no buddy there.
pub proof fn lemma_coalesce_merged(v: Seq<Seq<usize>>, k: int, b: int, start: int, end: int)
    requires
        v.len() == BINS,
        0 <= start,
        end <= usize::MAX,
        placed(v, BIN_MIN as int, BIN_MAX as int, start, end),
        disjoint(v),
        BIN_MIN <= k <= BIN_MAX,
        aligned_within(b, k, start, end),
        block_bytes(b, k).disjoint(free_bytes(v)),
        buddies_merged(v, start),
    ensures
        buddies_merged(coalesce(v, k, b, start), start),
    decreases BIN_MAX - k,
{
    let d = buddy_of(b, k, start);
    lemma_buddy(b, k as nat, start);
    if k < BIN_MAX && 0 <= d <= usize::MAX && v[k].contains(d as usize) {
        let i = choose|i: int| 0 <= i < v[k].len() && v[k][i] == d as usize;
        lemma_merge_step(v, k, b, i, start, end);
        let nv = v.update(k, v[k].remove(i));
        assert forall|m: int, i1: int, i2: int|
            #![trigger nv[m][i1], nv[m][i2]]
            0 <= m < BIN_MAX && 0 <= i1 < nv[m].len() && 0 <= i2 < nv[m].len() implies nv[m][i2] as int
            != buddy_of(nv[m][i1] as int, m, start) by {
            let j1 = if m == k && i1 >= i {
                i1 + 1
            } else {
                i1
            };
            let j2 = if m == k && i2 >= i {
                i2 + 1
            } else {
                i2
            };
            assert(nv[m][i1] == v[m][j1] && nv[m][i2] == v[m][j2]);
        }
        let m = if d < b {
            d
        } else {
            b
        };
        lemma_coalesce_merged(nv, k + 1, m, start, end);
    } else {
        let w = v.update(k, v[k].push(b as usize));
        let n = v[k].len() as int;
        assert forall|m: int, i1: int, i2: int|
            #![trigger w[m][i1], w[m][i2]]
            0 <= m < BIN_MAX && 0 <= i1 < w[m].len() && 0 <= i2 < w[m].len() implies w[m][i2] as int
            != buddy_of(w[m][i1] as int, m, start) by {
            if m == k && i1 == n && i2 == n {
                lemma_buddy_differs(b, k, start);
            } else if m == k && i1 == n {
                assert(w[m][i2] == v[m][i2]);
                assert(!v[k].contains(d as usize));
                assert(v[k][i2] != d as usize);
            } else if m == k && i2 == n {
                let x = v[k][i1] as int;
                assert(valid_slot(v, k, i1));
                assert(aligned_within(x, k, start, end));
                lemma_buddy_symmetric(x, k as nat, start);
                if b == buddy_of(x, k, start) {
                    assert(d == x);
                    assert(v[k].contains(d as usize));
                }
            } else {
                assert(w[m][i1] == v[m][i1] && w[m][i2] == v[m][i2]);
            }
        }
    }
}

impl Allocator {
    /// The free lists, bin by bin.
    pub closed spec fn bins(&self) -> Seq<Seq<usize>> {
        views(self.bins@)
    }

    /// The first byte of the managed region.
    pub closed spec fn region_start(&self) -> usize {
        self.start
    }

    /// The end of the managed region, exclusive.
    pub closed spec fn region_end(&self) -> usize {
        self.end
    }

    /// Every free block lies in the region at a multiple of its own size
    /// from its start, in a bin `BIN_MIN..=BIN_MAX`, and no two free blocks
    /// overlap.
    pub open spec fn wf(&self) -> bool {
        &&& self.bins().len() == BINS
        &&& self.region_start() <= self.region_end()
        &&& placed(
            self.bins(),
            BIN_MIN as int,
            BIN_MAX as int,
            self.region_start() as int,
            self.region_end() as int,
        )
        &&& disjoint(self.bins())
    }

    /// The bytes that free blocks cover.
    pub open spec fn free(&self) -> Set<int> {
        free_bytes(self.bins())
    }

    /// Creates a new bin allocator that will allocate memory from the region
    /// starting at address `start` and ending at address `end`.
    ///
    /// The region is carved greedily from `start` on: each step places the
    /// largest block that still fits before `end`. A tail shorter than the
    /// smallest block stays unused.
    pub fn new(start: usize, end: usize) -> (a: Allocator)
        requires
            start <= end,
        ensures
            a.wf(),
            a.region_start() == start,
            a.region_end() == end,
            a.free() == interval(
                start as int,
                end - (end - start) % (pow2(BIN_MIN as nat) as int),
            ),
            forall|k: int| 0 <= k < BIN_MAX ==> #[trigger] a.bins()[k].len() <= 1,
            largest_first(a.bins()),
            forall|i: int|
                0 <= i < a.bins()[BIN_MAX as int].len() ==> #[trigger] a.bins()[BIN_MAX as int][i]
                    == start + i * pow2(BIN_MAX as nat),
            buddies_merged(a.bins(), start as int),
    {
        let mut bins: Vec<FreeList> = Vec::new();
        let mut n: usize = 0;
        while n < BINS
            invariant
                n <= BINS,
                bins@.len() == n,
                forall|k: int| 0 <= k < n ==> #[trigger] bins@[k]@ == Seq::<usize>::empty(),
            decreases BINS - n,
        {
            bins.push(FreeList::new());
            n = n + 1;
        }
        let mut current = start;
        proof {
            let v = views(bins@);
            assert forall|k: int| 0 <= k < BINS implies #[trigger] v[k] == Seq::<usize>::empty() by {
                assert(v[k] == bins@[k]@);
            }
            assert(free_bytes(v) =~= interval(start as int, start as int));
            lemma_pow2_pos(BIN_MIN as nat);
            lemma_small_mod(0, pow2(BIN_MIN as nat));
            assert forall|k: nat| BIN_MIN <= k <= BIN_MAX && #[trigger] pow2(k) <= end - current implies (
            current - start) % (pow2(k) as int) == 0 by {
                lemma_pow2_pos(k);
                lemma_small_mod(0, pow2(k));
            }
        }
        while current < end
            invariant
                carving(views(bins@), start as int, end as int, current as int),
                pow2(BIN_MIN as nat) > 0,
            ensures
                carving(views(bins@), start as int, end as int, current as int),
                end - current < pow2(BIN_MIN as nat),
            decreases end - current,
        {
            match Allocator::max_bin_fits_in_size(end - current) {
                Some(bin) => {
                    proof {
                        lemma_carve_step(views(bins@), start as int, end as int, current, bin as nat);
                        lemma_pow2_pos(bin as nat);
                    }
                    let ghost old_bins = bins@;
                    bins[bin].push(current);
                    proof {
                        assert(views(bins@) =~= views(old_bins).update(
                            bin as int,
                            views(old_bins)[bin as int].push(current),
                        ));
                    }
                    current = current + bin_size(bin);
                },
                None => break,
            }
        }
        proof {
            let p = pow2(BIN_MIN as nat) as int;
            lemma_pow2_pos(BIN_MIN as nat);
            let q = (current - start) / p;
            let r = end - current;
            lemma_fundamental_div_mod(current - start, p);
            lemma_mod_multiples_vanish(q, r, p);
            lemma_small_mod(r as nat, p as nat);
            assert(end - start == p * q + r);
            let v = views(bins@);
            assert forall|k: int, i1: int, i2: int|
                #![trigger v[k][i1], v[k][i2]]
                0 <= k < BIN_MAX && 0 <= i1 < v[k].len() && 0 <= i2 < v[k].len() implies v[k][i2] as int
                != buddy_of(v[k][i1] as int, k, start as int) by {
                assert(v[k].len() <= 1);
                lemma_buddy_differs(v[k][i1] as int, k, start as int);
            }
        }
        Allocator { bins, start, end }
    }

    /// Whether `layout` is a request this allocator accepts: a power-of-two
    /// alignment and a size above zero.
    pub open spec fn supported(layout: Layout) -> bool {
        power_of_two(layout.align as nat) && layout.size > 0
    }

    /// The bin that serves `layout` here, or `None` when that bin would lie
    /// above `BIN_MAX`. The bin's blocks hold `size` bytes from their start
    /// rounded up to `align`.
    pub fn bin_for(&self, layout: Layout) -> (r: Option<usize>)
        requires
            power_of_two(layout.align as nat),
        ensures
            r matches Some(k) ==> k == alloc_bin(self.region_start() as int, layout) && k <= BIN_MAX,
            r is None ==> alloc_bin(self.region_start() as int, layout) > BIN_MAX,
    {
        let align = layout.align();
        proof {
            let e = choose|e: nat| pow2(e) == layout.align as nat;
            lemma_pow2_pos(e);
        }
        let rem = self.start % align;
        let slack = if rem == 0 {
            0
        } else {
            align - rem
        };
        assert(slack == crate::sizes::slack(self.start as int, align as int));
        match layout.size().checked_add(slack) {
            Some(need) => fit_bin(need, align),
            None => {
                proof {
                    let need = (layout.size + slack) as nat;
                    let k = request_bin(need, align as nat);
                    crate::sizes::lemma_log2_ceil(need);
                    if crate::sizes::log2_ceil(need) <= BIN_MAX {
                        lemma_pow2_le(crate::sizes::log2_ceil(need), BIN_MAX as nat);
                        vstd::arithmetic::power2::lemma2_to64();
                    }
                }
                None
            },
        }
    }

    /// Allocates memory. Returns an address meeting the size and alignment
    /// properties of `layout.size()` and `layout.align()`.
    ///
    /// The request is served by a block of bin `k = alloc_bin(start, layout)`:
    /// the least bin whose blocks hold `size` bytes from their start rounded
    /// up to `align`. When bin `k` is empty the lowest non-empty bin above it
    /// has its top block split down to bin `k`. The address handed out is
    /// that block's start rounded up to `align`.
    ///
    /// # Errors
    ///
    /// `Unsupported` when `align` is not a power of two or `size` is zero;
    /// `Exhausted` when `k` lies above `BIN_MAX` or no bin from `k` up holds a
    /// block. An error leaves the bins as they were.
    pub fn allocate(&mut self, layout: Layout) -> (r: Result<usize, AllocErr>)
        requires
            old(self).wf(),
        ensures
            final(self).wf(),
            final(self).region_start() == old(self).region_start(),
            final(self).region_end() == old(self).region_end(),
            r == alloc_result(old(self).bins(), old(self).region_start() as int, layout),
            final(self).bins() == alloc_bins(old(self).bins(), old(self).region_start() as int, layout),
            buddies_merged(old(self).bins(), old(self).region_start() as int) ==> buddies_merged(
                final(self).bins(),
                final(self).region_start() as int,
            ),
            r is Ok ==> ({
                let k = alloc_bin(old(self).region_start() as int, layout) as int;
                let b = alloc_block(old(self).bins(), old(self).region_start() as int, layout) as int;
                &&& b <= r->Ok_0
                &&& r->Ok_0 + layout.size <= b + pow2(k as nat)
                &&& r->Ok_0 % layout.align == 0
                &&& final(self).free() == old(self).free().difference(block_bytes(b, k))
                &&& total_free(final(self).bins()) == total_free(old(self).bins()) - pow2(k as nat)
            }),
            r is Err ==> final(self).bins() == old(self).bins(),
    {
        if !is_power_of_two(layout.align()) {
            return Err(AllocErr::Unsupported { details: "layout alignment must be 2^n" });
        }
        if layout.size() == 0 {
            return Err(AllocErr::Unsupported { details: "allocating size cannot be equal 0" });
        }
        let fit = match self.bin_for(layout) {
            Some(k) => k,
            None => {
                return Err(AllocErr::Exhausted { request: layout });
            },
        };
        let ghost v = self.bins();
        let mut bin = fit;
        while bin <= BIN_MAX && self.bins[bin].is_empty()
            invariant
                self.bins() == v,
                self.bins@.len() == BINS,
                fit <= bin <= BINS,
                lowest_nonempty(v, fit as int) == lowest_nonempty(v, bin as int),
            decreases BINS - bin,
        {
            assert(self.bins[bin as int]@ == v[bin as int]);
            bin = bin + 1;
        }
        if bin > BIN_MAX {
            return Err(AllocErr::Exhausted { request: layout });
        }
        let ghost j = bin as int;
        assert(self.bins[bin as int]@ == v[bin as int]);
        assert(lowest_nonempty(v, bin as int) == j);
        while bin > fit
            invariant
                self.wf(),
                self.region_start() == old(self).region_start(),
                self.region_end() == old(self).region_end(),
                BIN_MIN <= fit <= bin <= j <= BIN_MAX,
                v[j].len() > 0,
                self.bins() == split_down(v, j, bin as int),
                self.free() == free_bytes(v),
                total_free(self.bins()) == total_free(v),
            decreases bin,
        {
            proof {
                lemma_split_down_step(v, j, bin as int);
            }
            self.split_bin(bin);
            bin = bin - 1;
        }
        proof {
            lemma_granted(v, j, fit as int);
            lemma_alloc(v, layout, self.start as int, self.end as int);
            let e = choose|e: nat| pow2(e) == layout.align as nat;
            lemma_pow2_pos(e);
        }
        let ghost w = self.bins();
        let addr = self.bins[fit].pop().unwrap();
        proof {
            let n = w[fit as int].len() - 1;
            assert(valid_slot(w, fit as int, n));
            assert(w[fit as int].remove(n) =~= w[fit as int].drop_last());
            assert(self.bins() =~= w.update(fit as int, w[fit as int].remove(n)));
            lemma_remove_free(w, fit as int, n);
            lemma_remove_keeps(w, fit as int, n, BIN_MIN as int, BIN_MAX as int, self.start as int, self.end as int);
            lemma_total_update(w, fit as int, w[fit as int].remove(n), BINS as int);
            assert((w[fit as int].remove(n).len() - w[fit as int].len()) * pow2(fit as nat) == -pow2(fit as nat)) by (nonlinear_arith)
                requires
                    w[fit as int].remove(n).len() == w[fit as int].len() - 1,
            ;
            if buddies_merged(v, self.start as int) {
                lemma_granted_merged(v, layout, self.start as int);
            }
        }
        Ok(align_up(addr, layout.align()))
    }

    /// Splits the top block of `bin` into its two halves in `bin - 1`.
    fn split_bin(&mut self, bin: usize)
        requires
            old(self).wf(),
            BIN_MIN < bin <= BIN_MAX,
            old(self).bins()[bin as int].len() > 0,
        ensures
            final(self).wf(),
            final(self).region_start() == old(self).region_start(),
            final(self).region_end() == old(self).region_end(),
            final(self).bins() == split(old(self).bins(), bin as int),
            final(self).free() == old(self).free(),
            total_free(final(self).bins()) == total_free(old(self).bins()),
            ({
                let b = old(self).bins()[bin as int].last() as int;
                let start = old(self).region_start() as int;
                &&& buddy_of(b, bin - 1, start) == b + pow2((bin - 1) as nat)
                &&& buddy_of(b + pow2((bin - 1) as nat), bin - 1, start) == b
            }),
    {
        let ghost v = self.bins();
        proof {
            lemma_split(v, bin as int, self.start as int, self.end as int);
            let n = v[bin as int].len() - 1;
            assert(valid_slot(v, bin as int, n));
            lemma_halves_are_buddies(v[bin as int][n] as int, bin as nat, self.start as int);
        }
        let addr = self.bins[bin].pop().unwrap();
        let smaller_bin = bin - 1;
        let buddy_addr = addr + bin_size(smaller_bin);
        self.bins[smaller_bin].push(buddy_addr);
        self.bins[smaller_bin].push(addr);
        proof {
            assert(self.bins() =~= split(v, bin as int));
        }
    }

    /// Removes the buddy of the block of `bin` at `bin_addr` from `bin` if it
    /// is free, and returns the start of the merged block.
    fn merge_if_buddy_is_empty(&mut self, bin: usize, bin_addr: usize) -> (r: Option<usize>)
        requires
            old(self).wf(),
            bin < BIN_MAX,
            aligned_within(
                bin_addr as int,
                bin as int,
                old(self).region_start() as int,
                old(self).region_end() as int,
            ),
        ensures
            final(self).wf(),
            final(self).region_start() == old(self).region_start(),
            final(self).region_end() == old(self).region_end(),
            ({
                let start = old(self).region_start() as int;
                let d = buddy_of(bin_addr as int, bin as int, start);
                let m = if d < bin_addr {
                    d
                } else {
                    bin_addr as int
                };
                &&& 0 <= d <= usize::MAX
                &&& if old(self).bins()[bin as int].contains(d as usize) {
                    &&& r == Some(m as usize)
                    &&& final(self).bins() == old(self).bins().update(
                        bin as int,
                        old(self).bins()[bin as int].remove_value(d as usize),
                    )
                    &&& aligned_within(m, bin + 1, start, old(self).region_end() as int)
                    &&& block_bytes(m, bin + 1) == block_bytes(bin_addr as int, bin as int).union(
                        block_bytes(d, bin as int),
                    )
                } else {
                    &&& r is None
                    &&& final(self).bins() == old(self).bins()
                }
            }),
            // When the block itself is free memory that is not listed, the
            // merged block is what coalescing continues with.
            BIN_MIN <= bin && block_bytes(bin_addr as int, bin as int).disjoint(old(self).free())
                && r is Some ==> ({
                let m = r->Some_0 as int;
                &&& block_bytes(m, bin + 1).disjoint(final(self).free())
                &&& final(self).free().union(block_bytes(m, bin + 1)) == old(self).free().union(
                    block_bytes(bin_addr as int, bin as int),
                )
                &&& total_free(final(self).bins()) + pow2((bin + 1) as nat) == total_free(
                    old(self).bins(),
                ) + pow2(bin as nat)
            }),
    {
        let ghost v = self.bins();
        let size = bin_size(bin);
        proof {
            lemma_pow2_pos(bin as nat);
            lemma_buddy(bin_addr as int, bin as nat, self.start as int);
        }
        let buddy_addr = if ((bin_addr - self.start) / size) % 2 == 0 {
            // Left block: the buddy lies to the right.
            bin_addr + size
        } else {
            // Right block: the buddy lies to the left.
            bin_addr - size
        };
        assert(self.bins[bin as int]@ == v[bin as int]);
        match self.bins[bin].find(buddy_addr) {
            Some(i) => {
                proof {
                    assert(valid_slot(v, bin as int, i as int));
                    let d = buddy_of(bin_addr as int, bin as int, self.start as int);
                    assert(aligned_within(d, bin as int, self.start as int, self.end as int));
                    lemma_pow2_unfold((bin + 1) as nat);
                    let m = if d < bin_addr {
                        d
                    } else {
                        bin_addr as int
                    };
                    assert(block_bytes(m, bin + 1) =~= block_bytes(bin_addr as int, bin as int).union(
                        block_bytes(d, bin as int),
                    ));
                    lemma_no_duplicates(v, bin as int, i as int);
                    lemma_remove_keeps(
                        v,
                        bin as int,
                        i as int,
                        BIN_MIN as int,
                        BIN_MAX as int,
                        self.start as int,
                        self.end as int,
                    );
                    if BIN_MIN <= bin && block_bytes(bin_addr as int, bin as int).disjoint(
                        free_bytes(v),
                    ) {
                        lemma_merge_step(
                            v,
                            bin as int,
                            bin_addr as int,
                            i as int,
                            self.start as int,
                            self.end as int,
                        );
                    }
                }
                self.bins[bin].remove(i);
                proof {
                    assert(self.bins() =~= v.update(bin as int, v[bin as int].remove(i as int)));
                }
                if bin_addr < buddy_addr {
                    Some(bin_addr)
                } else {
                    Some(buddy_addr)
                }
            },
            None => None,
        }
    }

    /// Deallocates the memory at `ptr`, handed out by `allocate` for
    /// `layout`.
    ///
    /// The block of bin `k = alloc_bin(start, layout)`, the bin `allocate`
    /// serves `layout` from, that holds `ptr` is
    /// found by rounding `ptr` down to a multiple of `2^k` from the region's
    /// start. While the block's buddy is free and the block lies below
    /// `BIN_MAX`, the two merge one bin up; the block then joins its bin.
    ///
    /// The caller passes a pointer and layout that `allocate` returned and
    /// took together, not freed since: the requirements below state what
    /// this means for the bins. Nothing is checked at run time.
    pub fn dealloc(&mut self, ptr: usize, layout: Layout)
        requires
            old(self).wf(),
            Self::supported(layout),
            alloc_bin(old(self).region_start() as int, layout) <= BIN_MAX,
            old(self).region_start() <= ptr,
            ({
                let k = alloc_bin(old(self).region_start() as int, layout);
                let start = old(self).region_start() as int;
                let b = ptr - (ptr - start) % (pow2(k) as int);
                &&& b + pow2(k) <= old(self).region_end()
                &&& block_bytes(b, k as int).disjoint(old(self).free())
            }),
        ensures
            final(self).wf(),
            final(self).region_start() == old(self).region_start(),
            final(self).region_end() == old(self).region_end(),
            ({
                let k = alloc_bin(old(self).region_start() as int, layout);
                let start = old(self).region_start() as int;
                let b = ptr - (ptr - start) % (pow2(k) as int);
                &&& final(self).bins() == coalesce(old(self).bins(), k as int, b, start)
                &&& final(self).free() == old(self).free().union(block_bytes(b, k as int))
                &&& total_free(final(self).bins()) == total_free(old(self).bins()) + pow2(k)
            }),
            buddies_merged(old(self).bins(), old(self).region_start() as int) ==> buddies_merged(
                final(self).bins(),
                final(self).region_start() as int,
            ),
    {
        let fit = self.bin_for(layout).unwrap();
        let distance_to_start = ptr - self.start;
        proof {
            lemma_pow2_pos(fit as nat);
        }
        let shift_to_bin_start = distance_to_start % bin_size(fit);
        proof {
            lemma_mod_decreases(distance_to_start as nat, pow2(fit as nat));
        }
        let bin_addr = ptr - shift_to_bin_start;
        let ghost v = self.bins();
        let ghost start = self.start as int;
        proof {
            let p = pow2(fit as nat) as int;
            lemma_pow2_pos(fit as nat);
            lemma_fundamental_div_mod(distance_to_start as int, p);
            lemma_mod_multiples_basic(distance_to_start as int / p, p);
            assert(bin_addr - start == p * (distance_to_start as int / p));
            assert(bin_addr - start == (distance_to_start as int / p) * p) by (nonlinear_arith)
                requires
                    bin_addr - start == p * (distance_to_start as int / p),
            ;
        }
        let mut bin = fit;
        let mut next_addr = bin_addr;
        while bin < BIN_MAX
            invariant
                self.wf(),
                self.region_start() == old(self).region_start(),
                self.region_end() == old(self).region_end(),
                start == self.start,
                BIN_MIN <= fit <= bin <= BIN_MAX,
                aligned_within(next_addr as int, bin as int, start, self.end as int),
                block_bytes(next_addr as int, bin as int).disjoint(self.free()),
                coalesce(self.bins(), bin as int, next_addr as int, start) == coalesce(
                    v,
                    fit as int,
                    bin_addr as int,
                    start,
                ),
            ensures
                self.wf(),
                self.region_start() == old(self).region_start(),
                self.region_end() == old(self).region_end(),
                BIN_MIN <= bin <= BIN_MAX,
                coalesce(self.bins(), bin as int, next_addr as int, start) == self.bins().update(
                    bin as int,
                    self.bins()[bin as int].push(next_addr),
                ),
                coalesce(self.bins(), bin as int, next_addr as int, start) == coalesce(
                    v,
                    fit as int,
                    bin_addr as int,
                    start,
                ),
            decreases BIN_MAX - bin,
        {
            let ghost w = self.bins();
            let ghost a = next_addr as int;
            match self.merge_if_buddy_is_empty(bin, next_addr) {
                Some(addr) => {
                    proof {
                        let d = buddy_of(a, bin as int, start);
                        assert(w[bin as int].contains(d as usize));
                    }
                    next_addr = addr;
                    bin = bin + 1;
                },
                None => {
                    break;
                },
            }
        }
        let ghost w = self.bins();
        self.bins[bin].push(next_addr);
        proof {
            assert(self.bins() =~= w.update(bin as int, w[bin as int].push(next_addr)));
            lemma_coalesce(v, fit as int, bin_addr as int, start, self.end as int);
            if buddies_merged(v, start) {
                lemma_coalesce_merged(v, fit as int, bin_addr as int, start, self.end as int);
            }
        }
    }

    /// The start addresses of the free blocks of `bin`, head first: the
    /// first one is the next that bin hands out.
    pub fn free_blocks(&self, bin: usize) -> (r: Vec<usize>)
        requires
            self.wf(),
            bin < BINS,
        ensures
            r@ == self.bins()[bin as int].reverse(),
    {
        self.bins[bin].to_vec()
    }

    /// The first byte of the managed region.
    pub fn start(&self) -> (s: usize)
        ensures
            s == self.region_start(),
    {
        self.start
    }

    /// The end of the managed region, exclusive.
    pub fn end(&self) -> (e: usize)
        ensures
            e == self.region_end(),
    {
        self.end
    }

    /// The largest bin whose block fits in `size` bytes.
    fn max_bin_fits_in_size(size: usize) -> (r: Option<usize>)
        ensures
            r matches Some(k) ==> BIN_MIN <= k <= BIN_MAX && pow2(k as nat) <= size && (k
                < BIN_MAX ==> size < pow2((k + 1) as nat)),
            r is None ==> size < pow2(BIN_MIN as nat),
    {
        let mut bin: usize = BIN_MAX;
        while bin >= BIN_MIN
            invariant
                BIN_MIN - 1 <= bin <= BIN_MAX,
                forall|k: nat| bin < k <= BIN_MAX ==> size < #[trigger] pow2(k),
            decreases bin,
        {
            if size >= bin_size(bin) {
                return Some(bin);
            }
            bin = bin - 1;
        }
        None
    }
}

} // verus!
