//! The mathematical model of a bin table: bin `k` is a sequence of block
//! start addresses, each block `2^k` bytes long.
use vstd::arithmetic::power2::{lemma_pow2_pos, pow2};
use vstd::prelude::*;

verus! {

/// Byte `a` lies in the block of size `2^k` that starts at `b`.
pub open spec fn in_block(a: int, b: int, k: int) -> bool {
    b <= a < b + pow2(k as nat)
}

/// The bytes of the block of size `2^k` that starts at `b`.
pub open spec fn block_bytes(b: int, k: int) -> Set<int> {
    Set::new(|a: int| in_block(a, b, k))
}

/// `i` indexes a block of bin `k`.
pub open spec fn valid_slot(bins: Seq<Seq<usize>>, k: int, i: int) -> bool {
    0 <= k < bins.len() && 0 <= i < bins[k].len()
}

/// Byte `a` lies in some free block.
pub open spec fn is_free(bins: Seq<Seq<usize>>, a: int) -> bool {
    exists|k: int, i: int| valid_slot(bins, k, i) && #[trigger] in_block(a, bins[k][i] as int, k)
}

/// Every byte that some free block covers.
pub open spec fn free_bytes(bins: Seq<Seq<usize>>) -> Set<int> {
    Set::new(|a: int| is_free(bins, a))
}

/// The blocks at two slots do not overlap.
pub open spec fn apart(b1: int, k1: int, b2: int, k2: int) -> bool {
    b1 + pow2(k1 as nat) <= b2 || b2 + pow2(k2 as nat) <= b1
}

/// No two free blocks overlap (a block is not listed twice either).
pub open spec fn disjoint(bins: Seq<Seq<usize>>) -> bool {
    forall|k1: int, i1: int, k2: int, i2: int|
        #![trigger bins[k1][i1], bins[k2][i2]]
        valid_slot(bins, k1, i1) && valid_slot(bins, k2, i2) && (k1 != k2 || i1 != i2) ==> apart(
            bins[k1][i1] as int,
            k1,
            bins[k2][i2] as int,
            k2,
        )
}

/// A block of size `2^k` at `b` lies in `[start, end)` and starts at a
/// multiple of its size counted from `start`.
pub open spec fn aligned_within(b: int, k: int, start: int, end: int) -> bool {
    &&& start <= b
    &&& b + pow2(k as nat) <= end
    &&& (b - start) % (pow2(k as nat) as int) == 0
}

/// Every block of bin `k` is placed as `aligned_within` says, and only bins
/// `lo..=hi` hold blocks.
pub open spec fn placed(bins: Seq<Seq<usize>>, lo: int, hi: int, start: int, end: int) -> bool {
    forall|k: int, i: int|
        #![trigger bins[k][i]]
        valid_slot(bins, k, i) ==> lo <= k <= hi && aligned_within(bins[k][i] as int, k, start, end)
}

/// The bytes held by bins `0..n`.
pub open spec fn total(bins: Seq<Seq<usize>>, n: int) -> int
    decreases n,
{
    if n <= 0 {
        0
    } else {
        total(bins, n - 1) + bins[n - 1].len() * pow2((n - 1) as nat)
    }
}

/// The bytes held by all bins.
pub open spec fn total_free(bins: Seq<Seq<usize>>) -> int {
    total(bins, bins.len() as int)
}

/// Two blocks overlap exactly when a byte lies in both.
pub proof fn lemma_apart_iff(b1: int, k1: int, b2: int, k2: int)
    ensures
        apart(b1, k1, b2, k2) <==> block_bytes(b1, k1).disjoint(block_bytes(b2, k2)),
{
    lemma_pow2_pos(k1 as nat);
    lemma_pow2_pos(k2 as nat);
    if !apart(b1, k1, b2, k2) {
        let a = if b1 <= b2 {
            b2
        } else {
            b1
        };
        assert(block_bytes(b1, k1).contains(a) && block_bytes(b2, k2).contains(a));
    }
}

/// Pushing a block onto bin `k` adds its bytes to the free bytes.
pub proof fn lemma_push_free(bins: Seq<Seq<usize>>, k: int, b: usize)
    requires
        0 <= k < bins.len(),
    ensures
        free_bytes(bins.update(k, bins[k].push(b))) == free_bytes(bins).union(
            block_bytes(b as int, k),
        ),
{
    let nb = bins.update(k, bins[k].push(b));
    assert forall|a: int| is_free(nb, a) <==> (is_free(bins, a) || in_block(a, b as int, k)) by {
        if is_free(nb, a) {
            let (k2, i2) = choose|k2: int, i2: int|
                valid_slot(nb, k2, i2) && #[trigger] in_block(a, nb[k2][i2] as int, k2);
            if k2 != k || i2 != bins[k].len() {
                assert(nb[k2][i2] == bins[k2][i2]);
                assert(valid_slot(bins, k2, i2));
            }
        }
        if is_free(bins, a) {
            let (k2, i2) = choose|k2: int, i2: int|
                valid_slot(bins, k2, i2) && #[trigger] in_block(a, bins[k2][i2] as int, k2);
            assert(nb[k2][i2] == bins[k2][i2]);
            assert(valid_slot(nb, k2, i2));
        }
        if in_block(a, b as int, k) {
            assert(nb[k][bins[k].len() as int] == b);
            assert(valid_slot(nb, k, bins[k].len() as int));
        }
    }
    assert(free_bytes(nb) =~= free_bytes(bins).union(block_bytes(b as int, k)));
}

/// A block whose bytes are not free can be pushed without overlapping.
pub proof fn lemma_push_disjoint(bins: Seq<Seq<usize>>, k: int, b: usize)
    requires
        0 <= k < bins.len(),
        disjoint(bins),
        block_bytes(b as int, k).disjoint(free_bytes(bins)),
    ensures
        disjoint(bins.update(k, bins[k].push(b))),
{
    let nb = bins.update(k, bins[k].push(b));
    let n = bins[k].len() as int;
    assert forall|k2: int, i2: int| #[trigger]
        valid_slot(nb, k2, i2) && (k2 != k || i2 != n) implies apart(
        b as int,
        k,
        nb[k2][i2] as int,
        k2,
    ) by {
        assert(nb[k2][i2] == bins[k2][i2]);
        assert(valid_slot(bins, k2, i2));
        lemma_apart_iff(b as int, k, nb[k2][i2] as int, k2);
        if !apart(b as int, k, nb[k2][i2] as int, k2) {
            let a = choose|a: int|
                block_bytes(b as int, k).contains(a) && block_bytes(
                    nb[k2][i2] as int,
                    k2,
                ).contains(a);
            assert(in_block(a, bins[k2][i2] as int, k2));
            assert(free_bytes(bins).contains(a));
        }
    }
    assert forall|k1: int, i1: int, k2: int, i2: int|
        #![trigger nb[k1][i1], nb[k2][i2]]
        valid_slot(nb, k1, i1) && valid_slot(nb, k2, i2) && (k1 != k2 || i1 != i2) implies apart(
        nb[k1][i1] as int,
        k1,
        nb[k2][i2] as int,
        k2,
    ) by {
        if k1 == k && i1 == n {
            assert(valid_slot(nb, k2, i2));
        } else if k2 == k && i2 == n {
            assert(valid_slot(nb, k1, i1));
        } else {
            assert(nb[k1][i1] == bins[k1][i1]);
            assert(nb[k2][i2] == bins[k2][i2]);
            assert(valid_slot(bins, k1, i1) && valid_slot(bins, k2, i2));
        }
    }
}

/// Where the block at slot `(k2, i2)` of `bins` stands once slot `(k, i)`
/// has been removed.
pub open spec fn shifted(k: int, i: int, k2: int, i2: int) -> int {
    if k2 == k && i2 > i {
        i2 - 1
    } else {
        i2
    }
}

/// Removing the block at slot `(k, i)` takes its bytes out of the free bytes.
pub proof fn lemma_remove_free(bins: Seq<Seq<usize>>, k: int, i: int)
    requires
        valid_slot(bins, k, i),
        disjoint(bins),
    ensures
        free_bytes(bins.update(k, bins[k].remove(i))) == free_bytes(bins).difference(
            block_bytes(bins[k][i] as int, k),
        ),
{
    let nb = bins.update(k, bins[k].remove(i));
    let rb = bins[k][i] as int;
    assert forall|a: int| is_free(nb, a) <==> (is_free(bins, a) && !in_block(a, rb, k)) by {
        if is_free(nb, a) {
            let (k2, i2) = choose|k2: int, i2: int|
                valid_slot(nb, k2, i2) && #[trigger] in_block(a, nb[k2][i2] as int, k2);
            let j2 = if k2 == k && i2 >= i {
                i2 + 1
            } else {
                i2
            };
            assert(nb[k2][i2] == bins[k2][j2]);
            assert(valid_slot(bins, k2, j2));
            assert(apart(bins[k2][j2] as int, k2, rb, k));
        }
        if is_free(bins, a) && !in_block(a, rb, k) {
            let (k2, i2) = choose|k2: int, i2: int|
                valid_slot(bins, k2, i2) && #[trigger] in_block(a, bins[k2][i2] as int, k2);
            let j2 = shifted(k, i, k2, i2);
            assert(k2 != k || i2 != i);
            assert(nb[k2][j2] == bins[k2][i2]);
            assert(valid_slot(nb, k2, j2));
        }
    }
    assert(free_bytes(nb) =~= free_bytes(bins).difference(block_bytes(rb, k)));
}

/// Removing a block keeps the others apart and placed.
pub proof fn lemma_remove_keeps(
    bins: Seq<Seq<usize>>,
    k: int,
    i: int,
    lo: int,
    hi: int,
    start: int,
    end: int,
)
    requires
        valid_slot(bins, k, i),
    ensures
        disjoint(bins) ==> disjoint(bins.update(k, bins[k].remove(i))),
        placed(bins, lo, hi, start, end) ==> placed(
            bins.update(k, bins[k].remove(i)),
            lo,
            hi,
            start,
            end,
        ),
{
    let nb = bins.update(k, bins[k].remove(i));
    assert forall|k2: int, i2: int| #[trigger] valid_slot(nb, k2, i2) implies valid_slot(
        bins,
        k2,
        if k2 == k && i2 >= i {
            i2 + 1
        } else {
            i2
        },
    ) && nb[k2][i2] == bins[k2][if k2 == k && i2 >= i {
        i2 + 1
    } else {
        i2
    }] by {}
    if disjoint(bins) {
        assert forall|k1: int, i1: int, k2: int, i2: int|
            #![trigger nb[k1][i1], nb[k2][i2]]
            valid_slot(nb, k1, i1) && valid_slot(nb, k2, i2) && (k1 != k2 || i1 != i2) implies apart(
            nb[k1][i1] as int,
            k1,
            nb[k2][i2] as int,
            k2,
        ) by {
            let j1 = if k1 == k && i1 >= i {
                i1 + 1
            } else {
                i1
            };
            let j2 = if k2 == k && i2 >= i {
                i2 + 1
            } else {
                i2
            };
            assert(valid_slot(nb, k1, i1) && valid_slot(nb, k2, i2));
            assert(bins[k1][j1] == nb[k1][i1]);
            assert(bins[k2][j2] == nb[k2][i2]);
        }
    }
    if placed(bins, lo, hi, start, end) {
        assert forall|k2: int, i2: int| #[trigger] valid_slot(nb, k2, i2) implies lo <= k2 <= hi
            && aligned_within(nb[k2][i2] as int, k2, start, end) by {
            let j2 = if k2 == k && i2 >= i {
                i2 + 1
            } else {
                i2
            };
            assert(bins[k2][j2] == nb[k2][i2]);
        }
    }
}

/// Pushing a placed block keeps the bins placed.
pub proof fn lemma_push_placed(
    bins: Seq<Seq<usize>>,
    k: int,
    b: usize,
    lo: int,
    hi: int,
    start: int,
    end: int,
)
    requires
        0 <= k < bins.len(),
        lo <= k <= hi,
        aligned_within(b as int, k, start, end),
        placed(bins, lo, hi, start, end),
    ensures
        placed(bins.update(k, bins[k].push(b)), lo, hi, start, end),
{
    let nb = bins.update(k, bins[k].push(b));
    assert forall|k2: int, i2: int| #[trigger] valid_slot(nb, k2, i2) implies lo <= k2 <= hi
        && aligned_within(nb[k2][i2] as int, k2, start, end) by {
        if k2 != k || i2 != bins[k].len() {
            assert(nb[k2][i2] == bins[k2][i2]);
            assert(valid_slot(bins, k2, i2));
        }
    }
}

/// Replacing bin `k` changes the total by the change in its length times
/// its block size.
pub proof fn lemma_total_update(bins: Seq<Seq<usize>>, k: int, s: Seq<usize>, n: int)
    requires
        0 <= k < bins.len(),
        0 <= n <= bins.len(),
    ensures
        total(bins.update(k, s), n) == total(bins, n) + (if k < n {
            (s.len() - bins[k].len()) * pow2(k as nat)
        } else {
            0
        }),
    decreases n,
{
    let nb = bins.update(k, s);
    if n > 0 {
        lemma_total_update(bins, k, s, n - 1);
        if n - 1 == k {
            let p = pow2(k as nat) as int;
            assert(s.len() * p == bins[k].len() * p + (s.len() - bins[k].len()) * p)
                by (nonlinear_arith);
        } else {
            assert(nb[n - 1] == bins[n - 1]);
        }
    }
}

} // verus!
