//! Size classes: block sizes are powers of two, named by their exponent.
use vstd::arithmetic::div_mod::{
    lemma_add_mod_noop, lemma_fundamental_div_mod, lemma_mod_bound, lemma_mod_mod,
    lemma_mod_multiples_basic, lemma_small_mod, lemma_sub_mod_noop,
};
use vstd::arithmetic::mul::lemma_mul_is_commutative;
use vstd::arithmetic::power2::{
    lemma2_to64, lemma_pow2_adds, lemma_pow2_pos, lemma_pow2_strictly_increases,
    lemma_pow2_unfold, pow2,
};
use vstd::bits::{lemma_usize_pow2_no_overflow, lemma_usize_shl_is_mul};
use vstd::prelude::*;

verus! {

/// The smallest block exponent: a block of `2^3` bytes holds one list link.
pub const BIN_MIN: usize = 3;

/// The largest block exponent: `2^29` bytes, 512 MiB.
pub const BIN_MAX: usize = 29;

/// The number of bins, one per exponent `0..=BIN_MAX`.
pub const BINS: usize = 30;

/// `x` is `2^e` for some `e`.
pub open spec fn power_of_two(x: nat) -> bool {
    exists|e: nat| pow2(e) == x
}

/// The least `e` with `2^e >= x`.
pub open spec fn log2_ceil(x: nat) -> nat
    decreases x,
{
    if x <= 1 {
        0
    } else {
        1 + log2_ceil(((x + 1) / 2) as nat)
    }
}

/// The bin that serves a request: the least exponent `k >= BIN_MIN` whose
/// block holds `size` bytes and is a multiple of `align`.
pub open spec fn request_bin(size: nat, align: nat) -> nat {
    let a = log2_ceil(size);
    let b = log2_ceil(align);
    let m = if a >= b {
        a
    } else {
        b
    };
    if m >= BIN_MIN {
        m
    } else {
        BIN_MIN as nat
    }
}

/// `a` rounded up to a multiple of `align`.
pub open spec fn round_up(a: int, align: int) -> int {
    if a % align == 0 {
        a
    } else {
        a + align - a % align
    }
}

/// How far `start` lies below the next multiple of `align`: what rounding
/// any address that `start` leaves the same remainder adds.
pub open spec fn slack(start: int, align: int) -> int {
    round_up(start, align) - start
}

/// Rounding up to a multiple of `align` moves less than `align` and lands
/// on a multiple.
pub proof fn lemma_round_up(b: int, align: int)
    requires
        align > 0,
    ensures
        round_up(b, align) % align == 0,
        b <= round_up(b, align) < b + align,
        b % align == 0 ==> round_up(b, align) == b,
{
    lemma_fundamental_div_mod(b, align);
    lemma_mod_bound(b, align);
    let q = b / align;
    if b % align != 0 {
        assert(round_up(b, align) == (q + 1) * align) by (nonlinear_arith)
            requires
                b == align * q + b % align,
                round_up(b, align) == b + align - b % align,
        ;
        lemma_mod_multiples_basic(q + 1, align);
    }
}

/// An address at a multiple of `align` from `start` rounds up by `start`'s
/// slack.
pub proof fn lemma_slack(b: int, start: int, align: int)
    requires
        align > 0,
        (b - start) % align == 0,
    ensures
        round_up(b, align) == b + slack(start, align),
        0 <= slack(start, align) < align,
        round_up(b, align) % align == 0,
{
    lemma_round_up(b, align);
    lemma_round_up(start, align);
    lemma_add_mod_noop(b - start, start, align);
    lemma_mod_bound(start, align);
    lemma_small_mod((start % align) as nat, align as nat);
    assert(b % align == start % align);
}

/// `2^a <= 2^b` when `a <= b`.
pub proof fn lemma_pow2_le(a: nat, b: nat)
    requires
        a <= b,
    ensures
        pow2(a) <= pow2(b),
{
    if a < b {
        lemma_pow2_strictly_increases(a, b);
    }
}

/// `2^e` is the least power of two that reaches `x`.
pub proof fn lemma_log2_ceil(x: nat)
    ensures
        pow2(log2_ceil(x)) >= x,
        forall|e: nat| #[trigger] pow2(e) >= x ==> e >= log2_ceil(x),
    decreases x,
{
    lemma2_to64();
    if x > 1 {
        let h = ((x + 1) / 2) as nat;
        lemma_log2_ceil(h);
        lemma_pow2_unfold(1 + log2_ceil(h));
        assert forall|e: nat| #[trigger] pow2(e) >= x implies e >= log2_ceil(x) by {
            if e == 0 {
                assert(pow2(0) == 1);
            } else {
                lemma_pow2_unfold(e);
                assert(pow2((e - 1) as nat) >= h);
            }
        }
    }
}

/// A block of bin `k` serves the request exactly when `k` is at least
/// `request_bin`.
pub proof fn lemma_request_bin(size: nat, align: nat, k: nat)
    requires
        k >= BIN_MIN,
    ensures
        (pow2(k) >= size && pow2(k) >= align) <==> k >= request_bin(size, align),
{
    lemma_log2_ceil(size);
    lemma_log2_ceil(align);
    if k >= log2_ceil(size) {
        lemma_pow2_le(log2_ceil(size), k);
    }
    if k >= log2_ceil(align) {
        lemma_pow2_le(log2_ceil(align), k);
    }
}

/// The exponent of a power of two is its `log2_ceil`.
pub proof fn lemma_log2_ceil_pow2(e: nat)
    ensures
        log2_ceil(pow2(e)) == e,
{
    lemma_log2_ceil(pow2(e));
    let l = log2_ceil(pow2(e));
    if l < e {
        lemma_pow2_strictly_increases(l, e);
    }
}

/// `2^j` divides `2^k` when `j <= k`.
pub proof fn lemma_pow2_divides(j: nat, k: nat)
    requires
        j <= k,
    ensures
        pow2(k) as int % pow2(j) as int == 0,
{
    lemma_pow2_pos(j);
    lemma_pow2_adds(j, (k - j) as nat);
    lemma_mul_is_commutative(pow2(j) as int, pow2((k - j) as nat) as int);
    lemma_mod_multiples_basic(pow2((k - j) as nat) as int, pow2(j) as int);
}

/// A multiple of `2^k` is a multiple of every smaller power of two.
pub proof fn lemma_aligned_down(x: int, j: nat, k: nat)
    requires
        j <= k,
        x % pow2(k) as int == 0,
    ensures
        x % pow2(j) as int == 0,
{
    let d = (k - j) as nat;
    lemma_pow2_pos(j);
    lemma_pow2_pos(d);
    lemma_pow2_adds(j, d);
    assert(j + d == k);
    assert(pow2(k) as int == pow2(j) as int * pow2(d) as int);
    lemma_mod_mod(x, pow2(j) as int, pow2(d) as int);
}

/// Adding or taking away `2^k` keeps a multiple of `2^j`, `j <= k`.
pub proof fn lemma_aligned_step(x: int, j: nat, k: nat)
    requires
        j <= k,
        x % pow2(j) as int == 0,
    ensures
        (x + pow2(k)) % pow2(j) as int == 0,
        (x - pow2(k)) % pow2(j) as int == 0,
{
    lemma_pow2_pos(j);
    lemma_pow2_divides(j, k);
    let m = pow2(j) as int;
    let p = pow2(k) as int;
    lemma_add_mod_noop(x, p, m);
    lemma_sub_mod_noop(x, p, m);
    assert(x % m + p % m == 0);
    assert((x % m - p % m) == 0);
}

/// The size of a block of bin `bin_num`: `2^bin_num` bytes.
pub fn bin_size(bin_num: usize) -> (r: usize)
    requires
        bin_num < usize::BITS,
    ensures
        r == pow2(bin_num as nat),
{
    proof {
        lemma_usize_pow2_no_overflow(bin_num as nat);
        lemma_usize_shl_is_mul(1, bin_num);
    }
    1usize << bin_num
}

/// Whether `x` is a power of two.
pub fn is_power_of_two(x: usize) -> (b: bool)
    ensures
        b == power_of_two(x as nat),
{
    let mut e: usize = 0;
    let mut p: usize = 1;
    proof {
        lemma2_to64();
    }
    while p < x
        invariant
            p == pow2(e as nat),
            p > 0,
            e < usize::BITS,
            forall|e2: nat| e2 < e ==> #[trigger] pow2(e2) < x,
        decreases x - p,
    {
        if p > x / 2 {
            proof {
                assert forall|e2: nat| pow2(e2) != x by {
                    if e2 > e {
                        lemma_pow2_strictly_increases(e as nat, e2);
                        lemma_pow2_unfold(e2);
                        lemma_pow2_le(e as nat, (e2 - 1) as nat);
                    } else if e2 < e {
                    }
                }
            }
            return false;
        }
        proof {
            lemma_pow2_unfold((e + 1) as nat);
            if e + 1 >= usize::BITS {
                lemma_pow2_le(usize::BITS as nat, (e + 1) as nat);
                lemma2_to64();
                assert(false);
            }
        }
        p = p * 2;
        e = e + 1;
    }
    if p == x {
        true
    } else {
        proof {
            assert forall|e2: nat| pow2(e2) != x by {
                if e2 > e {
                    lemma_pow2_strictly_increases(e as nat, e2);
                } else if e2 < e {
                }
            }
        }
        false
    }
}

/// The bin that serves a request for `size` bytes aligned to `align`, or
/// `None` when it would lie above `BIN_MAX`.
pub fn fit_bin(size: usize, align: usize) -> (r: Option<usize>)
    ensures
        r matches Some(k) ==> k == request_bin(size as nat, align as nat) && k <= BIN_MAX,
        r is None ==> request_bin(size as nat, align as nat) > BIN_MAX,
{
    let mut k: usize = BIN_MIN;
    while k <= BIN_MAX && (bin_size(k) < size || bin_size(k) < align)
        invariant
            BIN_MIN <= k <= BIN_MAX + 1,
            k <= request_bin(size as nat, align as nat),
        decreases BIN_MAX + 1 - k,
    {
        proof {
            lemma_request_bin(size as nat, align as nat, k as nat);
        }
        k = k + 1;
    }
    if k <= BIN_MAX {
        proof {
            lemma_request_bin(size as nat, align as nat, k as nat);
        }
        Some(k)
    } else {
        None
    }
}

/// `addr` rounded up to a multiple of `align`.
pub fn align_up(addr: usize, align: usize) -> (r: usize)
    requires
        align > 0,
        addr + align - 1 <= usize::MAX,
    ensures
        r == round_up(addr as int, align as int),
{
    let rem = addr % align;
    if rem == 0 {
        addr
    } else {
        addr + (align - rem)
    }
}

} // verus!
