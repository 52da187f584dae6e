//! A readable account of the allocator's bins.
use crate::allocator::Allocator;
use crate::sizes::{bin_size, BINS, BIN_MIN};
use crate::text::{decimal, push_decimal};
use vstd::arithmetic::power2::pow2;
use vstd::prelude::*;
use vstd::string::StringExecFns;

verus! {

/// The addresses `xs` in base 10, separated by `, `.
pub open spec fn decimal_list(xs: Seq<usize>) -> Seq<char>
    decreases xs.len(),
{
    if xs.len() == 0 {
        Seq::empty()
    } else if xs.len() == 1 {
        decimal(xs[0] as nat)
    } else {
        decimal_list(xs.drop_last()) + ", "@ + decimal(xs.last() as nat)
    }
}

/// The block size of bin `k`, in bytes, kibibytes or mebibytes.
pub open spec fn size_label(k: nat) -> Seq<char> {
    if k < 10 {
        decimal(pow2(k))
    } else if k < 20 {
        decimal(pow2((k - 10) as nat)) + "K"@
    } else {
        decimal(pow2((k - 20) as nat)) + "M"@
    }
}

/// The name of bin `k` with its block size; the bins below `BIN_MIN` are
/// marked as always empty.
pub open spec fn bin_label(k: nat) -> Seq<char> {
    "bin"@ + decimal(k) + " ("@ + (if k < BIN_MIN {
        "must be empty"@
    } else {
        size_label(k)
    }) + ")"@
}

/// Bin `k` and its free blocks `xs`, head first.
pub open spec fn bin_entry(k: nat, xs: Seq<usize>) -> Seq<char> {
    " "@ + bin_label(k) + ": ["@ + decimal_list(xs) + "]"@
}

/// The entries of bins `0..n`, separated by commas.
pub open spec fn bins_text(v: Seq<Seq<usize>>, n: nat) -> Seq<char>
    decreases n,
{
    if n == 0 {
        Seq::empty()
    } else {
        bins_text(v, (n - 1) as nat) + (if n > 1 {
            ","@
        } else {
            Seq::empty()
        }) + bin_entry((n - 1) as nat, v[n - 1].reverse())
    }
}

/// The account of bins `v`.
pub open spec fn describe_text(v: Seq<Seq<usize>>) -> Seq<char> {
    "Allocator {"@ + bins_text(v, BINS as nat) + " }"@
}

/// Appends `bin_label(k)`.
fn push_bin_label(out: &mut String, k: usize)
    requires
        k < BINS,
    ensures
        final(out)@ == old(out)@ + bin_label(k as nat),
{
    proof {
        reveal_strlit("bin");
        reveal_strlit(" (");
        reveal_strlit("must be empty");
        reveal_strlit("K");
        reveal_strlit("M");
        reveal_strlit(")");
    }
    let ghost start = out@;
    out.append("bin");
    push_decimal(out, k as u64);
    out.append(" (");
    let ghost mid = out@;
    if k < BIN_MIN {
        out.append("must be empty");
    } else if k < 10 {
        push_decimal(out, bin_size(k) as u64);
    } else if k < 20 {
        push_decimal(out, bin_size(k - 10) as u64);
        out.append("K");
    } else {
        push_decimal(out, bin_size(k - 20) as u64);
        out.append("M");
    }
    assert(out@ =~= mid + (if k < BIN_MIN {
        "must be empty"@
    } else {
        size_label(k as nat)
    }));
    out.append(")");
    assert(out@ =~= start + bin_label(k as nat));
}

/// Appends `decimal_list(xs)`.
fn push_decimal_list(out: &mut String, xs: &Vec<usize>)
    ensures
        final(out)@ == old(out)@ + decimal_list(xs@),
{
    proof {
        reveal_strlit(", ");
    }
    let ghost start = out@;
    let mut i: usize = 0;
    while i < xs.len()
        invariant
            i <= xs@.len(),
            out@ == start + decimal_list(xs@.take(i as int)),
        decreases xs@.len() - i,
    {
        if i > 0 {
            out.append(", ");
        }
        push_decimal(out, xs[i] as u64);
        proof {
            let t = xs@.take(i + 1);
            assert(t.drop_last() =~= xs@.take(i as int));
            if i == 0 {
                assert(decimal_list(xs@.take(0)) =~= Seq::<char>::empty());
            }
            assert(out@ =~= start + decimal_list(t));
        }
        i = i + 1;
    }
    assert(xs@.take(xs@.len() as int) =~= xs@);
}

impl Allocator {
    /// An account of the bins: each bin's name and block size, and the start
    /// addresses of its free blocks, head first.
    pub fn describe(&self) -> (r: String)
        requires
            self.wf(),
        ensures
            r@ == describe_text(self.bins()),
    {
        proof {
            reveal_strlit("Allocator {");
            reveal_strlit(",");
            reveal_strlit(" ");
            reveal_strlit(": [");
            reveal_strlit("]");
            reveal_strlit(" }");
        }
        let mut out = String::from_str("Allocator {");
        let ghost head = out@;
        let mut k: usize = 0;
        while k < BINS
            invariant
                self.wf(),
                k <= BINS,
                out@ == head + bins_text(self.bins(), k as nat),
            decreases BINS - k,
        {
            let ghost before = out@;
            if k > 0 {
                out.append(",");
            }
            out.append(" ");
            push_bin_label(&mut out, k);
            out.append(": [");
            let blocks = self.free_blocks(k);
            push_decimal_list(&mut out, &blocks);
            out.append("]");
            proof {
                assert(out@ =~= before + (if k > 0 {
                    ","@
                } else {
                    Seq::empty()
                }) + bin_entry(k as nat, self.bins()[k as int].reverse()));
                assert(out@ =~= head + bins_text(self.bins(), (k + 1) as nat));
            }
            k = k + 1;
        }
        out.append(" }");
        assert(out@ =~= describe_text(self.bins()));
        out
    }
}

} // verus!
