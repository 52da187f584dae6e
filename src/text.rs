//! Digits and padding for the text the kernel prints.
use vstd::prelude::*;
use vstd::string::{StrSliceExecFns, StringExecFns};

verus! {

/// The digit of value `d` in base 16, upper case.
pub open spec fn hex_digit(d: int) -> char {
    "0123456789ABCDEF"@[d]
}

/// The digit of value `d` in base 10.
pub open spec fn dec_digit(d: int) -> char {
    "0123456789"@[d]
}

/// Appends the digit of value `d` in base 16.
pub fn push_hex_digit(out: &mut String, d: usize)
    requires
        d < 16,
    ensures
        final(out)@ == old(out)@.push(hex_digit(d as int)),
{
    let digits = "0123456789ABCDEF";
    proof {
        reveal_strlit("0123456789ABCDEF");
    }
    let s = digits.substring_char(d, d + 1);
    out.append(s);
    assert(s@ =~= seq![hex_digit(d as int)]);
}

/// Appends the digit of value `d` in base 10.
pub fn push_dec_digit(out: &mut String, d: usize)
    requires
        d < 10,
    ensures
        final(out)@ == old(out)@.push(dec_digit(d as int)),
{
    let digits = "0123456789";
    proof {
        reveal_strlit("0123456789");
    }
    let s = digits.substring_char(d, d + 1);
    out.append(s);
    assert(s@ =~= seq![dec_digit(d as int)]);
}

/// `n` in base 10, without leading zeros.
pub open spec fn decimal(n: nat) -> Seq<char>
    decreases n,
{
    if n < 10 {
        seq![dec_digit(n as int)]
    } else {
        decimal(n / 10) + seq![dec_digit((n % 10) as int)]
    }
}

/// `s` preceded by as many `fill` as bring it to `width` characters.
pub open spec fn padded(s: Seq<char>, width: nat, fill: char) -> Seq<char> {
    if s.len() >= width {
        s
    } else {
        Seq::new((width - s.len()) as nat, |i: int| fill) + s
    }
}

/// Appends `n` in base 10.
pub fn push_decimal(out: &mut String, n: u64)
    ensures
        final(out)@ == old(out)@ + decimal(n as nat),
    decreases n,
{
    if n >= 10 {
        push_decimal(out, n / 10);
    }
    push_dec_digit(out, (n % 10) as usize);
    proof {
        if n < 10 {
            assert(n % 10 == n);
        }
    }
    assert(final(out)@ =~= old(out)@ + decimal(n as nat)) by {
        if n >= 10 {
            assert(decimal(n as nat) == decimal((n / 10) as nat) + seq![dec_digit((n % 10) as int)]);
        }
    }
}

/// The number of digits of `n` in base 10.
pub fn decimal_len(n: u64) -> (r: u64)
    ensures
        r == decimal(n as nat).len(),
        1 <= r <= n as int + 1,
    decreases n,
{
    if n < 10 {
        1
    } else {
        1 + decimal_len(n / 10)
    }
}

/// Appends `n` in base 10, preceded by `fill` up to `width` characters.
/// `fill` is one character.
pub fn push_padded_decimal(out: &mut String, n: u64, width: usize, fill: &str)
    requires
        fill@.len() == 1,
    ensures
        final(out)@ == old(out)@ + padded(decimal(n as nat), width as nat, fill@[0]),
{
    let len = decimal_len(n);
    let width = width as u64;
    let ghost start = out@;
    let mut i: u64 = len;
    while i < width
        invariant
            len <= i,
            i <= width || i == len,
            fill@.len() == 1,
            out@ == start + Seq::new((i - len) as nat, |j: int| fill@[0]),
        decreases width - i,
    {
        out.append(fill);
        assert(out@ =~= start + Seq::new((i + 1 - len) as nat, |j: int| fill@[0]));
        i = i + 1;
    }
    let ghost mid = out@;
    push_decimal(out, n);
    assert(out@ =~= start + padded(decimal(n as nat), width as nat, fill@[0])) by {
        if len >= width {
            assert(mid =~= start);
        }
    }
}

} // verus!
