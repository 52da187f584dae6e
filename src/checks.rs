//! The text of the kernel's start-up self checks.
use crate::text::{dec_digit, hex_digit, push_dec_digit, push_hex_digit};
use vstd::prelude::*;
use vstd::string::StringExecFns;

verus! {

/// `b` in two digits of base 16.
pub open spec fn hex2(b: u8) -> Seq<char> {
    seq![hex_digit(b as int / 16), hex_digit(b as int % 16)]
}

/// `i`, below `0x1000`, in three digits of base 16.
pub open spec fn hex3(i: int) -> Seq<char> {
    seq![hex_digit(i / 256), hex_digit((i / 16) % 16), hex_digit(i % 16)]
}

/// The dump of the first `n` bytes of `bytes`: a line per twenty bytes,
/// each line opened by the offset of its first byte, each byte in two
/// digits followed by a space.
pub open spec fn dump(bytes: Seq<u8>, n: int) -> Seq<char>
    decreases n,
{
    if n <= 0 {
        Seq::empty()
    } else {
        let i = n - 1;
        dump(bytes, i) + (if i % 20 == 0 {
            seq!['\n'] + "offset "@ + hex3(i) + ": "@
        } else {
            Seq::empty()
        }) + hex2(bytes[i]) + seq![' ']
    }
}

/// What the master boot record check prints for the first sector.
pub open spec fn mbr_text(bytes: Seq<u8>) -> Seq<char> {
    "Master Boot Record:"@ + dump(bytes, bytes.len() as int) + seq!['\n']
}

/// The text of the master boot record check: a dump of the first sector,
/// twenty bytes to a line.
pub fn check_mbr(sector: &[u8; 512]) -> (r: String)
    ensures
        r@ == mbr_text(sector@),
{
    let mut out = String::from_str("Master Boot Record:");
    let ghost head = out@;
    let mut i: usize = 0;
    while i < 512
        invariant
            i <= 512,
            sector@.len() == 512,
            out@ == head + dump(sector@, i as int),
        decreases 512 - i,
    {
        let ghost before = out@;
        if i % 20 == 0 {
            out.append("\n");
            out.append("offset ");
            push_hex_digit(&mut out, i / 256);
            push_hex_digit(&mut out, (i / 16) % 16);
            push_hex_digit(&mut out, i % 16);
            out.append(": ");
            proof {
                reveal_strlit("\n");
                reveal_strlit("offset ");
                reveal_strlit(": ");
            }
        }
        let ghost mid = out@;
        let b = sector[i];
        push_hex_digit(&mut out, (b / 16) as usize);
        push_hex_digit(&mut out, (b % 16) as usize);
        out.append(" ");
        proof {
            reveal_strlit(" ");
            if i % 20 == 0 {
                assert(mid =~= before + (seq!['\n'] + "offset "@ + hex3(i as int) + ": "@));
            } else {
                assert(mid =~= before + Seq::<char>::empty());
            }
            assert(out@ =~= mid + hex2(b) + seq![' ']);
            assert(out@ =~= head + dump(sector@, i + 1));
        }
        i = i + 1;
    }
    out.append("\n");
    proof {
        reveal_strlit("\n");
        assert(out@ =~= mbr_text(sector@));
    }
    out
}

/// `i`, below 100, in base 10.
pub open spec fn dec(i: int) -> Seq<char> {
    if i < 10 {
        seq![dec_digit(i)]
    } else {
        seq![dec_digit(i / 10), dec_digit(i % 10)]
    }
}

/// `0, 1, ..., n - 1`.
pub open spec fn items(n: int) -> Seq<char>
    decreases n,
{
    if n <= 0 {
        Seq::empty()
    } else if n == 1 {
        dec(0)
    } else {
        items(n - 1) + ", "@ + dec(n - 1)
    }
}

/// The vector `[0, 1, ..., n - 1]` as the check prints it.
pub open spec fn vec_line(n: int) -> Seq<char> {
    seq!['['] + items(n) + seq![']']
}

/// The lines of the allocation check: a vector printed after each of the
/// pushes of 0 to 99, then a greeting held in a string.
pub fn check_alloc() -> (r: Vec<String>)
    ensures
        r@.len() == 101,
        forall|i: int| 0 <= i < 100 ==> #[trigger] r@[i]@ == vec_line(i + 1),
        r@[100]@ == "Hello String!"@,
{
    let mut lines: Vec<String> = Vec::new();
    let mut body = String::new();
    let mut i: usize = 0;
    while i < 100
        invariant
            i <= 100,
            body@ == items(i as int),
            lines@.len() == i,
            forall|j: int| 0 <= j < i ==> #[trigger] lines@[j]@ == vec_line(j + 1),
        decreases 100 - i,
    {
        if i > 0 {
            body.append(", ");
        }
        if i < 10 {
            push_dec_digit(&mut body, i);
        } else {
            push_dec_digit(&mut body, i / 10);
            push_dec_digit(&mut body, i % 10);
        }
        proof {
            reveal_strlit(", ");
            if i == 0 {
                assert(body@ =~= items(1));
            } else {
                assert(body@ =~= items(i + 1));
            }
        }
        let mut line = String::from_str("[");
        line.append(body.as_str());
        line.append("]");
        proof {
            reveal_strlit("[");
            reveal_strlit("]");
            assert(line@ =~= vec_line(i + 1));
        }
        lines.push(line);
        i = i + 1;
    }
    lines.push(String::from_str("Hello String!"));
    lines
}

} // verus!
