//! Big-endian integers on the wire and decimal numbers in messages.

use vstd::prelude::*;
use vstd::string::*;

verus! {

/// The number whose big-endian digits in base 256 are `s`.
pub open spec fn be_value(s: Seq<u8>) -> nat
    decreases s.len(),
{
    if s.len() == 0 {
        0
    } else {
        be_value(s.drop_last()) * 256 + s.last() as nat
    }
}

/// The `width` low-order base-256 digits of `n`, most significant first.
pub open spec fn be_bytes(n: nat, width: nat) -> Seq<u8>
    decreases width,
{
    if width == 0 {
        Seq::empty()
    } else {
        be_bytes(n / 256, (width - 1) as nat).push((n % 256) as u8)
    }
}

/// `256` to the power of `width`: one more than the largest number of `width` digits.
pub open spec fn be_bound(width: nat) -> nat
    decreases width,
{
    if width == 0 {
        1
    } else {
        be_bound((width - 1) as nat) * 256
    }
}

/// `be_bytes` gives exactly `width` digits.
pub proof fn lemma_be_bytes_len(n: nat, width: nat)
    ensures
        be_bytes(n, width).len() == width,
    decreases width,
{
    if width > 0 {
        lemma_be_bytes_len(n / 256, (width - 1) as nat);
    }
}

/// A number of `s.len()` digits stays below the bound for that width.
pub proof fn lemma_be_value_bound(s: Seq<u8>)
    ensures
        be_value(s) < be_bound(s.len()),
    decreases s.len(),
{
    if s.len() > 0 {
        lemma_be_value_bound(s.drop_last());
    }
}

/// Reading the digits of a number that fits gives the number back.
pub proof fn lemma_be_round_trip(n: nat, width: nat)
    requires
        n < be_bound(width),
    ensures
        be_value(be_bytes(n, width)) == n,
    decreases width,
{
    if width > 0 {
        let high = be_bytes(n / 256, (width - 1) as nat);
        lemma_be_round_trip(n / 256, (width - 1) as nat);
        assert(be_bytes(n, width).drop_last() =~= high);
    }
}

/// The bounds for the widths that the protocol uses.
pub proof fn lemma_be_bounds()
    ensures
        be_bound(1) == 0x100,
        be_bound(2) == 0x1_0000,
        be_bound(4) == 0x1_0000_0000,
        be_bound(8) == 0x1_0000_0000_0000_0000,
{
    reveal_with_fuel(be_bound, 9);
}

/// Read eight bytes as a big-endian number.
pub fn read_u64(bytes: &[u8]) -> (n: u64)
    requires
        bytes@.len() == 8,
    ensures
        n == be_value(bytes@),
{
    let mut n: u64 = 0;
    let mut i: usize = 0;
    while i < 8
        invariant
            i <= 8,
            bytes@.len() == 8,
            n == be_value(bytes@.take(i as int)),
            n < be_bound(i as nat),
        decreases 8 - i,
    {
        proof {
            reveal_with_fuel(be_bound, 9);
            assert(bytes@.take(i + 1).drop_last() =~= bytes@.take(i as int));
            lemma_be_value_bound(bytes@.take(i + 1));
        }
        n = n * 256 + bytes[i] as u64;
        i = i + 1;
    }
    assert(bytes@.take(8) =~= bytes@);
    n
}

/// The decimal digit for `d`.
pub open spec fn digit_char(d: nat) -> char
    recommends
        d < 10,
{
    (0x30 + d) as char
}

/// The decimal numeral of `n`, without leading zeros.
pub open spec fn decimal(n: nat) -> Seq<char>
    decreases n,
{
    if n < 10 {
        seq![digit_char(n)]
    } else {
        decimal(n / 10).push(digit_char(n % 10))
    }
}

fn digit_str(d: u64) -> (s: &'static str)
    requires
        d < 10,
    ensures
        s@ == seq![digit_char(d as nat)],
{
    proof {
        reveal_strlit("0");
        reveal_strlit("1");
        reveal_strlit("2");
        reveal_strlit("3");
        reveal_strlit("4");
        reveal_strlit("5");
        reveal_strlit("6");
        reveal_strlit("7");
        reveal_strlit("8");
        reveal_strlit("9");
    }
    match d {
        0 => "0",
        1 => "1",
        2 => "2",
        3 => "3",
        4 => "4",
        5 => "5",
        6 => "6",
        7 => "7",
        8 => "8",
        _ => "9",
    }
}

/// Write `n` in decimal.
pub fn decimal_string(n: u64) -> (s: String)
    ensures
        s@ == decimal(n as nat),
    decreases n,
{
    if n < 10 {
        digit_str(n).to_owned()
    } else {
        let mut s = decimal_string(n / 10);
        s.append(digit_str(n % 10));
        assert(decimal(n as nat) =~= decimal(n as nat / 10) + seq![digit_char(n as nat % 10)]);
        s
    }
}

} // verus!
