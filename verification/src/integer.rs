//! The content bytes of an INTEGER: two's complement, most significant byte
//! first, in as few bytes as the value allows.

use vstd::prelude::*;
use crate::length::pow256;

verus! {

/// The minimal two's-complement encoding of `n`. Zero is a single `0x00`; a
/// non-negative value whose leading byte would have its high bit set gets a
/// `0x00` in front, and a negative value is sign-extended in the same way.
pub open spec fn int_bytes(n: int) -> Seq<u8>
    decreases
            (if n >= 0 {
                n
            } else {
                -n
            }),
{
    if -128 <= n < 128 {
        seq![(n % 256) as u8]
    } else {
        int_bytes(n / 256).push((n % 256) as u8)
    }
}

/// The number that content bytes denote in two's complement; zero for no
/// bytes at all.
pub open spec fn int_value(s: Seq<u8>) -> int
    decreases s.len(),
{
    if s.len() == 0 {
        0
    } else if s.len() == 1 {
        if s[0] >= 128 {
            s[0] - 256
        } else {
            s[0] as int
        }
    } else {
        int_value(s.drop_last()) * 256 + s.last()
    }
}

/// The longest content that the decoder reads as an integer: nine bytes, the
/// length of the largest 64-bit counter.
pub open spec fn max_int_len() -> nat {
    9
}

/// Reads content bytes as an integer. `None` where there are no bytes or more
/// than nine.
pub open spec fn parse_int(s: Seq<u8>) -> Option<int> {
    if 1 <= s.len() <= max_int_len() {
        Some(int_value(s))
    } else {
        None
    }
}

/// Appending a byte to nonempty content multiplies the value by 256 and adds
/// the byte.
pub proof fn lemma_int_value_push(s: Seq<u8>, b: u8)
    requires
        s.len() >= 1,
    ensures
        int_value(s.push(b)) == int_value(s) * 256 + b,
{
    assert(s.push(b).drop_last() =~= s);
}

/// Content of `k` bytes denotes a value in the two's-complement range of
/// `k` bytes.
pub proof fn lemma_int_value_range(s: Seq<u8>)
    requires
        s.len() >= 1,
    ensures
        -128 * pow256((s.len() - 1) as nat) <= int_value(s) < 128 * pow256((s.len() - 1) as nat),
    decreases s.len(),
{
    if s.len() > 1 {
        lemma_int_value_range(s.drop_last());
    }
}

/// Decoding the minimal encoding of `n` gives `n` back.
pub proof fn lemma_int_round_trip(n: int)
    ensures
        int_bytes(n).len() >= 1,
        int_value(int_bytes(n)) == n,
    decreases
            (if n >= 0 {
                n
            } else {
                -n
            }),
{
    if -128 <= n < 128 {
    } else {
        lemma_int_round_trip(n / 256);
        lemma_int_value_push(int_bytes(n / 256), (n % 256) as u8);
    }
}

/// A value in the two's-complement range of `k + 1` bytes is encoded in at
/// most `k + 1` bytes.
pub proof fn lemma_int_bytes_len(n: int, k: nat)
    requires
        -128 * pow256(k) <= n < 128 * pow256(k),
    ensures
        1 <= int_bytes(n).len() <= k + 1,
    decreases k,
{
    if -128 <= n < 128 {
    } else {
        assert(k > 0);
        lemma_int_bytes_len(n / 256, (k - 1) as nat);
    }
}

/// No content that denotes a number is shorter than `int_bytes` of that
/// number.
pub proof fn lemma_int_bytes_minimal(s: Seq<u8>)
    requires
        s.len() >= 1,
    ensures
        int_bytes(int_value(s)).len() <= s.len(),
{
    lemma_int_value_range(s);
    lemma_int_bytes_len(int_value(s), (s.len() - 1) as nat);
}

/// The value of `256^8`.
pub proof fn lemma_pow256_8()
    ensures
        pow256(8) == 0x1_0000_0000_0000_0000,
        pow256(7) == 0x100_0000_0000_0000,
        pow256(4) == 0x1_0000_0000,
{
    reveal_with_fuel(pow256, 10);
}

/// Every value from the least `i64` to the greatest `u64` is encoded in at
/// most nine bytes, and reading the encoding gives the value.
pub proof fn lemma_parse_int_round_trip(n: int)
    requires
        i64::MIN <= n <= u64::MAX,
    ensures
        parse_int(int_bytes(n)) == Some(n),
{
    lemma_pow256_8();
    lemma_int_bytes_len(n, 8);
    lemma_int_round_trip(n);
}

} // verus!
