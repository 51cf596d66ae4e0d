//! The length field of a tag-length-value element.
//!
//! A length below 128 is one byte (short form). Any other length is a leading
//! byte `0x80 | k` followed by the `k` big-endian bytes of the length, with no
//! leading zero byte (long form). The decoder also accepts long forms that are
//! longer than they need to be.

use vstd::prelude::*;

verus! {

/// The number that a sequence of bytes denotes, most significant byte first.
pub open spec fn be_value(s: Seq<u8>) -> nat
    decreases s.len(),
{
    if s.len() == 0 {
        0
    } else {
        be_value(s.drop_last()) * 256 + s.last() as nat
    }
}

/// The shortest big-endian byte sequence that denotes `n`; empty for zero.
pub open spec fn be_bytes(n: nat) -> Seq<u8>
    decreases n,
{
    if n == 0 {
        Seq::<u8>::empty()
    } else {
        be_bytes(n / 256).push((n % 256) as u8)
    }
}

/// The length field for a content of `n` bytes.
pub open spec fn encode_length(n: nat) -> Seq<u8> {
    if n < 128 {
        seq![n as u8]
    } else {
        seq![(128 + be_bytes(n).len()) as u8] + be_bytes(n)
    }
}

/// Reads a length field from the start of `s`: the length it declares and the
/// number of bytes the field takes. `None` where `s` is empty, starts with
/// the indefinite marker `0x80` or the reserved byte `0xFF`, or ends inside
/// the field.
pub open spec fn parse_length(s: Seq<u8>) -> Option<(nat, nat)> {
    if s.len() == 0 {
        None
    } else if s[0] < 128 {
        Some((s[0] as nat, 1nat))
    } else if s[0] == 0x80 || s[0] == 0xFF {
        None
    } else {
        let k = (s[0] - 128) as nat;
        if s.len() < 1 + k {
            None
        } else {
            Some((be_value(s.subrange(1, 1 + k as int)), 1 + k))
        }
    }
}

/// Appending one byte multiplies the value by 256 and adds the byte.
pub proof fn lemma_be_value_push(s: Seq<u8>, b: u8)
    ensures
        be_value(s.push(b)) == be_value(s) * 256 + b as nat,
{
    assert(s.push(b).drop_last() =~= s);
}

/// A sequence denotes at least what any of its prefixes denotes.
pub proof fn lemma_be_value_prefix(s: Seq<u8>, k: int)
    requires
        0 <= k <= s.len(),
    ensures
        be_value(s.subrange(0, k)) <= be_value(s),
    decreases s.len() - k,
{
    if k == s.len() {
        assert(s.subrange(0, k) =~= s);
    } else {
        lemma_be_value_prefix(s, k + 1);
        assert(s.subrange(0, k + 1).drop_last() =~= s.subrange(0, k));
    }
}

/// `be_bytes` and `be_value` are inverse to each other on numbers.
pub proof fn lemma_be_bytes_value(n: nat)
    ensures
        be_value(be_bytes(n)) == n,
        n > 0 ==> be_bytes(n).len() > 0,
    decreases n,
{
    if n > 0 {
        lemma_be_bytes_value(n / 256);
        lemma_be_value_push(be_bytes(n / 256), (n % 256) as u8);
    }
}

/// The power of 256 with exponent `k`.
pub open spec fn pow256(k: nat) -> nat
    decreases k,
{
    if k == 0 {
        1
    } else {
        256 * pow256((k - 1) as nat)
    }
}

/// Powers of 256 grow with the exponent.
pub proof fn lemma_pow256_monotonic(a: nat, b: nat)
    requires
        a <= b,
    ensures
        1 <= pow256(a) <= pow256(b),
    decreases b,
{
    if b > 0 {
        if a < b {
            lemma_pow256_monotonic(a, (b - 1) as nat);
        } else {
            lemma_pow256_monotonic((a - 1) as nat, (b - 1) as nat);
        }
    }
}

/// A number below `256^k` takes at most `k` bytes.
pub proof fn lemma_be_bytes_len(n: nat, k: nat)
    requires
        n < pow256(k),
    ensures
        be_bytes(n).len() <= k,
    decreases k,
{
    if n > 0 {
        assert(k > 0);
        lemma_be_bytes_len(n / 256, (k - 1) as nat);
    }
}

/// A sequence of `k` bytes denotes a number below `256^k`.
pub proof fn lemma_be_value_bound(s: Seq<u8>)
    ensures
        be_value(s) < pow256(s.len()),
    decreases s.len(),
{
    if s.len() > 0 {
        lemma_be_value_bound(s.drop_last());
    }
}

/// No byte sequence that denotes a number is shorter than `be_bytes` of that
/// number: the long form of a length has no byte to spare.
pub proof fn lemma_be_bytes_minimal(s: Seq<u8>)
    ensures
        be_bytes(be_value(s)).len() <= s.len(),
{
    lemma_be_value_bound(s);
    lemma_be_bytes_len(be_value(s), s.len());
}

/// The length field is canonical: one byte for every length below 128, and
/// for any other length the fewest length bytes behind the leading byte.
pub proof fn lemma_encode_length_len(n: nat)
    ensures
        n < 128 ==> encode_length(n).len() == 1,
        n >= 128 ==> encode_length(n).len() == 1 + be_bytes(n).len() && be_bytes(n).len() >= 1,
{
    lemma_be_bytes_value(n);
}

/// Reading back an encoded length gives the length and consumes exactly the
/// field, whatever follows it. It holds for every length whose long form has
/// at most 126 length bytes, that is for every length below `256^126`.
pub proof fn lemma_length_round_trip(n: nat, rest: Seq<u8>)
    requires
        n < pow256(126),
    ensures
        parse_length(encode_length(n) + rest) == Some((n, encode_length(n).len())),
{
    let s = encode_length(n) + rest;
    if n < 128 {
        assert(s[0] == n as u8);
    } else {
        let body = be_bytes(n);
        lemma_be_bytes_len(n, 126);
        lemma_be_bytes_value(n);
        assert(s[0] == (128 + body.len()) as u8);
        assert(s.subrange(1, 1 + body.len() as int) =~= body);
    }
}

} // verus!
