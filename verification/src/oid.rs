//! The content bytes of an OBJECT IDENTIFIER.
//!
//! The first two arcs share the first byte, `40 * first + second`. Every
//! further arc is a group of base-128 digits, most significant first, in
//! which every byte but the last has its high bit set.

use vstd::prelude::*;

verus! {

/// The arcs that can be encoded: at least two, the first at most 2, and the
/// second small enough for the shared byte to stay below 128 (below 40 under
/// the first arcs 0 and 1, at most 47 under the first arc 2).
pub open spec fn valid_oid(arcs: Seq<u32>) -> bool {
    &&& arcs.len() >= 2
    &&& arcs[0] <= 2
    &&& arcs[0] < 2 ==> arcs[1] < 40
    &&& arcs[0] == 2 ==> arcs[1] <= 47
}

/// Whether the arcs can be encoded.
pub fn is_valid_oid(arcs: &[u32]) -> (b: bool)
    ensures
        b == valid_oid(arcs@),
{
    if arcs.len() < 2 {
        return false;
    }
    if arcs[0] < 2 {
        arcs[1] < 40
    } else {
        arcs[0] == 2 && arcs[1] <= 47
    }
}

/// The leading bytes of a group: the base-128 digits of `n`, each with the
/// high bit set; nothing for zero.
pub open spec fn base128_lead(n: nat) -> Seq<u8>
    decreases n,
{
    if n == 0 {
        Seq::<u8>::empty()
    } else {
        base128_lead(n / 128).push((128 + n % 128) as u8)
    }
}

/// The group that encodes one arc.
pub open spec fn base128(n: nat) -> Seq<u8> {
    base128_lead(n / 128).push((n % 128) as u8)
}

/// The groups of a sequence of arcs, one after the other.
pub open spec fn encode_arcs(arcs: Seq<u32>) -> Seq<u8>
    decreases arcs.len(),
{
    if arcs.len() == 0 {
        Seq::<u8>::empty()
    } else {
        base128(arcs[0] as nat) + encode_arcs(arcs.skip(1))
    }
}

/// The content bytes of an object identifier.
pub open spec fn encode_oid(arcs: Seq<u32>) -> Seq<u8> {
    seq![(arcs[0] * 40 + arcs[1]) as u8] + encode_arcs(arcs.skip(2))
}

/// The number whose base-128 digits are the low seven bits of each byte.
pub open spec fn base128_value(s: Seq<u8>) -> nat
    decreases s.len(),
{
    if s.len() == 0 {
        0
    } else {
        base128_value(s.drop_last()) * 128 + (s.last() % 128) as nat
    }
}

/// The number of bytes at the start of `s` that have their high bit set.
pub open spec fn lead_len(s: Seq<u8>) -> nat
    decreases s.len(),
{
    if s.len() == 0 || s[0] < 128 {
        0
    } else {
        1 + lead_len(s.skip(1))
    }
}

/// Reads one group from the start of `s`: the arc it denotes, and what
/// follows the group. `None` where every byte of `s` has its high bit set,
/// so that the group does not end, or where the group denotes more than a
/// `u32` holds.
pub open spec fn parse_arc(s: Seq<u8>) -> Option<(u32, Seq<u8>)> {
    let k = lead_len(s);
    if k >= s.len() {
        None
    } else {
        let v = base128_value(s.subrange(0, k as int + 1));
        if v > u32::MAX {
            None
        } else {
            Some((v as u32, s.skip(k as int + 1)))
        }
    }
}

/// Reads groups until `s` is exhausted.
pub open spec fn parse_arcs(s: Seq<u8>) -> Option<Seq<u32>>
    decreases s.len(),
{
    if s.len() == 0 {
        Some(Seq::<u32>::empty())
    } else {
        match parse_arc(s) {
            Some((arc, rest)) => match parse_arcs(rest) {
                Some(more) => Some(seq![arc] + more),
                None => None,
            },
            None => None,
        }
    }
}

/// The first arc that a leading byte stands for: never more than 2.
pub open spec fn first_arc(b: u8) -> u32 {
    if b < 40 {
        0
    } else if b < 80 {
        1
    } else {
        2
    }
}

/// The second arc that a leading byte stands for.
pub open spec fn second_arc(b: u8) -> u32 {
    (b - 40 * first_arc(b)) as u32
}

/// Reads the content bytes of an object identifier. `None` where there are no
/// bytes, or where the groups after the first byte are not well formed.
pub open spec fn parse_oid(s: Seq<u8>) -> Option<Seq<u32>> {
    if s.len() == 0 {
        None
    } else {
        match parse_arcs(s.skip(1)) {
            Some(rest) => Some(seq![first_arc(s[0]), second_arc(s[0])] + rest),
            None => None,
        }
    }
}

/// The leading bytes of a group all have the high bit set, and denote the
/// number they were made from.
pub proof fn lemma_base128_lead(n: nat)
    ensures
        forall|i: int| 0 <= i < base128_lead(n).len() ==> #[trigger] base128_lead(n)[i] >= 128,
        base128_value(base128_lead(n)) == n,
    decreases n,
{
    if n > 0 {
        lemma_base128_lead(n / 128);
        let p = base128_lead(n / 128);
        let b = (128 + n % 128) as u8;
        assert(p.push(b).drop_last() =~= p);
        assert(b % 128 == n % 128);
    }
}

/// A run of bytes with the high bit set, then one without: the run is the
/// lead.
pub proof fn lemma_lead_len(lead: Seq<u8>, last: u8, rest: Seq<u8>)
    requires
        forall|i: int| 0 <= i < lead.len() ==> #[trigger] lead[i] >= 128,
        last < 128,
    ensures
        lead_len(lead.push(last) + rest) == lead.len(),
    decreases lead.len(),
{
    let s = lead.push(last) + rest;
    if lead.len() == 0 {
        assert(s[0] == last);
    } else {
        assert(s[0] == lead[0]);
        assert(s.skip(1) =~= lead.skip(1).push(last) + rest);
        lemma_lead_len(lead.skip(1), last, rest);
    }
}

/// Where the first `m` bytes have the high bit set, the lead has at least `m`
/// bytes, and exactly `m` where the next byte has the bit clear.
pub proof fn lemma_lead_len_bounds(s: Seq<u8>, m: int)
    requires
        0 <= m <= s.len(),
        forall|i: int| 0 <= i < m ==> #[trigger] s[i] >= 128,
    ensures
        lead_len(s) >= m,
        m < s.len() && s[m] < 128 ==> lead_len(s) == m,
        lead_len(s) <= s.len(),
    decreases s.len(),
{
    if s.len() > 0 && s[0] >= 128 {
        let t = s.skip(1);
        if m > 0 {
            assert forall|i: int| 0 <= i < m - 1 implies #[trigger] t[i] >= 128 by {
                assert(t[i] == s[i + 1]);
            }
            if m < s.len() {
                assert(t[m - 1] == s[m]);
            }
            lemma_lead_len_bounds(t, m - 1);
        } else {
            lemma_lead_len_bounds(t, 0);
        }
    }
}

/// A sequence of digits denotes at least what any of its prefixes denotes.
pub proof fn lemma_base128_value_prefix(s: Seq<u8>, k: int)
    requires
        0 <= k <= s.len(),
    ensures
        base128_value(s.subrange(0, k)) <= base128_value(s),
    decreases s.len() - k,
{
    if k == s.len() {
        assert(s.subrange(0, k) =~= s);
    } else {
        lemma_base128_value_prefix(s, k + 1);
        assert(s.subrange(0, k + 1).drop_last() =~= s.subrange(0, k));
    }
}

/// A group denotes the arc it was made from.
pub proof fn lemma_base128_value(n: nat)
    ensures
        base128_value(base128(n)) == n,
        base128(n).len() >= 1,
{
    lemma_base128_lead(n / 128);
    let p = base128_lead(n / 128);
    assert(p.push((n % 128) as u8).drop_last() =~= p);
}

/// The groups of a sequence of arcs are the groups of any of its prefixes
/// followed by the groups of what remains.
pub proof fn lemma_encode_arcs_split(arcs: Seq<u32>, k: int)
    requires
        0 <= k <= arcs.len(),
    ensures
        encode_arcs(arcs) == encode_arcs(arcs.subrange(0, k)) + encode_arcs(
            arcs.subrange(k, arcs.len() as int),
        ),
    decreases arcs.len(),
{
    let front = arcs.subrange(0, k);
    let back = arcs.subrange(k, arcs.len() as int);
    if k == 0 {
        assert(back =~= arcs);
        assert(encode_arcs(front) + encode_arcs(back) =~= encode_arcs(arcs));
    } else {
        let tail = arcs.skip(1);
        lemma_encode_arcs_split(tail, k - 1);
        assert(tail.subrange(0, k - 1) =~= front.skip(1));
        assert(tail.subrange(k - 1, tail.len() as int) =~= back);
        assert(encode_arcs(front) + encode_arcs(back) =~= encode_arcs(arcs));
    }
}

/// Reading the groups of a sequence of arcs gives the arcs back.
pub proof fn lemma_arcs_round_trip(arcs: Seq<u32>)
    ensures
        parse_arcs(encode_arcs(arcs)) == Some(arcs),
    decreases arcs.len(),
{
    if arcs.len() > 0 {
        let n = arcs[0] as nat;
        let lead = base128_lead(n / 128);
        let last = (n % 128) as u8;
        let rest = encode_arcs(arcs.skip(1));
        let s = encode_arcs(arcs);
        lemma_base128_lead(n / 128);
        lemma_lead_len(lead, last, rest);
        lemma_base128_value(n);
        assert(s == lead.push(last) + rest);
        assert(s.subrange(0, lead.len() as int + 1) =~= base128(n));
        assert(s.skip(lead.len() as int + 1) =~= rest);
        lemma_arcs_round_trip(arcs.skip(1));
        assert(seq![arcs[0]] + arcs.skip(1) =~= arcs);
    }
}

/// Reading the content bytes of a valid object identifier gives its arcs
/// back, the first two included.
pub proof fn lemma_oid_round_trip(arcs: Seq<u32>)
    requires
        valid_oid(arcs),
    ensures
        parse_oid(encode_oid(arcs)) == Some(arcs),
{
    let s = encode_oid(arcs);
    lemma_arcs_round_trip(arcs.skip(2));
    assert(s.skip(1) =~= encode_arcs(arcs.skip(2)));
    assert(seq![arcs[0], arcs[1]] + arcs.skip(2) =~= arcs);
}

} // verus!
