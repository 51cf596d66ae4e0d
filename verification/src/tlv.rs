//! Tag-length-value elements: one tag byte, a length field, then exactly as
//! many content bytes as the length field declares.

use vstd::prelude::*;
use crate::length::{
    encode_length,
    parse_length,
    pow256,
    lemma_length_round_trip,
    lemma_pow256_monotonic,
};

verus! {

/// The content lengths that a length field can declare: its long form has
/// room for 126 length bytes.
pub open spec fn length_encodable(n: nat) -> bool {
    n < pow256(126)
}

/// Every length below `256^2` can be declared: whatever fits a datagram has
/// a length field.
pub proof fn lemma_small_length_encodable(n: nat)
    requires
        n < 65536,
    ensures
        length_encodable(n),
{
    lemma_pow256_monotonic(2, 126);
    reveal_with_fuel(pow256, 3);
}

/// The element with the given tag and content.
pub open spec fn encode_tlv(tag: u8, content: Seq<u8>) -> Seq<u8> {
    seq![tag] + encode_length(content.len()) + content
}

/// An element read from the start of a byte sequence.
pub struct Element {
    /// The tag byte.
    pub tag: u8,
    /// The content bytes.
    pub content: Seq<u8>,
    /// What follows the element.
    pub rest: Seq<u8>,
}

/// Reads one element from the start of `s`. `None` where `s` is empty, its
/// length field is malformed, or fewer bytes follow the length field than it
/// declares.
pub open spec fn parse_tlv(s: Seq<u8>) -> Option<Element> {
    if s.len() == 0 {
        None
    } else {
        match parse_length(s.skip(1)) {
            None => None,
            Some((n, k)) => if 1 + k + n > s.len() {
                None
            } else {
                Some(
                    Element {
                        tag: s[0],
                        content: s.subrange(1 + k as int, 1 + k as int + n as int),
                        rest: s.skip(1 + k as int + n as int),
                    },
                )
            },
        }
    }
}

/// Reads one element and requires it to carry the given tag.
pub open spec fn parse_tagged(tag: u8, s: Seq<u8>) -> Option<Element> {
    match parse_tlv(s) {
        Some(e) => if e.tag == tag {
            Some(e)
        } else {
            None
        },
        None => None,
    }
}

/// Reading never goes past what the length field declares: the content of
/// an element that was read and what follows it lie in the input, one after
/// the other and up to its end, behind at least a tag and one length byte.
pub proof fn lemma_parse_tlv_shape(s: Seq<u8>)
    requires
        parse_tlv(s) is Some,
    ensures
        parse_tlv(s).unwrap().tag == s[0],
        parse_tlv(s).unwrap().content.len() + parse_tlv(s).unwrap().rest.len() + 2 <= s.len(),
        s.skip(s.len() - parse_tlv(s).unwrap().rest.len()) == parse_tlv(s).unwrap().rest,
        s.subrange(
            s.len() - parse_tlv(s).unwrap().rest.len() - parse_tlv(s).unwrap().content.len(),
            s.len() - parse_tlv(s).unwrap().rest.len(),
        ) == parse_tlv(s).unwrap().content,
{
    let e = parse_tlv(s).unwrap();
    let (n, k) = parse_length(s.skip(1)).unwrap();
    assert(s.skip(s.len() - e.rest.len()) =~= e.rest);
    assert(s.subrange(s.len() - e.rest.len() - e.content.len(), s.len() - e.rest.len())
        =~= e.content);
}

/// Reading an encoded element gives its tag, its content and whatever
/// followed it.
pub proof fn lemma_tlv_round_trip(tag: u8, content: Seq<u8>, rest: Seq<u8>)
    requires
        length_encodable(content.len()),
    ensures
        parse_tlv(encode_tlv(tag, content) + rest) == Some(Element { tag, content, rest }),
        parse_tagged(tag, encode_tlv(tag, content) + rest) == Some(Element { tag, content, rest }),
{
    let s = encode_tlv(tag, content) + rest;
    let field = encode_length(content.len());
    lemma_length_round_trip(content.len(), content + rest);
    assert(s.skip(1) =~= field + (content + rest));
    let k = field.len() as int;
    let n = content.len() as int;
    assert(s[0] == tag);
    assert(s.subrange(1 + k, 1 + k + n) =~= content);
    assert(s.skip(1 + k + n) =~= rest);
}

/// An input cut short inside an element cannot be read: every proper prefix
/// of the bytes that an element takes is rejected.
pub proof fn lemma_parse_tlv_truncated(s: Seq<u8>, cut: int)
    requires
        parse_tlv(s) is Some,
        0 <= cut < s.len() - parse_tlv(s).unwrap().rest.len(),
    ensures
        parse_tlv(s.subrange(0, cut)) is None,
{
    let t = s.subrange(0, cut);
    let (n, k) = parse_length(s.skip(1)).unwrap();
    if cut > 0 {
        let a = s.skip(1);
        let b = t.skip(1);
        assert(b =~= a.subrange(0, cut - 1));
        if b.len() > 0 {
            assert(b[0] == a[0]);
            if a[0] >= 128 && b.len() >= k {
                assert(b.subrange(1, k as int) =~= a.subrange(1, k as int));
            }
        }
    }
}

} // verus!
