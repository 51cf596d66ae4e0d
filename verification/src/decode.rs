//! Reading elements, values and whole messages from received bytes.
//!
//! Every function here is total: whatever the bytes are, it returns a value
//! or `MalformedEncoding`, and it never looks past the end of its input.

use vstd::prelude::*;
use vstd::slice::slice_subrange;
use crate::error::SnmpError;
use crate::integer::{int_value, parse_int, lemma_int_value_range, lemma_pow256_8};
use crate::length::{be_value, parse_length, lemma_be_value_prefix, lemma_pow256_monotonic};
use crate::oid::{
    base128_value,
    first_arc,
    lead_len,
    parse_arc,
    parse_arcs,
    parse_oid,
    second_arc,
    lemma_base128_value_prefix,
    lemma_lead_len_bounds,
};
use crate::message::{
    bindings_view,
    parse_binding,
    parse_bindings,
    parse_body,
    parse_field,
    parse_integer,
    parse_message,
    BodyView,
    SnmpMessageType,
    SnmpPdu,
    VarBind,
    VarBindView,
    TAG_GET_BULK_REQUEST,
    TAG_GET_NEXT_REQUEST,
    TAG_GET_REQUEST,
    TAG_INFORM_REQUEST,
    TAG_RESPONSE,
    TAG_SET_REQUEST,
    TAG_TRAP,
};
use crate::tlv::{parse_tlv, lemma_parse_tlv_shape, Element};
use crate::value::TAG_SEQUENCE;
use crate::value::{
    parse_content,
    parse_value,
    Value,
    TAG_BOOLEAN,
    TAG_COUNTER32,
    TAG_COUNTER64,
    TAG_END_OF_MIB_VIEW,
    TAG_INTEGER,
    TAG_IP_ADDRESS,
    TAG_NO_SUCH_INSTANCE,
    TAG_NO_SUCH_OBJECT,
    TAG_NULL,
    TAG_OBJECT_IDENTIFIER,
    TAG_OCTET_STRING,
    TAG_OPAQUE,
    TAG_TIMETICKS,
    TAG_UNSIGNED32,
};

verus! {

/// What a reader ensures: it succeeds exactly where the input has a reading,
/// and fails with `MalformedEncoding` everywhere else.
pub open spec fn malformed<T>(r: Result<T, SnmpError>) -> bool {
    r matches Err(e) && e == SnmpError::MalformedEncoding
}

/// Reads a length field from the start of `s`: the length it declares and
/// the number of bytes the field takes. A declared length that no `usize`
/// holds is malformed, as no input can be that long.
pub fn read_length(s: &[u8]) -> (r: Result<(usize, usize), SnmpError>)
    ensures
        match parse_length(s@) {
            Some((n, k)) => if n <= usize::MAX {
                r == Ok::<(usize, usize), SnmpError>((n as usize, k as usize))
            } else {
                malformed(r)
            },
            None => malformed(r),
        },
{
    if s.len() == 0 {
        return Err(SnmpError::MalformedEncoding);
    }
    let head: u8 = s[0];
    if head < 128 {
        return Ok((head as usize, 1));
    }
    if head == 0x80 || head == 0xFF {
        return Err(SnmpError::MalformedEncoding);
    }
    let k: usize = (head - 128) as usize;
    if s.len() - 1 < k {
        return Err(SnmpError::MalformedEncoding);
    }
    let ghost digits = s@.subrange(1, 1 + k);
    let mut acc: usize = 0;
    let mut i: usize = 0;
    while i < k
        invariant
            i <= k,
            1 + k <= s@.len(),
            128 < s@[0] < 255,
            k == s@[0] - 128,
            digits == s@.subrange(1, 1 + k),
            acc == be_value(digits.subrange(0, i as int)),
        decreases k - i,
    {
        let ghost next = digits.subrange(0, i + 1);
        proof {
            assert(next.drop_last() =~= digits.subrange(0, i as int));
            assert(next.last() == s@[1 + i]);
            assert(usize::MAX == 0xffff_ffff || usize::MAX == 0xffff_ffff_ffff_ffff);
        }
        if acc > usize::MAX / 256 {
            proof {
                lemma_be_value_prefix(digits, i + 1);
                assert(be_value(next) == acc * 256 + next.last());
                assert(be_value(digits) > usize::MAX);
            }
            return Err(SnmpError::MalformedEncoding);
        }
        acc = acc * 256 + s[1 + i] as usize;
        i = i + 1;
    }
    assert(digits.subrange(0, k as int) =~= digits);
    Ok((acc, 1 + k))
}

/// An element read from received bytes: its tag, its content, and what
/// follows it.
#[derive(Clone, Copy, Debug, PartialEq, Eq)]
pub struct Tlv<'a> {
    pub tag: u8,
    pub content: &'a [u8],
    pub rest: &'a [u8],
}

impl<'a> View for Tlv<'a> {
    type V = Element;

    open spec fn view(&self) -> Element {
        Element { tag: self.tag, content: self.content@, rest: self.rest@ }
    }
}

/// Reads one element from the start of `s`.
pub fn read_tlv<'a>(s: &'a [u8]) -> (r: Result<Tlv<'a>, SnmpError>)
    ensures
        match parse_tlv(s@) {
            Some(e) => r is Ok && r.unwrap()@ == e,
            None => malformed(r),
        },
{
    if s.len() == 0 {
        return Err(SnmpError::MalformedEncoding);
    }
    let after_tag = slice_subrange(s, 1, s.len());
    assert(after_tag@ =~= s@.skip(1));
    let (n, k) = match read_length(after_tag) {
        Ok(pair) => pair,
        Err(e) => {
            return Err(e);
        },
    };
    if n > s.len() - 1 - k {
        return Err(SnmpError::MalformedEncoding);
    }
    let content = slice_subrange(s, 1 + k, 1 + k + n);
    let rest = slice_subrange(s, 1 + k + n, s.len());
    assert(rest@ =~= s@.skip(1 + k + n));
    Ok(Tlv { tag: s[0], content, rest })
}

/// Reads content bytes as an integer in two's complement. Content that is
/// empty or longer than nine bytes is malformed.
pub fn read_int(content: &[u8]) -> (r: Result<i128, SnmpError>)
    ensures
        match parse_int(content@) {
            Some(n) => r == Ok::<i128, SnmpError>(n as i128) && i128::MIN <= n <= i128::MAX,
            None => malformed(r),
        },
{
    let len: usize = content.len();
    if len == 0 || len > 9 {
        return Err(SnmpError::MalformedEncoding);
    }
    let first: u8 = content[0];
    let mut acc: i128 = if first >= 128 {
        first as i128 - 256
    } else {
        first as i128
    };
    let mut i: usize = 1;
    assert(acc == int_value(content@.subrange(0, 1)));
    while i < len
        invariant
            1 <= i <= len <= 9,
            len == content@.len(),
            acc == int_value(content@.subrange(0, i as int)),
        decreases len - i,
    {
        let ghost prefix = content@.subrange(0, i as int);
        let ghost next = content@.subrange(0, i + 1);
        proof {
            lemma_int_value_range(prefix);
            lemma_pow256_monotonic((i - 1) as nat, 8);
            lemma_pow256_8();
            assert(next.drop_last() =~= prefix);
        }
        acc = acc * 256 + content[i] as i128;
        i = i + 1;
    }
    proof {
        assert(content@.subrange(0, len as int) =~= content@);
        lemma_int_value_range(content@);
        lemma_pow256_monotonic((len - 1) as nat, 8);
        lemma_pow256_8();
    }
    Ok(acc)
}

/// Reads one group from the start of `s`: the arc it denotes, and what
/// follows the group.
pub fn read_arc<'a>(s: &'a [u8]) -> (r: Result<(u32, &'a [u8]), SnmpError>)
    ensures
        match parse_arc(s@) {
            Some((arc, rest)) => r is Ok && r.unwrap().0 == arc && r.unwrap().1@ == rest,
            None => malformed(r),
        },
{
    let mut acc: u32 = 0;
    let mut j: usize = 0;
    loop
        invariant
            j <= s@.len(),
            forall|i: int| 0 <= i < j ==> #[trigger] s@[i] >= 128,
            acc == base128_value(s@.subrange(0, j as int)),
        decreases s@.len() - j,
    {
        if j >= s.len() {
            proof {
                lemma_lead_len_bounds(s@, j as int);
            }
            return Err(SnmpError::MalformedEncoding);
        }
        let b: u8 = s[j];
        let ghost next = s@.subrange(0, j + 1);
        proof {
            assert(next.drop_last() =~= s@.subrange(0, j as int));
            assert(next.last() == b);
        }
        if acc > 0x01ff_ffff {
            proof {
                // the group has this byte at least, and already denotes too much
                lemma_lead_len_bounds(s@, j as int);
                let k = lead_len(s@);
                if k < s@.len() {
                    let group = s@.subrange(0, k as int + 1);
                    lemma_base128_value_prefix(group, j + 1);
                    assert(group.subrange(0, j + 1) =~= next);
                }
            }
            return Err(SnmpError::MalformedEncoding);
        }
        acc = acc * 128 + (b % 128) as u32;
        j = j + 1;
        if b < 128 {
            proof {
                lemma_lead_len_bounds(s@, j - 1);
            }
            let rest = slice_subrange(s, j, s.len());
            assert(rest@ =~= s@.skip(j as int));
            return Ok((acc, rest));
        }
    }
}

/// Reads the content bytes of an object identifier.
pub fn read_oid(content: &[u8]) -> (r: Result<Vec<u32>, SnmpError>)
    ensures
        match parse_oid(content@) {
            Some(arcs) => r is Ok && r.unwrap()@ == arcs,
            None => malformed(r),
        },
{
    if content.len() == 0 {
        return Err(SnmpError::MalformedEncoding);
    }
    let head: u8 = content[0];
    let first: u32 = if head < 40 {
        0
    } else if head < 80 {
        1
    } else {
        2
    };
    let mut arcs: Vec<u32> = Vec::new();
    arcs.push(first);
    arcs.push(head as u32 - 40 * first);
    let mut rest = slice_subrange(content, 1, content.len());
    let ghost groups = content@.skip(1);
    let ghost mut done = Seq::<u32>::empty();
    proof {
        assert(rest@ =~= groups);
        match parse_arcs(groups) {
            Some(more) => {
                assert(done + more =~= more);
            },
            None => {},
        }
    }
    while rest.len() > 0
        invariant
            content@.len() > 0,
            groups == content@.skip(1),
            arcs@ == seq![first_arc(content@[0]), second_arc(content@[0])] + done,
            parse_arcs(groups) == match parse_arcs(rest@) {
                Some(more) => Some(done + more),
                None => None,
            },
        decreases rest@.len(),
    {
        match read_arc(rest) {
            Ok((arc, after)) => {
                proof {
                    lemma_lead_len_bounds(rest@, 0);
                    match parse_arcs(after@) {
                        Some(more) => {
                            assert(done + (seq![arc] + more) =~= done.push(arc) + more);
                        },
                        None => {},
                    }
                    done = done.push(arc);
                }
                arcs.push(arc);
                rest = after;
                assert(arcs@ =~= seq![first_arc(content@[0]), second_arc(content@[0])] + done);
            },
            Err(e) => {
                return Err(e);
            },
        }
    }
    proof {
        assert(done + Seq::<u32>::empty() =~= done);
    }
    Ok(arcs)
}

/// Reads one element and requires it to carry the given tag.
pub fn read_tagged<'a>(tag: u8, s: &'a [u8]) -> (r: Result<Tlv<'a>, SnmpError>)
    ensures
        match crate::tlv::parse_tagged(tag, s@) {
            Some(e) => r is Ok && r.unwrap()@ == e,
            None => malformed(r),
        },
{
    match read_tlv(s) {
        Ok(element) => if element.tag == tag {
            Ok(element)
        } else {
            Err(SnmpError::MalformedEncoding)
        },
        Err(e) => Err(e),
    }
}

/// Reads content bytes as an integer that must lie between `low` and `high`.
pub fn read_int_in(content: &[u8], low: i128, high: i128) -> (r: Result<i128, SnmpError>)
    ensures
        match parse_int(content@) {
            Some(n) => if low <= n <= high {
                r == Ok::<i128, SnmpError>(n as i128)
            } else {
                malformed(r)
            },
            None => malformed(r),
        },
{
    match read_int(content) {
        Ok(n) => if low <= n && n <= high {
            Ok(n)
        } else {
            Err(SnmpError::MalformedEncoding)
        },
        Err(e) => Err(e),
    }
}

/// The value that a tag and content bytes denote.
pub fn read_content<'a>(tag: u8, content: &'a [u8]) -> (r: Result<Value<'a>, SnmpError>)
    ensures
        match parse_content(tag, content@) {
            Some(v) => r is Ok && r.unwrap()@ == v,
            None => malformed(r),
        },
{
    if tag == TAG_BOOLEAN {
        if content.len() == 1 {
            Ok(Value::Boolean(content[0] != 0))
        } else {
            Err(SnmpError::MalformedEncoding)
        }
    } else if tag == TAG_NULL {
        read_marker(content, Value::Null)
    } else if tag == TAG_INTEGER {
        match read_int_in(content, i64::MIN as i128, i64::MAX as i128) {
            Ok(n) => Ok(Value::Integer(n as i64)),
            Err(e) => Err(e),
        }
    } else if tag == TAG_OCTET_STRING {
        Ok(Value::OctetString(content))
    } else if tag == TAG_OBJECT_IDENTIFIER {
        match read_oid(content) {
            Ok(arcs) => Ok(Value::ObjectIdentifier(arcs)),
            Err(e) => Err(e),
        }
    } else if tag == TAG_IP_ADDRESS {
        if content.len() == 4 {
            let address: [u8; 4] = [content[0], content[1], content[2], content[3]];
            assert(address@ =~= content@);
            Ok(Value::IpAddress(address))
        } else {
            Err(SnmpError::MalformedEncoding)
        }
    } else if tag == TAG_COUNTER32 || tag == TAG_UNSIGNED32 || tag == TAG_TIMETICKS {
        match read_int_in(content, 0, u32::MAX as i128) {
            Ok(n) => if tag == TAG_COUNTER32 {
                Ok(Value::Counter32(n as u32))
            } else if tag == TAG_UNSIGNED32 {
                Ok(Value::Unsigned32(n as u32))
            } else {
                Ok(Value::Timeticks(n as u32))
            },
            Err(e) => Err(e),
        }
    } else if tag == TAG_OPAQUE {
        Ok(Value::Opaque(content))
    } else if tag == TAG_COUNTER64 {
        match read_int_in(content, 0, u64::MAX as i128) {
            Ok(n) => Ok(Value::Counter64(n as u64)),
            Err(e) => Err(e),
        }
    } else if tag == TAG_NO_SUCH_OBJECT {
        read_marker(content, Value::NoSuchObject)
    } else if tag == TAG_NO_SUCH_INSTANCE {
        read_marker(content, Value::NoSuchInstance)
    } else if tag == TAG_END_OF_MIB_VIEW {
        read_marker(content, Value::EndOfMibView)
    } else {
        Err(SnmpError::MalformedEncoding)
    }
}

/// Gives `value` where the content is empty, as null and the three markers
/// require.
fn read_marker<'a>(content: &[u8], value: Value<'a>) -> (r: Result<Value<'a>, SnmpError>)
    ensures
        content@.len() == 0 ==> r == Ok::<Value<'a>, SnmpError>(value),
        content@.len() != 0 ==> malformed(r),
{
    if content.len() == 0 {
        Ok(value)
    } else {
        Err(SnmpError::MalformedEncoding)
    }
}

/// Reads one value from the start of `s`, and gives what follows it.
pub fn read_value<'a>(s: &'a [u8]) -> (r: Result<(Value<'a>, &'a [u8]), SnmpError>)
    ensures
        match parse_value(s@) {
            Some((v, rest)) => r is Ok && r.unwrap().0@ == v && r.unwrap().1@ == rest,
            None => malformed(r),
        },
{
    let element = match read_tlv(s) {
        Ok(element) => element,
        Err(e) => {
            return Err(e);
        },
    };
    match read_content(element.tag, element.content) {
        Ok(value) => Ok((value, element.rest)),
        Err(e) => Err(e),
    }
}

/// Reads an integer element from the start of `s`, and gives what follows.
pub fn read_integer<'a>(s: &'a [u8]) -> (r: Result<(i128, &'a [u8]), SnmpError>)
    ensures
        match parse_integer(s@) {
            Some((n, rest)) => r is Ok && r.unwrap().0 == n && r.unwrap().1@ == rest,
            None => malformed(r),
        },
{
    let element = match read_tagged(TAG_INTEGER, s) {
        Ok(element) => element,
        Err(e) => {
            return Err(e);
        },
    };
    match read_int(element.content) {
        Ok(n) => Ok((n, element.rest)),
        Err(e) => Err(e),
    }
}

/// Reads the content of a binding: a name and a value, and nothing after
/// them.
pub fn read_binding<'a>(content: &'a [u8]) -> (r: Result<VarBind<'a>, SnmpError>)
    ensures
        match parse_binding(content@) {
            Some(b) => r is Ok && r.unwrap()@ == b,
            None => malformed(r),
        },
{
    let element = match read_tagged(TAG_OBJECT_IDENTIFIER, content) {
        Ok(element) => element,
        Err(e) => {
            return Err(e);
        },
    };
    let name = match read_oid(element.content) {
        Ok(name) => name,
        Err(e) => {
            return Err(e);
        },
    };
    let (value, rest) = match read_value(element.rest) {
        Ok(pair) => pair,
        Err(e) => {
            return Err(e);
        },
    };
    if rest.len() != 0 {
        return Err(SnmpError::MalformedEncoding);
    }
    Ok(VarBind { name, value })
}

/// Reads bindings until `s` is exhausted.
pub fn read_bindings<'a>(s: &'a [u8]) -> (r: Result<Vec<VarBind<'a>>, SnmpError>)
    ensures
        match parse_bindings(s@) {
            Some(bindings) => r is Ok && bindings_view(r.unwrap()@) == bindings,
            None => malformed(r),
        },
{
    let mut bindings: Vec<VarBind<'a>> = Vec::new();
    let mut rest: &'a [u8] = s;
    proof {
        assert(bindings_view(bindings@) =~= Seq::<VarBindView>::empty());
        match parse_bindings(rest@) {
            Some(more) => {
                assert(bindings_view(bindings@) + more =~= more);
            },
            None => {},
        }
    }
    while rest.len() > 0
        invariant
            parse_bindings(s@) == match parse_bindings(rest@) {
                Some(more) => Some(bindings_view(bindings@) + more),
                None => None,
            },
        decreases rest@.len(),
    {
        let element = match read_tagged(TAG_SEQUENCE, rest) {
            Ok(element) => element,
            Err(e) => {
                return Err(e);
            },
        };
        let binding = match read_binding(element.content) {
            Ok(binding) => binding,
            Err(e) => {
                return Err(e);
            },
        };
        proof {
            lemma_parse_tlv_shape(rest@);
            let so_far = bindings_view(bindings@);
            assert(bindings_view(bindings@.push(binding)) =~= so_far.push(binding@));
            match parse_bindings(element.rest@) {
                Some(more) => {
                    assert(so_far + (seq![binding@] + more) =~= so_far.push(binding@) + more);
                },
                None => {},
            }
        }
        bindings.push(binding);
        rest = element.rest;
    }
    proof {
        assert(bindings_view(bindings@) + Seq::<VarBindView>::empty() =~= bindings_view(
            bindings@,
        ));
    }
    Ok(bindings)
}

/// The three integers at the start of a protocol data unit, and its
/// bindings.
#[derive(Clone, Debug, PartialEq, Eq)]
pub struct Body<'a> {
    pub req_id: i32,
    pub error_status: i32,
    pub error_index: i32,
    pub bindings: Vec<VarBind<'a>>,
}

impl<'a> View for Body<'a> {
    type V = BodyView;

    open spec fn view(&self) -> BodyView {
        BodyView {
            req_id: self.req_id,
            error_status: self.error_status,
            error_index: self.error_index,
            bindings: bindings_view(self.bindings@),
        }
    }
}

/// Reads an integer element that must fit a signed 32-bit field, and gives
/// what follows it.
pub fn read_field<'a>(s: &'a [u8]) -> (r: Result<(i32, &'a [u8]), SnmpError>)
    ensures
        match parse_field(s@) {
            Some((n, rest)) => r is Ok && r.unwrap().0 == n && r.unwrap().1@ == rest,
            None => malformed(r),
        },
{
    match read_integer(s) {
        Ok((n, rest)) => if -0x8000_0000 <= n && n <= 0x7fff_ffff {
            Ok((n as i32, rest))
        } else {
            Err(SnmpError::MalformedEncoding)
        },
        Err(e) => Err(e),
    }
}

/// Reads the content of a protocol data unit.
pub fn read_body<'a>(s: &'a [u8]) -> (r: Result<Body<'a>, SnmpError>)
    ensures
        match parse_body(s@) {
            Some(body) => r is Ok && r.unwrap()@ == body,
            None => malformed(r),
        },
{
    let (req_id, s1) = match read_field(s) {
        Ok(pair) => pair,
        Err(e) => {
            return Err(e);
        },
    };
    let (error_status, s2) = match read_field(s1) {
        Ok(pair) => pair,
        Err(e) => {
            return Err(e);
        },
    };
    let (error_index, s3) = match read_field(s2) {
        Ok(pair) => pair,
        Err(e) => {
            return Err(e);
        },
    };
    let element = match read_tagged(TAG_SEQUENCE, s3) {
        Ok(element) => element,
        Err(e) => {
            return Err(e);
        },
    };
    let bindings = match read_bindings(element.content) {
        Ok(bindings) => bindings,
        Err(e) => {
            return Err(e);
        },
    };
    if element.rest.len() != 0 {
        return Err(SnmpError::MalformedEncoding);
    }
    Ok(Body { req_id, error_status, error_index, bindings })
}

impl SnmpMessageType {
    /// The kind of message that the tag of a protocol data unit stands for.
    pub fn from_ident(tag: u8) -> (r: Result<SnmpMessageType, SnmpError>)
        ensures
            match SnmpMessageType::of_tag(tag) {
                Some(kind) => r == Ok::<SnmpMessageType, SnmpError>(kind),
                None => malformed(r),
            },
    {
        if tag == TAG_GET_REQUEST {
            Ok(SnmpMessageType::GetRequest)
        } else if tag == TAG_GET_NEXT_REQUEST {
            Ok(SnmpMessageType::GetNextRequest)
        } else if tag == TAG_GET_BULK_REQUEST {
            Ok(SnmpMessageType::GetBulkRequest)
        } else if tag == TAG_SET_REQUEST {
            Ok(SnmpMessageType::SetRequest)
        } else if tag == TAG_RESPONSE {
            Ok(SnmpMessageType::Response)
        } else if tag == TAG_TRAP {
            Ok(SnmpMessageType::Trap)
        } else if tag == TAG_INFORM_REQUEST {
            Ok(SnmpMessageType::InformRequest)
        } else {
            Err(SnmpError::MalformedEncoding)
        }
    }
}

impl<'a> SnmpPdu<'a> {
    /// Decodes a received datagram. It succeeds exactly where the bytes are
    /// one well-formed message and nothing else, and then gives that
    /// message; everything else is `MalformedEncoding`.
    pub fn from_bytes(bytes: &'a [u8]) -> (r: Result<SnmpPdu<'a>, SnmpError>)
        ensures
            match parse_message(bytes@) {
                Some(pdu) => r is Ok && r.unwrap()@ == pdu,
                None => malformed(r),
            },
    {
        let outer = match read_tagged(TAG_SEQUENCE, bytes) {
            Ok(element) => element,
            Err(e) => {
                return Err(e);
            },
        };
        if outer.rest.len() != 0 {
            return Err(SnmpError::MalformedEncoding);
        }
        let (version, s1) = match read_integer(outer.content) {
            Ok(pair) => pair,
            Err(e) => {
                return Err(e);
            },
        };
        let community = match read_tagged(TAG_OCTET_STRING, s1) {
            Ok(element) => element,
            Err(e) => {
                return Err(e);
            },
        };
        let unit = match read_tlv(community.rest) {
            Ok(element) => element,
            Err(e) => {
                return Err(e);
            },
        };
        let message_type = match SnmpMessageType::from_ident(unit.tag) {
            Ok(kind) => kind,
            Err(e) => {
                return Err(e);
            },
        };
        let body = match read_body(unit.content) {
            Ok(body) => body,
            Err(e) => {
                return Err(e);
            },
        };
        if unit.rest.len() != 0 || version < i64::MIN as i128 || version > i64::MAX as i128 {
            return Err(SnmpError::MalformedEncoding);
        }
        Ok(
            SnmpPdu {
                version: version as i64,
                community: community.content,
                message_type,
                req_id: body.req_id,
                error_status: body.error_status,
                error_index: body.error_index,
                bindings: body.bindings,
            },
        )
    }
}

} // verus!
