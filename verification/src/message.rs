//! The layout of a whole message.
//!
//! A message is a SEQUENCE of the version, the community string and the
//! protocol data unit. The unit is an element whose tag names the kind of
//! message; it holds the request identifier, two integers (error status and
//! error index, or in a bulk request the non-repeaters and max-repetitions
//! counts) and the SEQUENCE of variable bindings. A binding is a SEQUENCE of
//! a name and a value.

use vstd::prelude::*;
use crate::integer::{int_bytes, parse_int};
use crate::oid::{encode_oid, parse_oid, valid_oid};
use crate::tlv::{encode_tlv, length_encodable, parse_tagged, parse_tlv};
use crate::value::{
    encode_value,
    parse_value,
    Value,
    ValueView,
    TAG_INTEGER,
    TAG_OBJECT_IDENTIFIER,
    TAG_OCTET_STRING,
    TAG_SEQUENCE,
};

verus! {

pub const TAG_GET_REQUEST: u8 = 0xA0;

pub const TAG_GET_NEXT_REQUEST: u8 = 0xA1;

pub const TAG_RESPONSE: u8 = 0xA2;

pub const TAG_SET_REQUEST: u8 = 0xA3;

pub const TAG_GET_BULK_REQUEST: u8 = 0xA5;

pub const TAG_INFORM_REQUEST: u8 = 0xA6;

pub const TAG_TRAP: u8 = 0xA7;

/// The version number that stands for SNMPv2c on the wire.
pub const VERSION_2C: i64 = 1;

/// The kinds of message.
#[derive(Clone, Copy, Debug, PartialEq, Eq, Structural)]
pub enum SnmpMessageType {
    GetRequest,
    GetNextRequest,
    GetBulkRequest,
    SetRequest,
    Response,
    Trap,
    InformRequest,
}

impl SnmpMessageType {
    /// The tag of the protocol data unit of this kind.
    pub open spec fn tag(self) -> u8 {
        match self {
            SnmpMessageType::GetRequest => TAG_GET_REQUEST,
            SnmpMessageType::GetNextRequest => TAG_GET_NEXT_REQUEST,
            SnmpMessageType::GetBulkRequest => TAG_GET_BULK_REQUEST,
            SnmpMessageType::SetRequest => TAG_SET_REQUEST,
            SnmpMessageType::Response => TAG_RESPONSE,
            SnmpMessageType::Trap => TAG_TRAP,
            SnmpMessageType::InformRequest => TAG_INFORM_REQUEST,
        }
    }

    /// The kind that a tag stands for, if any.
    pub open spec fn of_tag(tag: u8) -> Option<SnmpMessageType> {
        if tag == TAG_GET_REQUEST {
            Some(SnmpMessageType::GetRequest)
        } else if tag == TAG_GET_NEXT_REQUEST {
            Some(SnmpMessageType::GetNextRequest)
        } else if tag == TAG_GET_BULK_REQUEST {
            Some(SnmpMessageType::GetBulkRequest)
        } else if tag == TAG_SET_REQUEST {
            Some(SnmpMessageType::SetRequest)
        } else if tag == TAG_RESPONSE {
            Some(SnmpMessageType::Response)
        } else if tag == TAG_TRAP {
            Some(SnmpMessageType::Trap)
        } else if tag == TAG_INFORM_REQUEST {
            Some(SnmpMessageType::InformRequest)
        } else {
            None
        }
    }
}

/// A name and the value bound to it.
#[derive(Clone, Debug, PartialEq, Eq)]
pub struct VarBind<'a> {
    pub name: Vec<u32>,
    pub value: Value<'a>,
}

/// A binding as contracts speak of it.
pub struct VarBindView {
    pub name: Seq<u32>,
    pub value: ValueView,
}

impl<'a> View for VarBind<'a> {
    type V = VarBindView;

    open spec fn view(&self) -> VarBindView {
        VarBindView { name: self.name@, value: self.value@ }
    }
}

impl VarBindView {
    /// The name is a valid object identifier and the value is valid.
    pub open spec fn valid(self) -> bool {
        valid_oid(self.name) && self.value.valid()
    }

    /// The content of the binding's SEQUENCE: the name, then the value.
    pub open spec fn content(self) -> Seq<u8> {
        encode_tlv(TAG_OBJECT_IDENTIFIER, encode_oid(self.name)) + encode_value(self.value)
    }
}

/// The views of a list of bindings, in order.
pub open spec fn bindings_view(bindings: Seq<VarBind>) -> Seq<VarBindView> {
    Seq::new(bindings.len(), |i: int| bindings[i]@)
}

/// A decoded message. The community and the byte strings among the values
/// borrow from the buffer that was decoded.
#[derive(Clone, Debug, PartialEq, Eq)]
pub struct SnmpPdu<'a> {
    pub version: i64,
    pub community: &'a [u8],
    pub message_type: SnmpMessageType,
    pub req_id: i32,
    pub error_status: i32,
    pub error_index: i32,
    pub bindings: Vec<VarBind<'a>>,
}

/// A message as contracts speak of it.
pub struct PduView {
    pub version: i64,
    pub community: Seq<u8>,
    pub message_type: SnmpMessageType,
    pub req_id: i32,
    pub error_status: i32,
    pub error_index: i32,
    pub bindings: Seq<VarBindView>,
}

impl<'a> View for SnmpPdu<'a> {
    type V = PduView;

    open spec fn view(&self) -> PduView {
        PduView {
            version: self.version,
            community: self.community@,
            message_type: self.message_type,
            req_id: self.req_id,
            error_status: self.error_status,
            error_index: self.error_index,
            bindings: bindings_view(self.bindings@),
        }
    }
}

/// The element that encodes an integer field.
pub open spec fn encode_integer(n: int) -> Seq<u8> {
    encode_tlv(TAG_INTEGER, int_bytes(n))
}

/// The elements of a list of bindings, one after the other.
pub open spec fn encode_bindings(bindings: Seq<VarBindView>) -> Seq<u8>
    decreases bindings.len(),
{
    if bindings.len() == 0 {
        Seq::<u8>::empty()
    } else {
        encode_tlv(TAG_SEQUENCE, bindings[0].content()) + encode_bindings(bindings.skip(1))
    }
}

/// The content of a protocol data unit: the request identifier, the two
/// integers after it, and the SEQUENCE around the encoded bindings.
pub open spec fn encode_body(req_id: int, status: int, index: int, bindings: Seq<u8>) -> Seq<u8> {
    encode_integer(req_id) + encode_integer(status) + encode_integer(index) + encode_tlv(
        TAG_SEQUENCE,
        bindings,
    )
}

/// The bytes of a request of this client's version: the outer SEQUENCE
/// around version, community and a protocol data unit with the given tag,
/// integers and encoded bindings.
pub open spec fn encode_request(
    tag: u8,
    community: Seq<u8>,
    req_id: int,
    status: int,
    index: int,
    bindings: Seq<u8>,
) -> Seq<u8> {
    encode_tlv(
        TAG_SEQUENCE,
        encode_content(
            VERSION_2C as int,
            community,
            tag,
            encode_body(req_id, status, index, bindings),
        ),
    )
}

/// The content of the outer SEQUENCE: the version, the community, and the
/// protocol data unit with the given tag and content.
pub open spec fn encode_content(version: int, community: Seq<u8>, tag: u8, body: Seq<u8>) -> Seq<
    u8,
> {
    encode_integer(version) + encode_tlv(TAG_OCTET_STRING, community) + encode_tlv(tag, body)
}

/// Whether all bindings of a list are valid.
pub open spec fn valid_bindings(bindings: Seq<VarBindView>) -> bool {
    forall|i: int| 0 <= i < bindings.len() ==> (#[trigger] bindings[i]).valid()
}

impl PduView {
    /// Every binding is valid.
    pub open spec fn valid(self) -> bool {
        valid_bindings(self.bindings)
    }

    /// The content of the protocol data unit.
    pub open spec fn body(self) -> Seq<u8> {
        encode_body(
            self.req_id as int,
            self.error_status as int,
            self.error_index as int,
            encode_bindings(self.bindings),
        )
    }

    /// The content of the outer SEQUENCE.
    pub open spec fn content(self) -> Seq<u8> {
        encode_content(self.version as int, self.community, self.message_type.tag(), self.body())
    }

    /// The messages that have an encoding: the valid ones whose content has
    /// a length that a length field can declare.
    pub open spec fn wf(self) -> bool {
        self.valid() && length_encodable(self.content().len())
    }
}

/// The bytes of a message.
pub open spec fn encode_message(p: PduView) -> Seq<u8> {
    encode_tlv(TAG_SEQUENCE, p.content())
}

/// The elements of a list of bindings are the elements of any of its
/// prefixes followed by the elements of what remains.
pub proof fn lemma_encode_bindings_split(bindings: Seq<VarBindView>, k: int)
    requires
        0 <= k <= bindings.len(),
    ensures
        encode_bindings(bindings) == encode_bindings(bindings.subrange(0, k)) + encode_bindings(
            bindings.subrange(k, bindings.len() as int),
        ),
    decreases bindings.len(),
{
    let front = bindings.subrange(0, k);
    let back = bindings.subrange(k, bindings.len() as int);
    if k == 0 {
        assert(back =~= bindings);
        assert(encode_bindings(front) + encode_bindings(back) =~= encode_bindings(bindings));
    } else {
        let tail = bindings.skip(1);
        lemma_encode_bindings_split(tail, k - 1);
        assert(tail.subrange(0, k - 1) =~= front.skip(1));
        assert(tail.subrange(k - 1, tail.len() as int) =~= back);
        assert(encode_bindings(front) + encode_bindings(back) =~= encode_bindings(bindings));
    }
}

/// Reads an integer element from the start of `s`, and gives what follows.
pub open spec fn parse_integer(s: Seq<u8>) -> Option<(int, Seq<u8>)> {
    match parse_tagged(TAG_INTEGER, s) {
        Some(e) => match parse_int(e.content) {
            Some(n) => Some((n, e.rest)),
            None => None,
        },
        None => None,
    }
}

/// Reads the content of a binding: a name and a value, and nothing after
/// them.
pub open spec fn parse_binding(s: Seq<u8>) -> Option<VarBindView> {
    match parse_tagged(TAG_OBJECT_IDENTIFIER, s) {
        Some(e) => match parse_oid(e.content) {
            Some(name) => match parse_value(e.rest) {
                Some((value, rest)) => if rest.len() == 0 {
                    Some(VarBindView { name, value })
                } else {
                    None
                },
                None => None,
            },
            None => None,
        },
        None => None,
    }
}

/// Reads bindings until `s` is exhausted.
pub open spec fn parse_bindings(s: Seq<u8>) -> Option<Seq<VarBindView>>
    decreases s.len(),
{
    if s.len() == 0 {
        Some(Seq::<VarBindView>::empty())
    } else {
        match parse_tagged(TAG_SEQUENCE, s) {
            Some(e) => match parse_binding(e.content) {
                Some(b) => match parse_bindings(e.rest) {
                    Some(more) => Some(seq![b] + more),
                    None => None,
                },
                None => None,
            },
            None => None,
        }
    }
}

/// The three integers at the start of a protocol data unit, each of which
/// must fit 32 bits, and the bindings after them.
pub struct BodyView {
    pub req_id: i32,
    pub error_status: i32,
    pub error_index: i32,
    pub bindings: Seq<VarBindView>,
}

/// Reads an integer element that must fit a signed 32-bit field, and gives
/// what follows it.
pub open spec fn parse_field(s: Seq<u8>) -> Option<(i32, Seq<u8>)> {
    match parse_integer(s) {
        Some((n, rest)) => if i32::MIN <= n <= i32::MAX {
            Some((n as i32, rest))
        } else {
            None
        },
        None => None,
    }
}

/// Reads the content of a protocol data unit: three fields and the SEQUENCE
/// of bindings, and nothing after them.
pub open spec fn parse_body(s: Seq<u8>) -> Option<BodyView> {
    match parse_field(s) {
        Some((req_id, s1)) => match parse_field(s1) {
            Some((error_status, s2)) => match parse_field(s2) {
                Some((error_index, s3)) => match parse_tagged(TAG_SEQUENCE, s3) {
                    Some(e) => match parse_bindings(e.content) {
                        Some(bindings) => if e.rest.len() == 0 {
                            Some(BodyView { req_id, error_status, error_index, bindings })
                        } else {
                            None
                        },
                        None => None,
                    },
                    None => None,
                },
                None => None,
            },
            None => None,
        },
        None => None,
    }
}

/// Reads the content of the outer SEQUENCE.
pub open spec fn parse_message_content(s: Seq<u8>) -> Option<PduView> {
    match parse_integer(s) {
        Some((version, s1)) => match parse_tagged(TAG_OCTET_STRING, s1) {
            Some(c) => match parse_tlv(c.rest) {
                Some(unit) => match SnmpMessageType::of_tag(unit.tag) {
                    Some(message_type) => match parse_body(unit.content) {
                        Some(body) => if unit.rest.len() == 0 && i64::MIN <= version <= i64::MAX {
                            Some(
                                PduView {
                                    version: version as i64,
                                    community: c.content,
                                    message_type,
                                    req_id: body.req_id,
                                    error_status: body.error_status,
                                    error_index: body.error_index,
                                    bindings: body.bindings,
                                },
                            )
                        } else {
                            None
                        },
                        None => None,
                    },
                    None => None,
                },
                None => None,
            },
            None => None,
        },
        None => None,
    }
}

/// Reads a whole message. `None` unless `s` is exactly one outer SEQUENCE
/// whose content is a version, a community and one protocol data unit of a
/// known kind, each laid out as this file describes, with nothing left over
/// at any level.
pub open spec fn parse_message(s: Seq<u8>) -> Option<PduView> {
    match parse_tagged(TAG_SEQUENCE, s) {
        Some(e) => if e.rest.len() == 0 {
            parse_message_content(e.content)
        } else {
            None
        },
        None => None,
    }
}

} // verus!
