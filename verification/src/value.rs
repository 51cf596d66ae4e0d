//! The values that a variable binding can carry, and their encoding.

use vstd::prelude::*;
use crate::integer::{int_bytes, parse_int, lemma_parse_int_round_trip};
use crate::oid::{valid_oid, encode_oid, parse_oid, lemma_oid_round_trip};
use crate::tlv::{
    encode_tlv,
    length_encodable,
    parse_tlv,
    lemma_small_length_encodable,
    lemma_tlv_round_trip,
};

verus! {

pub const TAG_BOOLEAN: u8 = 0x01;

pub const TAG_INTEGER: u8 = 0x02;

pub const TAG_OCTET_STRING: u8 = 0x04;

pub const TAG_NULL: u8 = 0x05;

pub const TAG_OBJECT_IDENTIFIER: u8 = 0x06;

pub const TAG_SEQUENCE: u8 = 0x30;

pub const TAG_IP_ADDRESS: u8 = 0x40;

pub const TAG_COUNTER32: u8 = 0x41;

pub const TAG_UNSIGNED32: u8 = 0x42;

pub const TAG_TIMETICKS: u8 = 0x43;

pub const TAG_OPAQUE: u8 = 0x44;

pub const TAG_COUNTER64: u8 = 0x46;

pub const TAG_NO_SUCH_OBJECT: u8 = 0x80;

pub const TAG_NO_SUCH_INSTANCE: u8 = 0x81;

pub const TAG_END_OF_MIB_VIEW: u8 = 0x82;

/// A value as it is held in memory. Byte strings borrow from the buffer they
/// were read from, or from the caller who wants them sent.
#[derive(Clone, Debug, PartialEq, Eq)]
pub enum Value<'a> {
    Boolean(bool),
    Null,
    Integer(i64),
    OctetString(&'a [u8]),
    ObjectIdentifier(Vec<u32>),
    IpAddress([u8; 4]),
    Counter32(u32),
    Unsigned32(u32),
    Timeticks(u32),
    Opaque(&'a [u8]),
    Counter64(u64),
    NoSuchObject,
    NoSuchInstance,
    EndOfMibView,
}

/// A value as contracts speak of it: byte strings and arcs are sequences.
pub enum ValueView {
    Boolean(bool),
    Null,
    Integer(i64),
    OctetString(Seq<u8>),
    ObjectIdentifier(Seq<u32>),
    IpAddress(Seq<u8>),
    Counter32(u32),
    Unsigned32(u32),
    Timeticks(u32),
    Opaque(Seq<u8>),
    Counter64(u64),
    NoSuchObject,
    NoSuchInstance,
    EndOfMibView,
}

impl<'a> View for Value<'a> {
    type V = ValueView;

    open spec fn view(&self) -> ValueView {
        match *self {
            Value::Boolean(b) => ValueView::Boolean(b),
            Value::Null => ValueView::Null,
            Value::Integer(i) => ValueView::Integer(i),
            Value::OctetString(s) => ValueView::OctetString(s@),
            Value::ObjectIdentifier(arcs) => ValueView::ObjectIdentifier(arcs@),
            Value::IpAddress(a) => ValueView::IpAddress(a@),
            Value::Counter32(n) => ValueView::Counter32(n),
            Value::Unsigned32(n) => ValueView::Unsigned32(n),
            Value::Timeticks(n) => ValueView::Timeticks(n),
            Value::Opaque(s) => ValueView::Opaque(s@),
            Value::Counter64(n) => ValueView::Counter64(n),
            Value::NoSuchObject => ValueView::NoSuchObject,
            Value::NoSuchInstance => ValueView::NoSuchInstance,
            Value::EndOfMibView => ValueView::EndOfMibView,
        }
    }
}

impl ValueView {
    /// The tag byte of the variant. Each variant has its own.
    pub open spec fn tag(self) -> u8 {
        match self {
            ValueView::Boolean(_) => TAG_BOOLEAN,
            ValueView::Null => TAG_NULL,
            ValueView::Integer(_) => TAG_INTEGER,
            ValueView::OctetString(_) => TAG_OCTET_STRING,
            ValueView::ObjectIdentifier(_) => TAG_OBJECT_IDENTIFIER,
            ValueView::IpAddress(_) => TAG_IP_ADDRESS,
            ValueView::Counter32(_) => TAG_COUNTER32,
            ValueView::Unsigned32(_) => TAG_UNSIGNED32,
            ValueView::Timeticks(_) => TAG_TIMETICKS,
            ValueView::Opaque(_) => TAG_OPAQUE,
            ValueView::Counter64(_) => TAG_COUNTER64,
            ValueView::NoSuchObject => TAG_NO_SUCH_OBJECT,
            ValueView::NoSuchInstance => TAG_NO_SUCH_INSTANCE,
            ValueView::EndOfMibView => TAG_END_OF_MIB_VIEW,
        }
    }

    /// The content bytes of the value.
    pub open spec fn content(self) -> Seq<u8> {
        match self {
            ValueView::Boolean(b) => seq![if b { 1u8 } else { 0u8 }],
            ValueView::Integer(i) => int_bytes(i as int),
            ValueView::OctetString(s) => s,
            ValueView::ObjectIdentifier(arcs) => encode_oid(arcs),
            ValueView::IpAddress(a) => a,
            ValueView::Counter32(n) => int_bytes(n as int),
            ValueView::Unsigned32(n) => int_bytes(n as int),
            ValueView::Timeticks(n) => int_bytes(n as int),
            ValueView::Opaque(s) => s,
            ValueView::Counter64(n) => int_bytes(n as int),
            _ => Seq::<u8>::empty(),
        }
    }

    /// The values that the type is meant to hold: an object identifier is
    /// valid and an address has four bytes.
    pub open spec fn valid(self) -> bool {
        match self {
            ValueView::ObjectIdentifier(arcs) => valid_oid(arcs),
            ValueView::IpAddress(a) => a.len() == 4,
            _ => true,
        }
    }

    /// The values that have an encoding: the valid ones whose content has a
    /// length that a length field can declare.
    pub open spec fn wf(self) -> bool {
        self.valid() && length_encodable(self.content().len())
    }

    /// Whether a set request may carry the value: everything but the three
    /// markers that only a response can hold.
    pub open spec fn settable(self) -> bool {
        !(self is NoSuchObject || self is NoSuchInstance || self is EndOfMibView)
    }
}

/// The element that encodes a value.
pub open spec fn encode_value(v: ValueView) -> Seq<u8> {
    encode_tlv(v.tag(), v.content())
}

/// The value that a tag and content bytes denote. `None` for a tag that
/// belongs to no variant and for content that the variant does not allow: a
/// boolean or an address of the wrong length, a marker or null with content,
/// an integer that is empty, too long or out of the variant's range, an
/// object identifier that is malformed.
pub open spec fn parse_content(tag: u8, content: Seq<u8>) -> Option<ValueView> {
    if tag == TAG_BOOLEAN {
        if content.len() == 1 {
            Some(ValueView::Boolean(content[0] != 0))
        } else {
            None
        }
    } else if tag == TAG_NULL {
        if content.len() == 0 {
            Some(ValueView::Null)
        } else {
            None
        }
    } else if tag == TAG_INTEGER {
        match parse_int(content) {
            Some(i) => if i64::MIN <= i <= i64::MAX {
                Some(ValueView::Integer(i as i64))
            } else {
                None
            },
            None => None,
        }
    } else if tag == TAG_OCTET_STRING {
        Some(ValueView::OctetString(content))
    } else if tag == TAG_OBJECT_IDENTIFIER {
        match parse_oid(content) {
            Some(arcs) => Some(ValueView::ObjectIdentifier(arcs)),
            None => None,
        }
    } else if tag == TAG_IP_ADDRESS {
        if content.len() == 4 {
            Some(ValueView::IpAddress(content))
        } else {
            None
        }
    } else if tag == TAG_COUNTER32 || tag == TAG_UNSIGNED32 || tag == TAG_TIMETICKS {
        match parse_int(content) {
            Some(i) => if 0 <= i <= u32::MAX {
                if tag == TAG_COUNTER32 {
                    Some(ValueView::Counter32(i as u32))
                } else if tag == TAG_UNSIGNED32 {
                    Some(ValueView::Unsigned32(i as u32))
                } else {
                    Some(ValueView::Timeticks(i as u32))
                }
            } else {
                None
            },
            None => None,
        }
    } else if tag == TAG_OPAQUE {
        Some(ValueView::Opaque(content))
    } else if tag == TAG_COUNTER64 {
        match parse_int(content) {
            Some(i) => if 0 <= i <= u64::MAX {
                Some(ValueView::Counter64(i as u64))
            } else {
                None
            },
            None => None,
        }
    } else if tag == TAG_NO_SUCH_OBJECT || tag == TAG_NO_SUCH_INSTANCE || tag
        == TAG_END_OF_MIB_VIEW {
        if content.len() != 0 {
            None
        } else if tag == TAG_NO_SUCH_OBJECT {
            Some(ValueView::NoSuchObject)
        } else if tag == TAG_NO_SUCH_INSTANCE {
            Some(ValueView::NoSuchInstance)
        } else {
            Some(ValueView::EndOfMibView)
        }
    } else {
        None
    }
}

/// The tag alone decides the variant: whatever content a tag is read with,
/// the value that results has that tag.
pub proof fn lemma_tag_decides_variant(tag: u8, content: Seq<u8>)
    requires
        parse_content(tag, content) is Some,
    ensures
        parse_content(tag, content).unwrap().tag() == tag,
{
}

/// Reads one value from the start of `s`, and gives what follows it.
pub open spec fn parse_value(s: Seq<u8>) -> Option<(ValueView, Seq<u8>)> {
    match parse_tlv(s) {
        Some(e) => match parse_content(e.tag, e.content) {
            Some(v) => Some((v, e.rest)),
            None => None,
        },
        None => None,
    }
}

/// The content of an integer of any variant can be declared by a length
/// field.
pub proof fn lemma_int_content_encodable(n: int)
    requires
        i64::MIN <= n <= u64::MAX,
    ensures
        1 <= int_bytes(n).len() <= 9,
        length_encodable(int_bytes(n).len()),
{
    lemma_parse_int_round_trip(n);
    lemma_small_length_encodable(int_bytes(n).len());
}

/// Decoding the content of a valid value under its tag gives the value
/// back.
pub proof fn lemma_content_round_trip(v: ValueView)
    requires
        v.valid(),
    ensures
        parse_content(v.tag(), v.content()) == Some(v),
{
    match v {
        ValueView::Integer(i) => lemma_parse_int_round_trip(i as int),
        ValueView::Counter32(n) => lemma_parse_int_round_trip(n as int),
        ValueView::Unsigned32(n) => lemma_parse_int_round_trip(n as int),
        ValueView::Timeticks(n) => lemma_parse_int_round_trip(n as int),
        ValueView::Counter64(n) => lemma_parse_int_round_trip(n as int),
        ValueView::ObjectIdentifier(arcs) => lemma_oid_round_trip(arcs),
        _ => {},
    }
}

/// Round trip: decoding the encoding of a value gives the value back, of
/// every variant, and leaves what followed the encoding. It holds for every
/// value that has an encoding.
pub proof fn lemma_value_round_trip(v: ValueView, rest: Seq<u8>)
    requires
        v.wf(),
    ensures
        parse_value(encode_value(v) + rest) == Some((v, rest)),
{
    lemma_content_round_trip(v);
    lemma_tlv_round_trip(v.tag(), v.content(), rest);
}

} // verus!
