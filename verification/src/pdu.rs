//! The request builders.
//!
//! Each builder empties the send buffer and writes one request into it. The
//! buffer never grows: a request that does not fit is refused.

use vstd::prelude::*;
use crate::buf::{lemma_capacity, lemma_element, lemma_undo, pushed};
use crate::error::SnmpError;
use crate::message::{
    encode_bindings,
    encode_body,
    encode_content,
    encode_request,
    valid_bindings,
    lemma_encode_bindings_split,
    VarBindView,
    TAG_GET_BULK_REQUEST,
    TAG_GET_NEXT_REQUEST,
    TAG_GET_REQUEST,
    TAG_SET_REQUEST,
    VERSION_2C,
};
use crate::oid::{is_valid_oid, valid_oid};
use crate::tlv::encode_tlv;
use crate::value::{
    encode_value,
    Value,
    ValueView,
    TAG_BOOLEAN,
    TAG_COUNTER32,
    TAG_COUNTER64,
    TAG_END_OF_MIB_VIEW,
    TAG_INTEGER,
    TAG_IP_ADDRESS,
    TAG_NO_SUCH_INSTANCE,
    TAG_NO_SUCH_OBJECT,
    TAG_NULL,
    TAG_OCTET_STRING,
    TAG_OPAQUE,
    TAG_SEQUENCE,
    TAG_TIMETICKS,
    TAG_UNSIGNED32,
};

pub use crate::buf::{Buf, BUFFER_SIZE};

verus! {

impl Buf {
    /// Puts the element of a value in front of what is written.
    pub fn push_value(&mut self, value: &Value) -> (r: Result<(), SnmpError>)
        requires
            value@.valid(),
        ensures
            pushed(r, old(self)@, encode_value(value@), final(self)@),
    {
        match value {
            Value::Boolean(b) => {
                let byte: u8 = if *b {
                    1
                } else {
                    0
                };
                let mark: usize = self.len();
                match self.push_byte(byte) {
                    Ok(()) => {},
                    Err(e) => {
                        proof {
                            lemma_element(TAG_BOOLEAN, seq![byte], old(self)@);
                        }
                        return Err(e);
                    },
                }
                let ghost content = seq![byte];
                proof {
                    assert(self@.subrange(0, 1) =~= content);
                    assert(self@.skip(1) =~= old(self)@);
                }
                self.close_element(TAG_BOOLEAN, mark, Ghost(content))
            },
            Value::Null => self.push_empty(TAG_NULL),
            Value::Integer(i) => self.push_int_element(TAG_INTEGER, *i as i128),
            Value::OctetString(bytes) => self.push_bytes_element(TAG_OCTET_STRING, bytes),
            Value::ObjectIdentifier(arcs) => self.push_object_identifier(arcs.as_slice()),
            Value::IpAddress(address) => self.push_bytes_element(TAG_IP_ADDRESS, address.as_slice()),
            Value::Counter32(n) => self.push_int_element(TAG_COUNTER32, *n as i128),
            Value::Unsigned32(n) => self.push_int_element(TAG_UNSIGNED32, *n as i128),
            Value::Timeticks(n) => self.push_int_element(TAG_TIMETICKS, *n as i128),
            Value::Opaque(bytes) => self.push_bytes_element(TAG_OPAQUE, bytes),
            Value::Counter64(n) => self.push_int_element(TAG_COUNTER64, *n as i128),
            Value::NoSuchObject => self.push_empty(TAG_NO_SUCH_OBJECT),
            Value::NoSuchInstance => self.push_empty(TAG_NO_SUCH_INSTANCE),
            Value::EndOfMibView => self.push_empty(TAG_END_OF_MIB_VIEW),
        }
    }

    /// Puts an element without content in front of what is written.
    pub fn push_empty(&mut self, tag: u8) -> (r: Result<(), SnmpError>)
        ensures
            pushed(r, old(self)@, encode_tlv(tag, Seq::<u8>::empty()), final(self)@),
    {
        let r = self.push_header(tag, 0);
        proof {
            lemma_element(tag, Seq::<u8>::empty(), old(self)@);
            assert(Seq::<u8>::empty() + old(self)@ =~= old(self)@);
        }
        r
    }

    /// Puts the element of a binding in front of what is written.
    pub fn push_binding(&mut self, name: &[u32], value: &Value) -> (r: Result<(), SnmpError>)
        requires
            valid_oid(name@),
            value@.valid(),
        ensures
            pushed(
                r,
                old(self)@,
                encode_tlv(TAG_SEQUENCE, (VarBindView { name: name@, value: value@ }).content()),
                final(self)@,
            ),
    {
        let mark: usize = self.len();
        let ghost content = (VarBindView { name: name@, value: value@ }).content();
        proof {
            lemma_element(TAG_SEQUENCE, content, old(self)@);
        }
        match self.push_value(value) {
            Ok(()) => {},
            Err(e) => {
                return Err(e);
            },
        }
        match self.push_object_identifier(name) {
            Ok(()) => {},
            Err(e) => {
                proof {
                    lemma_undo(encode_value(value@), old(self)@);
                }
                return self.give_up(mark, e);
            },
        }
        proof {
            assert(self@ =~= content + old(self)@);
            assert(self@.subrange(0, content.len() as int) =~= content);
            assert(self@.skip(content.len() as int) =~= old(self)@);
        }
        self.close_element(TAG_SEQUENCE, mark, Ghost(content))
    }

    /// Puts the bindings of the given names to null in front of what is
    /// written, the first name first.
    pub fn push_null_bindings(&mut self, names: &[&[u32]]) -> (r: Result<(), SnmpError>)
        requires
            valid_names(names@),
        ensures
            pushed(r, old(self)@, encode_bindings(null_bindings(names@)), final(self)@),
    {
        let mark: usize = self.len();
        let ghost before = self@;
        let ghost all = null_bindings(names@);
        let n: usize = names.len();
        let mut i: usize = n;
        proof {
            assert(all.subrange(n as int, n as int) =~= Seq::<VarBindView>::empty());
            assert(self@ =~= encode_bindings(all.subrange(i as int, n as int)) + before);
        }
        while i > 0
            invariant
                before == old(self)@,
                mark == before.len(),
                all == null_bindings(names@),
                valid_names(names@),
                n == names@.len(),
                i <= n,
                self@ == encode_bindings(all.subrange(i as int, n as int)) + before,
            decreases i,
        {
            let ghost next = all.subrange(i - 1, n as int);
            proof {
                assert(next.skip(1) =~= all.subrange(i as int, n as int));
                assert(next[0] == all[i - 1]);
                lemma_encode_bindings_split(all, i - 1);
            }
            match self.push_binding(names[i - 1], &Value::Null) {
                Ok(()) => {},
                Err(e) => {
                    proof {
                        lemma_undo(encode_bindings(all.subrange(i as int, n as int)), before);
                    }
                    return self.give_up(mark, e);
                },
            }
            i = i - 1;
            assert(self@ =~= encode_bindings(next) + before);
        }
        proof {
            assert(all.subrange(0, n as int) =~= all);
            lemma_capacity(self);
        }
        Ok(())
    }

    /// Puts the given bindings in front of what is written, the first one
    /// first.
    pub fn push_bindings(&mut self, values: &[(&[u32], Value)]) -> (r: Result<(), SnmpError>)
        requires
            valid_bindings(set_bindings(values@)),
        ensures
            pushed(r, old(self)@, encode_bindings(set_bindings(values@)), final(self)@),
    {
        let mark: usize = self.len();
        let ghost before = self@;
        let ghost all = set_bindings(values@);
        let n: usize = values.len();
        let mut i: usize = n;
        proof {
            assert(all.subrange(n as int, n as int) =~= Seq::<VarBindView>::empty());
            assert(self@ =~= encode_bindings(all.subrange(i as int, n as int)) + before);
        }
        while i > 0
            invariant
                before == old(self)@,
                mark == before.len(),
                all == set_bindings(values@),
                valid_bindings(all),
                n == values@.len(),
                i <= n,
                self@ == encode_bindings(all.subrange(i as int, n as int)) + before,
            decreases i,
        {
            let ghost next = all.subrange(i - 1, n as int);
            proof {
                assert(next.skip(1) =~= all.subrange(i as int, n as int));
                assert(next[0] == all[i - 1]);
                assert(all[i - 1].valid());
                lemma_encode_bindings_split(all, i - 1);
            }
            let pair = &values[i - 1];
            match self.push_binding(pair.0, &pair.1) {
                Ok(()) => {},
                Err(e) => {
                    proof {
                        lemma_undo(encode_bindings(all.subrange(i as int, n as int)), before);
                    }
                    return self.give_up(mark, e);
                },
            }
            i = i - 1;
            assert(self@ =~= encode_bindings(next) + before);
        }
        proof {
            assert(all.subrange(0, n as int) =~= all);
            lemma_capacity(self);
        }
        Ok(())
    }

    /// Wraps what is written, taken as encoded bindings, into a whole
    /// request: the SEQUENCE around the bindings, the three integers, the tag
    /// of the protocol data unit, the community, the version, and the outer
    /// SEQUENCE. Where the request does not fit, nothing is left of it.
    pub fn push_frame(
        &mut self,
        tag: u8,
        community: &[u8],
        req_id: i32,
        status: i64,
        index: i64,
    ) -> (r: Result<(), SnmpError>)
        ensures
            match r {
                Ok(()) => final(self)@ == encode_request(
                    tag,
                    community@,
                    req_id as int,
                    status as int,
                    index as int,
                    old(self)@,
                ) && final(self)@.len() <= BUFFER_SIZE,
                Err(e) => e == SnmpError::BufferExhausted && encode_request(
                    tag,
                    community@,
                    req_id as int,
                    status as int,
                    index as int,
                    old(self)@,
                ).len() > BUFFER_SIZE && final(self)@ == Seq::<u8>::empty(),
            },
    {
        let ghost bindings = self@;
        let ghost nothing = Seq::<u8>::empty();
        let ghost body = encode_body(req_id as int, status as int, index as int, bindings);
        let ghost content = encode_content(VERSION_2C as int, community@, tag, body);
        proof {
            lemma_element(TAG_SEQUENCE, bindings, nothing);
            lemma_element(tag, body, nothing);
            lemma_element(TAG_SEQUENCE, content, nothing);
            assert(bindings + nothing =~= bindings);
        }
        let inner: usize = self.len();
        match self.push_header(TAG_SEQUENCE, inner) {
            Ok(()) => {},
            Err(e) => {
                return self.give_up(0, e);
            },
        }
        assert(self@ =~= encode_tlv(TAG_SEQUENCE, bindings));
        match self.push_integer(index) {
            Ok(()) => {},
            Err(e) => {
                return self.give_up(0, e);
            },
        }
        match self.push_integer(status) {
            Ok(()) => {},
            Err(e) => {
                return self.give_up(0, e);
            },
        }
        match self.push_integer(req_id as i64) {
            Ok(()) => {},
            Err(e) => {
                return self.give_up(0, e);
            },
        }
        assert(self@ =~= body);
        assert(body + nothing =~= body);
        let unit: usize = self.len();
        match self.push_header(tag, unit) {
            Ok(()) => {},
            Err(e) => {
                return self.give_up(0, e);
            },
        }
        assert(self@ =~= encode_tlv(tag, body));
        match self.push_bytes_element(TAG_OCTET_STRING, community) {
            Ok(()) => {},
            Err(e) => {
                return self.give_up(0, e);
            },
        }
        match self.push_integer(VERSION_2C) {
            Ok(()) => {},
            Err(e) => {
                return self.give_up(0, e);
            },
        }
        assert(self@ =~= content);
        assert(content + nothing =~= content);
        let whole: usize = self.len();
        match self.push_header(TAG_SEQUENCE, whole) {
            Ok(()) => {},
            Err(e) => {
                return self.give_up(0, e);
            },
        }
        proof {
            assert(self@ =~= encode_tlv(TAG_SEQUENCE, content));
            lemma_capacity(self);
        }
        Ok(())
    }
}

/// Whether every name of a list is a valid object identifier.
pub open spec fn valid_names(names: Seq<&[u32]>) -> bool {
    forall|i: int| 0 <= i < names.len() ==> valid_oid((#[trigger] names[i])@)
}

/// The bindings of the given names to null, in order.
pub open spec fn null_bindings(names: Seq<&[u32]>) -> Seq<VarBindView> {
    Seq::new(names.len(), |i: int| VarBindView { name: names[i]@, value: ValueView::Null })
}

/// The bindings that a list of pairs of a name and a value stands for.
pub open spec fn set_bindings(values: Seq<(&[u32], Value)>) -> Seq<VarBindView> {
    Seq::new(values.len(), |i: int| VarBindView { name: values[i].0@, value: values[i].1@ })
}

/// What a builder ensures of the buffer it was given: on success it holds
/// `message`; the builder fails exactly where `message` is longer than the
/// buffer, and then leaves it empty.
pub open spec fn built(r: Result<(), SnmpError>, message: Seq<u8>, after: Seq<u8>) -> bool {
    match r {
        Ok(()) => after == message && message.len() <= BUFFER_SIZE,
        Err(e) => e == SnmpError::BufferExhausted && message.len() > BUFFER_SIZE && after
            == Seq::<u8>::empty(),
    }
}

/// Writes a request for the value of one name.
pub fn build_get(community: &[u8], req_id: i32, name: &[u32], buf: &mut Buf) -> (r: Result<
    (),
    SnmpError,
>)
    requires
        valid_oid(name@),
    ensures
        built(
            r,
            encode_request(
                TAG_GET_REQUEST,
                community@,
                req_id as int,
                0,
                0,
                encode_bindings(seq![VarBindView { name: name@, value: ValueView::Null }]),
            ),
            final(buf)@,
        ),
{
    build_single(TAG_GET_REQUEST, community, req_id, name, buf)
}

/// Writes a request for the value of the name that follows the given one.
pub fn build_getnext(community: &[u8], req_id: i32, name: &[u32], buf: &mut Buf) -> (r: Result<
    (),
    SnmpError,
>)
    requires
        valid_oid(name@),
    ensures
        built(
            r,
            encode_request(
                TAG_GET_NEXT_REQUEST,
                community@,
                req_id as int,
                0,
                0,
                encode_bindings(seq![VarBindView { name: name@, value: ValueView::Null }]),
            ),
            final(buf)@,
        ),
{
    build_single(TAG_GET_NEXT_REQUEST, community, req_id, name, buf)
}

/// Writes a request of the given kind that binds one name to null.
fn build_single(tag: u8, community: &[u8], req_id: i32, name: &[u32], buf: &mut Buf) -> (r: Result<
    (),
    SnmpError,
>)
    requires
        valid_oid(name@),
    ensures
        built(
            r,
            encode_request(
                tag,
                community@,
                req_id as int,
                0,
                0,
                encode_bindings(seq![VarBindView { name: name@, value: ValueView::Null }]),
            ),
            final(buf)@,
        ),
{
    buf.reset();
    let ghost nothing = Seq::<u8>::empty();
    let ghost binding = VarBindView { name: name@, value: ValueView::Null };
    let ghost bindings = encode_bindings(seq![binding]);
    proof {
        assert(seq![binding].skip(1) =~= Seq::<VarBindView>::empty());
        assert(encode_bindings(Seq::<VarBindView>::empty()) =~= nothing);
        assert(bindings =~= encode_tlv(TAG_SEQUENCE, binding.content()));
        assert(bindings + nothing =~= bindings);
        lemma_request_len(tag, community@, req_id as int, 0, 0, bindings);
    }
    match buf.push_binding(name, &Value::Null) {
        Ok(()) => {},
        Err(e) => {
            return Err(e);
        },
    }
    assert(buf@ =~= bindings);
    buf.push_frame(tag, community, req_id, 0, 0)
}

/// Writes a bulk request: the first `non_repeaters` names are asked for
/// once, the others up to `max_repetitions` times. The two counts stand
/// where the other requests have error status and error index.
pub fn build_getbulk(
    community: &[u8],
    req_id: i32,
    names: &[&[u32]],
    non_repeaters: u32,
    max_repetitions: u32,
    buf: &mut Buf,
) -> (r: Result<(), SnmpError>)
    requires
        valid_names(names@),
    ensures
        built(
            r,
            encode_request(
                TAG_GET_BULK_REQUEST,
                community@,
                req_id as int,
                non_repeaters as int,
                max_repetitions as int,
                encode_bindings(null_bindings(names@)),
            ),
            final(buf)@,
        ),
{
    buf.reset();
    let ghost nothing = Seq::<u8>::empty();
    let ghost bindings = encode_bindings(null_bindings(names@));
    proof {
        assert(bindings + nothing =~= bindings);
        lemma_request_len(
            TAG_GET_BULK_REQUEST,
            community@,
            req_id as int,
            non_repeaters as int,
            max_repetitions as int,
            bindings,
        );
    }
    match buf.push_null_bindings(names) {
        Ok(()) => {},
        Err(e) => {
            return Err(e);
        },
    }
    assert(buf@ =~= bindings);
    buf.push_frame(
        TAG_GET_BULK_REQUEST,
        community,
        req_id,
        non_repeaters as i64,
        max_repetitions as i64,
    )
}

/// Whether a set request may carry all the given bindings.
pub open spec fn all_settable(bindings: Seq<VarBindView>) -> bool {
    forall|i: int| 0 <= i < bindings.len() ==> (#[trigger] bindings[i]).value.settable()
}

/// Whether a set request may carry the value.
pub fn is_settable(value: &Value) -> (b: bool)
    ensures
        b == value@.settable(),
{
    match value {
        Value::NoSuchObject => false,
        Value::NoSuchInstance => false,
        Value::EndOfMibView => false,
        _ => true,
    }
}

/// Writes a request to set the given names to the given values. A value that
/// only a response can hold is refused with `UnsupportedValueType`, before
/// anything is written and whatever the length of the request would be.
pub fn build_set(community: &[u8], req_id: i32, values: &[(&[u32], Value)], buf: &mut Buf) -> (r:
    Result<(), SnmpError>)
    requires
        valid_bindings(set_bindings(values@)),
    ensures
        !all_settable(set_bindings(values@)) ==> r == Err::<(), SnmpError>(
            SnmpError::UnsupportedValueType,
        ) && final(buf)@ == Seq::<u8>::empty(),
        all_settable(set_bindings(values@)) ==> built(
            r,
            encode_request(
                TAG_SET_REQUEST,
                community@,
                req_id as int,
                0,
                0,
                encode_bindings(set_bindings(values@)),
            ),
            final(buf)@,
        ),
{
    buf.reset();
    let ghost all = set_bindings(values@);
    let mut i: usize = 0;
    while i < values.len()
        invariant
            i <= values@.len(),
            all == set_bindings(values@),
            buf@ == Seq::<u8>::empty(),
            forall|j: int| 0 <= j < i ==> (#[trigger] all[j]).value.settable(),
        decreases values@.len() - i,
    {
        if !is_settable(&values[i].1) {
            assert(!all[i as int].value.settable());
            return Err(SnmpError::UnsupportedValueType);
        }
        i = i + 1;
    }
    let ghost nothing = Seq::<u8>::empty();
    let ghost bindings = encode_bindings(all);
    proof {
        assert(bindings + nothing =~= bindings);
        lemma_request_len(TAG_SET_REQUEST, community@, req_id as int, 0, 0, bindings);
    }
    match buf.push_bindings(values) {
        Ok(()) => {},
        Err(e) => {
            return Err(e);
        },
    }
    assert(buf@ =~= bindings);
    buf.push_frame(TAG_SET_REQUEST, community, req_id, 0, 0)
}

/// Whether the value can be encoded: an object identifier must be valid.
pub fn is_valid_value(value: &Value) -> (b: bool)
    ensures
        b == value@.valid(),
{
    match value {
        Value::ObjectIdentifier(arcs) => is_valid_oid(arcs.as_slice()),
        _ => true,
    }
}

/// Whether every name of a list can be encoded.
pub fn are_valid_names(names: &[&[u32]]) -> (b: bool)
    ensures
        b == valid_names(names@),
{
    let mut i: usize = 0;
    while i < names.len()
        invariant
            i <= names@.len(),
            forall|j: int| 0 <= j < i ==> valid_oid((#[trigger] names@[j])@),
        decreases names@.len() - i,
    {
        if !is_valid_oid(names[i]) {
            return false;
        }
        i = i + 1;
    }
    true
}

/// Whether every binding of a list can be encoded.
pub fn are_valid_bindings(values: &[(&[u32], Value)]) -> (b: bool)
    ensures
        b == valid_bindings(set_bindings(values@)),
{
    let ghost all = set_bindings(values@);
    let mut i: usize = 0;
    while i < values.len()
        invariant
            i <= values@.len(),
            all == set_bindings(values@),
            forall|j: int| 0 <= j < i ==> (#[trigger] all[j]).valid(),
        decreases values@.len() - i,
    {
        let pair = &values[i];
        if !is_valid_oid(pair.0) || !is_valid_value(&pair.1) {
            assert(!all[i as int].valid());
            return false;
        }
        assert(all[i as int].valid());
        i = i + 1;
    }
    true
}

/// A request is longer than the bindings it holds.
pub proof fn lemma_request_len(
    tag: u8,
    community: Seq<u8>,
    req_id: int,
    status: int,
    index: int,
    bindings: Seq<u8>,
)
    ensures
        encode_request(tag, community, req_id, status, index, bindings).len() > bindings.len(),
{
    let nothing = Seq::<u8>::empty();
    let body = encode_body(req_id, status, index, bindings);
    let content = encode_content(VERSION_2C as int, community, tag, body);
    lemma_element(TAG_SEQUENCE, bindings, nothing);
    lemma_element(tag, body, nothing);
    lemma_element(TAG_SEQUENCE, content, nothing);
}

} // verus!
