//! The state of a client session and the rules of an exchange.
//!
//! A session owns the community string, the next request identifier and the
//! send buffer. It does no input or output. The caller sends the request
//! that the session built and tells the session how that went; where the
//! request was sent it is handed the identifier that the request carried.
//! It then waits for one datagram and gives the session what came of the
//! wait, together with that identifier. The session decides what the
//! exchange amounts to.

use vstd::prelude::*;
use crate::buf::{Buf, BUFFER_SIZE};
use crate::error::SnmpError;
use crate::message::{
    encode_bindings,
    encode_request,
    parse_message,
    valid_bindings,
    PduView,
    SnmpMessageType,
    SnmpPdu,
    VarBindView,
    TAG_GET_BULK_REQUEST,
    TAG_GET_NEXT_REQUEST,
    TAG_GET_REQUEST,
    TAG_SET_REQUEST,
};
use crate::oid::valid_oid;
use crate::pdu::{
    all_settable,
    build_get,
    build_getbulk,
    build_getnext,
    build_set,
    built,
    null_bindings,
    set_bindings,
    valid_names,
};
use crate::value::{Value, ValueView};

verus! {

/// How waiting for one datagram went.
#[derive(Clone, Copy, Debug, PartialEq, Eq)]
pub enum Received<'a> {
    /// The transport reported an error.
    Failed,
    /// The deadline passed first.
    TimedOut,
    /// These bytes arrived.
    Datagram(&'a [u8]),
}

/// The request identifier after `id`. It wraps from the greatest to the
/// least 32-bit value.
pub open spec fn next_req_id(id: i32) -> i32 {
    if id == i32::MAX {
        i32::MIN
    } else {
        (id + 1) as i32
    }
}

/// The identifier of the next request after an attempt to send one that
/// carried `id`: the next one where it was sent, the same where it was not.
pub open spec fn advance(id: i32, sent: bool) -> i32 {
    if sent {
        next_req_id(id)
    } else {
        id
    }
}

/// The identifier of the next request after a run of attempts to send, in a
/// session that began with `start`. For each attempt `sends` tells whether
/// the request was sent.
pub open spec fn req_id_after(start: i32, sends: Seq<bool>) -> i32
    decreases sends.len(),
{
    if sends.len() == 0 {
        start
    } else {
        advance(req_id_after(start, sends.drop_last()), sends.last())
    }
}

/// The number of requests that were sent in a run of attempts.
pub open spec fn sent_count(sends: Seq<bool>) -> nat
    decreases sends.len(),
{
    if sends.len() == 0 {
        0
    } else {
        sent_count(sends.drop_last()) + if sends.last() {
            1nat
        } else {
            0nat
        }
    }
}

/// The 32-bit two's-complement number that is congruent to `n` modulo 2^32.
pub open spec fn wrap_i32(n: int) -> i32 {
    ((n + 0x8000_0000) % 0x1_0000_0000 - 0x8000_0000) as i32
}

/// Request identifiers advance by one per request sent, whether or not a
/// valid response came back: after a run of attempts the next identifier is
/// the first plus the number of requests sent, wrapped to 32 bits. Where
/// every request of the run was sent, that is the first plus the length of
/// the run.
pub proof fn lemma_req_id_after(start: i32, sends: Seq<bool>)
    ensures
        req_id_after(start, sends) == wrap_i32(start + sent_count(sends)),
        (forall|i: int| 0 <= i < sends.len() ==> sends[i]) ==> req_id_after(start, sends)
            == wrap_i32(start + sends.len()),
    decreases sends.len(),
{
    if sends.len() > 0 {
        let before = sends.drop_last();
        lemma_req_id_after(start, before);
        if forall|i: int| 0 <= i < sends.len() ==> sends[i] {
            assert forall|i: int| 0 <= i < before.len() implies before[i] by {
                assert(before[i] == sends[i]);
            }
            assert(sends[sends.len() - 1]);
            lemma_all_sent(sends);
            lemma_all_sent(before);
        }
    }
}

/// In a run in which every request was sent, as many were sent as the run
/// is long.
pub proof fn lemma_all_sent(sends: Seq<bool>)
    requires
        forall|i: int| 0 <= i < sends.len() ==> sends[i],
    ensures
        sent_count(sends) == sends.len(),
    decreases sends.len(),
{
    if sends.len() > 0 {
        let before = sends.drop_last();
        assert forall|i: int| 0 <= i < before.len() implies before[i] by {
            assert(before[i] == sends[i]);
        }
        lemma_all_sent(before);
        assert(sends[sends.len() - 1]);
    }
}

/// What receiving amounts to, before any check against a request: a failure
/// of the transport, a timeout, a datagram longer than the receive buffer
/// (a receive failure too), bytes that are no message, or a message.
pub open spec fn reception(received: Received) -> Result<PduView, SnmpError> {
    match received {
        Received::Failed => Err(SnmpError::ReceiveFailure),
        Received::TimedOut => Err(SnmpError::ReceiveTimeout),
        Received::Datagram(bytes) => if bytes@.len() > BUFFER_SIZE {
            Err(SnmpError::ReceiveFailure)
        } else {
            match parse_message(bytes@) {
                Some(pdu) => Ok(pdu),
                None => Err(SnmpError::MalformedEncoding),
            }
        },
    }
}

/// The three checks on a message that claims to answer a request, in order:
/// it is a response, it carries the identifier of the request, and it
/// carries the community of the session.
pub open spec fn correlate(pdu: PduView, req_id: i32, community: Seq<u8>) -> Result<
    (),
    SnmpError,
> {
    if pdu.message_type != SnmpMessageType::Response {
        Err(SnmpError::WrongMessageType)
    } else if pdu.req_id != req_id {
        Err(SnmpError::RequestIdMismatch)
    } else if pdu.community != community {
        Err(SnmpError::CommunityMismatch)
    } else {
        Ok(())
    }
}

/// What the wait for a response amounts to, for a request that carried
/// `req_id` in a session with the given community: the error of the wait,
/// or the error of the first check that the message fails, or the message.
pub open spec fn outcome(received: Received, req_id: i32, community: Seq<u8>) -> Result<
    PduView,
    SnmpError,
> {
    match reception(received) {
        Ok(pdu) => match correlate(pdu, req_id, community) {
            Ok(()) => Ok(pdu),
            Err(e) => Err(e),
        },
        Err(e) => Err(e),
    }
}

/// Whether a result holds the message or the error that was expected.
pub open spec fn yields(r: Result<SnmpPdu, SnmpError>, expected: Result<PduView, SnmpError>) -> bool {
    match expected {
        Ok(pdu) => r is Ok && r.unwrap()@ == pdu,
        Err(e) => r is Err && r.unwrap_err() == e,
    }
}

/// A response that carries another identifier than the request is rejected
/// as such, whatever else it holds; one that carries the identifier but
/// another community is rejected for its community.
pub proof fn lemma_mismatch_rejected(pdu: PduView, req_id: i32, community: Seq<u8>)
    requires
        pdu.message_type == SnmpMessageType::Response,
    ensures
        pdu.req_id != req_id ==> correlate(pdu, req_id, community) == Err::<(), SnmpError>(
            SnmpError::RequestIdMismatch,
        ),
        pdu.req_id == req_id && pdu.community != community ==> correlate(pdu, req_id, community)
            == Err::<(), SnmpError>(SnmpError::CommunityMismatch),
        correlate(pdu, req_id, community) is Ok <==> pdu.req_id == req_id && pdu.community
            == community,
{
}

/// Whether two byte strings are equal.
pub fn same_bytes(a: &[u8], b: &[u8]) -> (same: bool)
    ensures
        same == (a@ == b@),
{
    if a.len() != b.len() {
        return false;
    }
    let mut i: usize = 0;
    while i < a.len()
        invariant
            i <= a@.len(),
            a@.len() == b@.len(),
            forall|j: int| 0 <= j < i ==> a@[j] == b@[j],
        decreases a@.len() - i,
    {
        if a[i] != b[i] {
            return false;
        }
        i = i + 1;
    }
    assert(a@ =~= b@);
    true
}

/// Checks a decoded message against the request it should answer. The
/// checks run in the order of `correlate`, and the first that fails decides
/// the error.
pub fn check_response(pdu: &SnmpPdu, req_id: i32, community: &[u8]) -> (r: Result<(), SnmpError>)
    ensures
        r == correlate(pdu@, req_id, community@),
{
    match pdu.message_type {
        SnmpMessageType::Response => {},
        _ => {
            return Err(SnmpError::WrongMessageType);
        },
    }
    if pdu.req_id != req_id {
        return Err(SnmpError::RequestIdMismatch);
    }
    if !same_bytes(pdu.community, community) {
        return Err(SnmpError::CommunityMismatch);
    }
    Ok(())
}

/// Decides what receiving amounts to. This is all there is to receiving a
/// trap: no request is outstanding, so nothing is checked against one.
pub fn receive<'a>(received: Received<'a>) -> (r: Result<SnmpPdu<'a>, SnmpError>)
    ensures
        yields(r, reception(received)),
{
    match received {
        Received::Failed => Err(SnmpError::ReceiveFailure),
        Received::TimedOut => Err(SnmpError::ReceiveTimeout),
        Received::Datagram(bytes) => {
            if bytes.len() > BUFFER_SIZE {
                return Err(SnmpError::ReceiveFailure);
            }
            SnmpPdu::from_bytes(bytes)
        },
    }
}

/// The state that a client keeps between exchanges.
pub struct Session {
    community: Vec<u8>,
    req_id: i32,
    send_pdu: Buf,
}

impl Session {
    /// The community string of the session.
    pub closed spec fn community(&self) -> Seq<u8> {
        self.community@
    }

    /// The identifier that the next request will carry.
    pub closed spec fn req_id(&self) -> i32 {
        self.req_id
    }

    /// The bytes of the request that was built last.
    pub closed spec fn request(&self) -> Seq<u8> {
        self.send_pdu@
    }

    /// A session with the given community whose first request will carry
    /// `req_id`.
    pub fn new(community: &[u8], req_id: i32) -> (s: Session)
        ensures
            s.community() == community@,
            s.req_id() == req_id,
            s.request() == Seq::<u8>::empty(),
    {
        Session { community: vstd::slice::slice_to_vec(community), req_id, send_pdu: Buf::new() }
    }

    /// The identifier that the next request will carry.
    pub fn next_request_id(&self) -> (id: i32)
        ensures
            id == self.req_id(),
    {
        self.req_id
    }

    /// The bytes to send: the request that was built last.
    pub fn request_bytes(&self) -> (bytes: &[u8])
        ensures
            bytes@ == self.request(),
    {
        self.send_pdu.as_slice()
    }

    /// Builds a request for the value of one name, with the session's
    /// community and next identifier.
    pub fn begin_get(&mut self, name: &[u32]) -> (r: Result<(), SnmpError>)
        requires
            valid_oid(name@),
        ensures
            final(self).community() == old(self).community(),
            final(self).req_id() == old(self).req_id(),
            built(
                r,
                encode_request(
                    TAG_GET_REQUEST,
                    old(self).community(),
                    old(self).req_id() as int,
                    0,
                    0,
                    encode_bindings(seq![VarBindView { name: name@, value: ValueView::Null }]),
                ),
                final(self).request(),
            ),
    {
        build_get(self.community.as_slice(), self.req_id, name, &mut self.send_pdu)
    }

    /// Builds a request for the value of the name that follows the given
    /// one.
    pub fn begin_getnext(&mut self, name: &[u32]) -> (r: Result<(), SnmpError>)
        requires
            valid_oid(name@),
        ensures
            final(self).community() == old(self).community(),
            final(self).req_id() == old(self).req_id(),
            built(
                r,
                encode_request(
                    TAG_GET_NEXT_REQUEST,
                    old(self).community(),
                    old(self).req_id() as int,
                    0,
                    0,
                    encode_bindings(seq![VarBindView { name: name@, value: ValueView::Null }]),
                ),
                final(self).request(),
            ),
    {
        build_getnext(self.community.as_slice(), self.req_id, name, &mut self.send_pdu)
    }

    /// Builds a bulk request for the given names.
    pub fn begin_getbulk(&mut self, names: &[&[u32]], non_repeaters: u32, max_repetitions: u32) -> (r:
        Result<(), SnmpError>)
        requires
            valid_names(names@),
        ensures
            final(self).community() == old(self).community(),
            final(self).req_id() == old(self).req_id(),
            built(
                r,
                encode_request(
                    TAG_GET_BULK_REQUEST,
                    old(self).community(),
                    old(self).req_id() as int,
                    non_repeaters as int,
                    max_repetitions as int,
                    encode_bindings(null_bindings(names@)),
                ),
                final(self).request(),
            ),
    {
        build_getbulk(
            self.community.as_slice(),
            self.req_id,
            names,
            non_repeaters,
            max_repetitions,
            &mut self.send_pdu,
        )
    }

    /// Builds a request to set the given names to the given values.
    pub fn begin_set(&mut self, values: &[(&[u32], Value)]) -> (r: Result<(), SnmpError>)
        requires
            valid_bindings(set_bindings(values@)),
        ensures
            final(self).community() == old(self).community(),
            final(self).req_id() == old(self).req_id(),
            !all_settable(set_bindings(values@)) ==> r == Err::<(), SnmpError>(
                SnmpError::UnsupportedValueType,
            ) && final(self).request() == Seq::<u8>::empty(),
            all_settable(set_bindings(values@)) ==> built(
                r,
                encode_request(
                    TAG_SET_REQUEST,
                    old(self).community(),
                    old(self).req_id() as int,
                    0,
                    0,
                    encode_bindings(set_bindings(values@)),
                ),
                final(self).request(),
            ),
    {
        build_set(self.community.as_slice(), self.req_id, values, &mut self.send_pdu)
    }

    /// Records how sending the request went. Where it was sent, this gives
    /// the identifier that it carried, and from here on the next request
    /// carries the next identifier, whatever comes back for this one. Where
    /// it was not, this is a send failure, and the identifier stays.
    pub fn after_send(&mut self, sent: bool) -> (r: Result<i32, SnmpError>)
        ensures
            r == (if sent {
                Ok::<i32, SnmpError>(old(self).req_id())
            } else {
                Err::<i32, SnmpError>(SnmpError::SendFailure)
            }),
            final(self).req_id() == advance(old(self).req_id(), sent),
            final(self).community() == old(self).community(),
            final(self).request() == old(self).request(),
    {
        if !sent {
            return Err(SnmpError::SendFailure);
        }
        let req_id: i32 = self.req_id;
        self.req_id = if req_id == i32::MAX {
            i32::MIN
        } else {
            req_id + 1
        };
        Ok(req_id)
    }

    /// Decides what the wait for the response to the request that carried
    /// `req_id` amounts to: the response, if one arrived and passed the
    /// three checks, and else the error that `outcome` names.
    pub fn accept<'a>(&self, req_id: i32, received: Received<'a>) -> (r: Result<
        SnmpPdu<'a>,
        SnmpError,
    >)
        ensures
            yields(r, outcome(received, req_id, self.community())),
    {
        let pdu = match receive(received) {
            Ok(pdu) => pdu,
            Err(e) => {
                return Err(e);
            },
        };
        match check_response(&pdu, req_id, self.community.as_slice()) {
            Ok(()) => Ok(pdu),
            Err(e) => Err(e),
        }
    }
}

} // verus!
