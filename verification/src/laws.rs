//! What holds between encoding and decoding of whole messages.

use vstd::prelude::*;
use crate::buf::{lemma_element, BUFFER_SIZE};
use crate::integer::{int_bytes, lemma_parse_int_round_trip};
use crate::message::{
    encode_bindings,
    encode_body,
    encode_integer,
    encode_message,
    encode_request,
    parse_binding,
    parse_bindings,
    parse_body,
    parse_integer,
    parse_message,
    valid_bindings,
    BodyView,
    PduView,
    SnmpMessageType,
    VarBindView,
    VERSION_2C,
};
use crate::oid::{encode_oid, lemma_oid_round_trip};
use crate::tlv::{
    encode_tlv,
    length_encodable,
    parse_tagged,
    lemma_parse_tlv_truncated,
    lemma_small_length_encodable,
    lemma_tlv_round_trip,
    Element,
};
use crate::value::{
    encode_value,
    lemma_int_content_encodable,
    lemma_value_round_trip,
    TAG_INTEGER,
    TAG_OBJECT_IDENTIFIER,
    TAG_OCTET_STRING,
    TAG_SEQUENCE,
};

verus! {

/// Reading an encoded integer field gives the number and whatever followed
/// the field.
pub proof fn lemma_integer_round_trip(n: int, rest: Seq<u8>)
    requires
        i64::MIN <= n <= u64::MAX,
    ensures
        parse_integer(encode_integer(n) + rest) == Some((n, rest)),
{
    lemma_int_content_encodable(n);
    lemma_parse_int_round_trip(n);
    lemma_tlv_round_trip(TAG_INTEGER, int_bytes(n), rest);
}

/// Reading the content of an encoded binding gives the binding back.
pub proof fn lemma_binding_round_trip(b: VarBindView)
    requires
        b.valid(),
        length_encodable(b.content().len()),
    ensures
        parse_binding(b.content()) == Some(b),
{
    let name = encode_oid(b.name);
    let value = encode_value(b.value);
    lemma_element(TAG_OBJECT_IDENTIFIER, name, value);
    lemma_element(b.value.tag(), b.value.content(), Seq::<u8>::empty());
    lemma_tlv_round_trip(TAG_OBJECT_IDENTIFIER, name, value);
    lemma_oid_round_trip(b.name);
    lemma_value_round_trip(b.value, Seq::<u8>::empty());
    assert(value + Seq::<u8>::empty() =~= value);
}

/// Reading encoded bindings gives the bindings back, in order.
pub proof fn lemma_bindings_round_trip(bindings: Seq<VarBindView>)
    requires
        valid_bindings(bindings),
        length_encodable(encode_bindings(bindings).len()),
    ensures
        parse_bindings(encode_bindings(bindings)) == Some(bindings),
    decreases bindings.len(),
{
    if bindings.len() > 0 {
        let first = bindings[0];
        let tail = bindings.skip(1);
        let rest = encode_bindings(tail);
        let s = encode_bindings(bindings);
        let read = Element { tag: TAG_SEQUENCE, content: first.content(), rest };
        assert(s == encode_tlv(TAG_SEQUENCE, first.content()) + rest);
        assert(first.content().len() + rest.len() < s.len()) by {
            lemma_element(TAG_SEQUENCE, first.content(), rest);
        }
        assert(parse_tagged(TAG_SEQUENCE, s) == Some(read)) by {
            lemma_tlv_round_trip(TAG_SEQUENCE, first.content(), rest);
        }
        assert(parse_binding(first.content()) == Some(first)) by {
            lemma_binding_round_trip(first);
        }
        assert(valid_bindings(tail)) by {
            assert forall|i: int| 0 <= i < tail.len() implies (#[trigger] tail[i]).valid() by {
                assert(tail[i] == bindings[i + 1]);
            }
        }
        lemma_bindings_round_trip(tail);
        assert(seq![first] + tail =~= bindings);
    }
}

/// Reading the content of a protocol data unit gives its three integers and
/// its bindings back.
pub proof fn lemma_body_round_trip(body: BodyView)
    requires
        valid_bindings(body.bindings),
        length_encodable(
            encode_body(
                body.req_id as int,
                body.error_status as int,
                body.error_index as int,
                encode_bindings(body.bindings),
            ).len(),
        ),
    ensures
        parse_body(
            encode_body(
                body.req_id as int,
                body.error_status as int,
                body.error_index as int,
                encode_bindings(body.bindings),
            ),
        ) == Some(body),
{
    let nothing = Seq::<u8>::empty();
    let bindings = body.bindings;
    let list = encode_tlv(TAG_SEQUENCE, encode_bindings(bindings));
    let s3 = list;
    let s2 = encode_integer(body.error_index as int) + s3;
    let s1 = encode_integer(body.error_status as int) + s2;
    let s0 = encode_integer(body.req_id as int) + s1;
    assert(s0 =~= encode_body(
        body.req_id as int,
        body.error_status as int,
        body.error_index as int,
        encode_bindings(bindings),
    ));
    lemma_integer_round_trip(body.req_id as int, s1);
    lemma_integer_round_trip(body.error_status as int, s2);
    lemma_integer_round_trip(body.error_index as int, s3);
    lemma_element(TAG_SEQUENCE, encode_bindings(bindings), nothing);
    lemma_tlv_round_trip(TAG_SEQUENCE, encode_bindings(bindings), nothing);
    assert(list + nothing =~= list);
    lemma_bindings_round_trip(bindings);
}

/// Round trip: decoding the encoding of a message gives the message back,
/// for every message that has an encoding.
pub proof fn lemma_message_round_trip(p: PduView)
    requires
        p.wf(),
    ensures
        parse_message(encode_message(p)) == Some(p),
{
    let nothing = Seq::<u8>::empty();
    let content = p.content();
    let body = p.body();
    let unit = encode_tlv(p.message_type.tag(), body);
    let s1 = encode_tlv(TAG_OCTET_STRING, p.community) + unit;
    assert(content =~= encode_integer(p.version as int) + s1);
    lemma_tlv_round_trip(TAG_SEQUENCE, content, nothing);
    assert(encode_message(p) + nothing =~= encode_message(p));
    lemma_integer_round_trip(p.version as int, s1);
    lemma_element(TAG_OCTET_STRING, p.community, unit);
    lemma_element(p.message_type.tag(), body, nothing);
    lemma_tlv_round_trip(TAG_OCTET_STRING, p.community, unit);
    lemma_tlv_round_trip(p.message_type.tag(), body, nothing);
    assert(unit + nothing =~= unit);
    lemma_body_round_trip(
        BodyView {
            req_id: p.req_id,
            error_status: p.error_status,
            error_index: p.error_index,
            bindings: p.bindings,
        },
    );
    assert(SnmpMessageType::of_tag(p.message_type.tag()) == Some(p.message_type));
}

/// The message that a request stands for: this client's version, the given
/// kind, and the two integers where error status and error index stand.
pub open spec fn request(
    message_type: SnmpMessageType,
    community: Seq<u8>,
    req_id: i32,
    status: i32,
    index: i32,
    bindings: Seq<VarBindView>,
) -> PduView {
    PduView {
        version: VERSION_2C,
        community,
        message_type,
        req_id,
        error_status: status,
        error_index: index,
        bindings,
    }
}

/// What a builder writes decodes to the request it was asked for: the kind,
/// the community and the request identifier as given, the two integers in
/// the places of error status and error index, and the bindings in order.
/// This holds of every request with valid bindings that fits the length
/// field of its outer SEQUENCE, and so of every request that fits the send
/// buffer.
pub proof fn lemma_request_round_trip(
    message_type: SnmpMessageType,
    community: Seq<u8>,
    req_id: i32,
    status: i32,
    index: i32,
    bindings: Seq<VarBindView>,
)
    requires
        valid_bindings(bindings),
        length_encodable(
            encode_request(
                message_type.tag(),
                community,
                req_id as int,
                status as int,
                index as int,
                encode_bindings(bindings),
            ).len(),
        ),
    ensures
        parse_message(
            encode_request(
                message_type.tag(),
                community,
                req_id as int,
                status as int,
                index as int,
                encode_bindings(bindings),
            ),
        ) == Some(request(message_type, community, req_id, status, index, bindings)),
{
    let p = request(message_type, community, req_id, status, index, bindings);
    lemma_element(TAG_SEQUENCE, p.content(), Seq::<u8>::empty());
    lemma_message_round_trip(p);
}

/// A request with valid bindings that fits the send buffer decodes to the
/// request that was asked for.
pub proof fn lemma_built_request_decodes(
    message_type: SnmpMessageType,
    community: Seq<u8>,
    req_id: i32,
    status: i32,
    index: i32,
    bindings: Seq<VarBindView>,
)
    requires
        valid_bindings(bindings),
        encode_request(
            message_type.tag(),
            community,
            req_id as int,
            status as int,
            index as int,
            encode_bindings(bindings),
        ).len() <= BUFFER_SIZE,
    ensures
        parse_message(
            encode_request(
                message_type.tag(),
                community,
                req_id as int,
                status as int,
                index as int,
                encode_bindings(bindings),
            ),
        ) == Some(request(message_type, community, req_id, status, index, bindings)),
{
    lemma_small_length_encodable(
        encode_request(
            message_type.tag(),
            community,
            req_id as int,
            status as int,
            index as int,
            encode_bindings(bindings),
        ).len(),
    );
    lemma_request_round_trip(message_type, community, req_id, status, index, bindings);
}

/// Truncated input: a message cut off anywhere before its end is rejected.
pub proof fn lemma_truncated_message(message: Seq<u8>, cut: int)
    requires
        parse_message(message) is Some,
        0 <= cut < message.len(),
    ensures
        parse_message(message.subrange(0, cut)) is None,
{
    lemma_parse_tlv_truncated(message, cut);
}

} // verus!
