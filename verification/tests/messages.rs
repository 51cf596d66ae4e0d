use snmp::decode::{read_binding, read_bindings, read_body};
use snmp::error::SnmpError;
use snmp::message::{SnmpMessageType, SnmpPdu, VarBind};
use snmp::pdu::{build_get, build_getbulk, build_set, Buf};
use snmp::value::Value;

const SYS_DESCR: [u32; 9] = [1, 3, 6, 1, 2, 1, 1, 1, 0];
const SYS_UPTIME: [u32; 9] = [1, 3, 6, 1, 2, 1, 1, 3, 0];

fn element(tag: u8, content: &[u8]) -> Vec<u8> {
    let mut buf = Buf::new();
    buf.push_bytes_element(tag, content).unwrap();
    buf.as_slice().to_vec()
}

fn integer(n: i64) -> Vec<u8> {
    let mut buf = Buf::new();
    buf.push_integer(n).unwrap();
    buf.as_slice().to_vec()
}

fn binding(name: &[u32], value: &Value) -> Vec<u8> {
    let mut buf = Buf::new();
    buf.push_binding(name, value).unwrap();
    buf.as_slice().to_vec()
}

fn message(version: i64, community: &[u8], tag: u8, body: &[u8]) -> Vec<u8> {
    let mut content = integer(version);
    content.extend(element(0x04, community));
    content.extend(element(tag, body));
    element(0x30, &content)
}

fn body(req_id: i64, status: i64, index: i64, bindings: &[u8]) -> Vec<u8> {
    let mut content = integer(req_id);
    content.extend(integer(status));
    content.extend(integer(index));
    content.extend(element(0x30, bindings));
    content
}

fn response(req_id: i64, community: &[u8]) -> Vec<u8> {
    let mut bindings = binding(&SYS_DESCR, &Value::OctetString(b"a router"));
    bindings.extend(binding(&SYS_UPTIME, &Value::Timeticks(12345)));
    message(1, community, 0xA2, &body(req_id, 0, 0, &bindings))
}

#[test]
fn a_response_is_decoded() {
    let bytes = response(77, b"public");
    let pdu = SnmpPdu::from_bytes(&bytes).unwrap();
    assert_eq!(pdu.version, 1);
    assert_eq!(pdu.community, b"public");
    assert_eq!(pdu.message_type, SnmpMessageType::Response);
    assert_eq!(pdu.req_id, 77);
    assert_eq!(pdu.error_status, 0);
    assert_eq!(pdu.error_index, 0);
    assert_eq!(
        pdu.bindings,
        vec![
            VarBind { name: SYS_DESCR.to_vec(), value: Value::OctetString(b"a router") },
            VarBind { name: SYS_UPTIME.to_vec(), value: Value::Timeticks(12345) },
        ]
    );
}

#[test]
fn a_response_from_known_bytes() {
    let bytes: [u8; 43] = [
        0x30, 0x29, 0x02, 0x01, 0x01, 0x04, 0x06, 0x70, 0x75, 0x62, 0x6C, 0x69, 0x63, 0xA2, 0x1C,
        0x02, 0x04, 0x12, 0x34, 0x56, 0x78, 0x02, 0x01, 0x02, 0x02, 0x01, 0x01, 0x30, 0x0E, 0x30,
        0x0C, 0x06, 0x08, 0x2B, 0x06, 0x01, 0x02, 0x01, 0x01, 0x05, 0x00, 0x81, 0x00,
    ];
    let pdu = SnmpPdu::from_bytes(&bytes).unwrap();
    assert_eq!(pdu.req_id, 0x12345678);
    assert_eq!(pdu.error_status, 2);
    assert_eq!(pdu.error_index, 1);
    assert_eq!(
        pdu.bindings,
        vec![VarBind { name: vec![1, 3, 6, 1, 2, 1, 1, 5, 0], value: Value::NoSuchInstance }]
    );
}

#[test]
fn every_kind_of_message_is_told_apart() {
    let kinds = [
        (0xA0u8, SnmpMessageType::GetRequest),
        (0xA1, SnmpMessageType::GetNextRequest),
        (0xA2, SnmpMessageType::Response),
        (0xA3, SnmpMessageType::SetRequest),
        (0xA5, SnmpMessageType::GetBulkRequest),
        (0xA6, SnmpMessageType::InformRequest),
        (0xA7, SnmpMessageType::Trap),
    ];
    for (tag, kind) in kinds {
        assert_eq!(SnmpMessageType::from_ident(tag), Ok(kind));
        let bytes = message(1, b"c", tag, &body(5, 0, 0, &[]));
        let pdu = SnmpPdu::from_bytes(&bytes).unwrap();
        assert_eq!(pdu.message_type, kind);
        assert_eq!(pdu.bindings.len(), 0);
    }
}

#[test]
fn unknown_kinds_are_malformed() {
    for tag in [0x00u8, 0x30, 0x9F, 0xA4, 0xA8, 0xA9, 0xFF] {
        assert_eq!(SnmpMessageType::from_ident(tag), Err(SnmpError::MalformedEncoding));
        let bytes = message(1, b"c", tag, &body(5, 0, 0, &[]));
        assert!(matches!(SnmpPdu::from_bytes(&bytes), Err(SnmpError::MalformedEncoding)));
    }
}

#[test]
fn every_truncation_is_malformed() {
    let mut buf = Buf::new();
    let values: Vec<(&[u32], Value)> = vec![
        (&SYS_DESCR, Value::OctetString(&[0x55; 200])),
        (&SYS_UPTIME, Value::Counter64(u64::MAX)),
    ];
    build_set(b"public", 9, &values, &mut buf).unwrap();
    let mut messages = vec![buf.as_slice().to_vec(), response(3, b"public")];
    build_get(b"public", 1, &SYS_UPTIME, &mut buf).unwrap();
    messages.push(buf.as_slice().to_vec());
    for message in messages {
        assert!(SnmpPdu::from_bytes(&message).is_ok());
        for cut in 0..message.len() {
            assert!(matches!(
                SnmpPdu::from_bytes(&message[..cut]),
                Err(SnmpError::MalformedEncoding)
            ));
        }
    }
}

#[test]
fn bytes_after_the_message_are_malformed() {
    let mut bytes = response(1, b"public");
    bytes.push(0x00);
    assert!(matches!(SnmpPdu::from_bytes(&bytes), Err(SnmpError::MalformedEncoding)));
}

#[test]
fn bytes_left_over_inside_are_malformed() {
    let mut padded_body = body(1, 0, 0, &[]);
    padded_body.extend_from_slice(&[0x05, 0x00]);
    let bytes = message(1, b"c", 0xA2, &padded_body);
    assert!(matches!(SnmpPdu::from_bytes(&bytes), Err(SnmpError::MalformedEncoding)));

    let mut content = integer(1);
    content.extend(element(0x04, b"c"));
    content.extend(element(0xA2, &body(1, 0, 0, &[])));
    content.extend_from_slice(&[0x05, 0x00]);
    let bytes = element(0x30, &content);
    assert!(matches!(SnmpPdu::from_bytes(&bytes), Err(SnmpError::MalformedEncoding)));

    let mut pair = binding(&SYS_UPTIME, &Value::Null);
    pair[1] += 2;
    pair.extend_from_slice(&[0x05, 0x00]);
    assert!(matches!(read_bindings(&pair), Err(SnmpError::MalformedEncoding)));
}

#[test]
fn a_child_longer_than_its_parent_is_malformed() {
    // the bindings claim one byte more than the unit holds
    let mut bytes = message(1, b"c", 0xA2, &body(1, 0, 0, &[]));
    assert!(SnmpPdu::from_bytes(&bytes).is_ok());
    let at = bytes.len() - 1;
    assert_eq!(bytes[at], 0x00);
    bytes[at] = 0x01;
    assert!(matches!(SnmpPdu::from_bytes(&bytes), Err(SnmpError::MalformedEncoding)));
    // the unit claims one byte more than the message holds
    let mut bytes = message(1, b"c", 0xA2, &body(1, 0, 0, &[]));
    assert_eq!(bytes[8], 0xA2);
    bytes[9] += 1;
    assert!(matches!(SnmpPdu::from_bytes(&bytes), Err(SnmpError::MalformedEncoding)));
}

#[test]
fn a_binding_with_an_unknown_value_is_malformed() {
    let mut bindings = binding(&SYS_UPTIME, &Value::Null);
    let at = bindings.len() - 2;
    assert_eq!(bindings[at], 0x05);
    bindings[at] = 0x07;
    let bytes = message(1, b"public", 0xA2, &body(1, 0, 0, &bindings));
    assert!(matches!(SnmpPdu::from_bytes(&bytes), Err(SnmpError::MalformedEncoding)));
}

#[test]
fn wrong_tags_in_the_frame_are_malformed() {
    let good = response(1, b"public");
    assert!(SnmpPdu::from_bytes(&good).is_ok());
    // outer tag, version tag, community tag, request id tag
    for at in [0usize, 2, 5, 15] {
        let mut bytes = good.clone();
        bytes[at] = 0x05;
        assert!(matches!(SnmpPdu::from_bytes(&bytes), Err(SnmpError::MalformedEncoding)));
    }
}

#[test]
fn header_integers_must_fit_32_bits() {
    let fits = message(1, b"c", 0xA2, &body(2147483647, -2147483648, 2147483647, &[]));
    let pdu = SnmpPdu::from_bytes(&fits).unwrap();
    assert_eq!(pdu.req_id, i32::MAX);
    assert_eq!(pdu.error_status, i32::MIN);
    assert_eq!(pdu.error_index, i32::MAX);
    for wide in [2147483648i64, -2147483649] {
        let bytes = message(1, b"c", 0xA2, &body(wide, 0, 0, &[]));
        assert!(matches!(SnmpPdu::from_bytes(&bytes), Err(SnmpError::MalformedEncoding)));
        let bytes = message(1, b"c", 0xA2, &body(0, wide, 0, &[]));
        assert!(matches!(SnmpPdu::from_bytes(&bytes), Err(SnmpError::MalformedEncoding)));
        let bytes = message(1, b"c", 0xA2, &body(0, 0, wide, &[]));
        assert!(matches!(SnmpPdu::from_bytes(&bytes), Err(SnmpError::MalformedEncoding)));
    }
}

#[test]
fn bulk_counts_beyond_32_bits_signed_are_not_decoded() {
    let mut buf = Buf::new();
    let names: [&[u32]; 1] = [&SYS_UPTIME];
    build_getbulk(b"c", 1, &names, 0, 2147483647, &mut buf).unwrap();
    assert_eq!(SnmpPdu::from_bytes(buf.as_slice()).unwrap().error_index, i32::MAX);
    build_getbulk(b"c", 1, &names, 0, 2147483648, &mut buf).unwrap();
    assert!(matches!(
        SnmpPdu::from_bytes(buf.as_slice()),
        Err(SnmpError::MalformedEncoding)
    ));
}

#[test]
fn the_version_is_kept_as_sent() {
    for version in [0i64, 1, 3, -1, i64::MAX] {
        let bytes = message(version, b"c", 0xA2, &body(1, 0, 0, &[]));
        assert_eq!(SnmpPdu::from_bytes(&bytes).unwrap().version, version);
    }
}

#[test]
fn the_community_borrows_from_the_input() {
    let bytes = response(1, b"public");
    let pdu = SnmpPdu::from_bytes(&bytes).unwrap();
    assert_eq!(pdu.community.as_ptr(), bytes[7..].as_ptr());
}

#[test]
fn bindings_keep_their_order() {
    let mut encoded = Vec::new();
    let mut expected = Vec::new();
    for i in 0..50u32 {
        let name = vec![1, 3, 6, i, 1000 + i];
        encoded.extend(binding(&name, &Value::Integer(i as i64 - 25)));
        expected.push(VarBind { name, value: Value::Integer(i as i64 - 25) });
    }
    assert_eq!(read_bindings(&encoded), Ok(expected));
    assert_eq!(read_bindings(&[]), Ok(vec![]));
}

#[test]
fn a_binding_is_a_name_and_a_value() {
    let pair = binding(&SYS_UPTIME, &Value::Counter32(7));
    assert_eq!(pair[0], 0x30);
    let content = &pair[2..];
    assert_eq!(
        read_binding(content),
        Ok(VarBind { name: SYS_UPTIME.to_vec(), value: Value::Counter32(7) })
    );
    // the value is missing
    assert!(matches!(read_binding(&content[..10]), Err(SnmpError::MalformedEncoding)));
    // the name is no object identifier
    assert!(matches!(read_binding(&[0x05, 0x00, 0x05, 0x00]), Err(SnmpError::MalformedEncoding)));
    // the name is empty
    assert!(matches!(read_binding(&[0x06, 0x00, 0x05, 0x00]), Err(SnmpError::MalformedEncoding)));
}

#[test]
fn the_body_of_a_unit() {
    let bindings = binding(&SYS_UPTIME, &Value::Null);
    let encoded = body(-5, 1, 2, &bindings);
    let decoded = read_body(&encoded).unwrap();
    assert_eq!(decoded.req_id, -5);
    assert_eq!(decoded.error_status, 1);
    assert_eq!(decoded.error_index, 2);
    assert_eq!(decoded.bindings.len(), 1);
    assert!(matches!(read_body(&[]), Err(SnmpError::MalformedEncoding)));
}

#[test]
fn arbitrary_bytes_never_panic() {
    let mut state: u32 = 0x2545F491;
    for round in 0..3000 {
        let mut bytes = response(1, b"public");
        for _ in 0..(1 + round % 4) {
            state ^= state << 13;
            state ^= state >> 17;
            state ^= state << 5;
            let at = (state as usize) % bytes.len();
            bytes[at] = (state >> 8) as u8;
        }
        let _ = SnmpPdu::from_bytes(&bytes);
    }
}
