use snmp::error::SnmpError;
use snmp::message::{SnmpMessageType, SnmpPdu};
use snmp::pdu::{Buf, BUFFER_SIZE};
use snmp::session::{check_response, receive, same_bytes, Received, Session};
use snmp::value::Value;

const SYS_UPTIME: [u32; 9] = [1, 3, 6, 1, 2, 1, 1, 3, 0];

fn element(tag: u8, content: &[u8]) -> Vec<u8> {
    let mut buf = Buf::new();
    buf.push_bytes_element(tag, content).unwrap();
    buf.as_slice().to_vec()
}

fn integer(n: i64) -> Vec<u8> {
    let mut buf = Buf::new();
    buf.push_integer(n).unwrap();
    buf.as_slice().to_vec()
}

fn message(tag: u8, req_id: i32, community: &[u8]) -> Vec<u8> {
    let mut buf = Buf::new();
    buf.push_binding(&SYS_UPTIME, &Value::Timeticks(4711)).unwrap();
    let bindings = buf.as_slice().to_vec();
    let mut body = integer(req_id as i64);
    body.extend(integer(0));
    body.extend(integer(0));
    body.extend(element(0x30, &bindings));
    let mut content = integer(1);
    content.extend(element(0x04, community));
    content.extend(element(tag, &body));
    element(0x30, &content)
}

fn response(req_id: i32, community: &[u8]) -> Vec<u8> {
    message(0xA2, req_id, community)
}

fn exchange<'a>(session: &mut Session, received: Received<'a>) -> Result<SnmpPdu<'a>, SnmpError> {
    let req_id = session.after_send(true)?;
    session.accept(req_id, received)
}

#[test]
fn a_matching_response_is_returned() {
    let mut session = Session::new(b"public", 10);
    session.begin_get(&SYS_UPTIME).unwrap();
    let sent = SnmpPdu::from_bytes(session.request_bytes()).unwrap();
    assert_eq!(sent.req_id, 10);
    assert_eq!(sent.community, b"public");
    assert_eq!(sent.message_type, SnmpMessageType::GetRequest);
    let bytes = response(10, b"public");
    let pdu = exchange(&mut session, Received::Datagram(&bytes)).unwrap();
    assert_eq!(pdu.req_id, 10);
    assert_eq!(pdu.bindings[0].value, Value::Timeticks(4711));
    assert_eq!(session.next_request_id(), 11);
}

#[test]
fn a_stale_response_is_rejected() {
    let mut session = Session::new(b"public", 10);
    session.begin_get(&SYS_UPTIME).unwrap();
    let bytes = response(9, b"public");
    assert_eq!(
        exchange(&mut session, Received::Datagram(&bytes)),
        Err(SnmpError::RequestIdMismatch)
    );
    assert_eq!(session.next_request_id(), 11);
}

#[test]
fn a_response_with_another_community_is_rejected() {
    let mut session = Session::new(b"public", 10);
    session.begin_get(&SYS_UPTIME).unwrap();
    for community in [&b"private"[..], b"publi", b"public ", b"Public", b""] {
        let bytes = response(session.next_request_id(), community);
        assert_eq!(
            exchange(&mut session, Received::Datagram(&bytes)),
            Err(SnmpError::CommunityMismatch)
        );
    }
}

#[test]
fn a_message_that_is_no_response_is_rejected() {
    for tag in [0xA0u8, 0xA1, 0xA3, 0xA5, 0xA6, 0xA7] {
        let mut session = Session::new(b"public", 10);
        let bytes = message(tag, 10, b"public");
        assert_eq!(
            exchange(&mut session, Received::Datagram(&bytes)),
            Err(SnmpError::WrongMessageType)
        );
        assert_eq!(session.next_request_id(), 11);
    }
}

#[test]
fn the_checks_run_in_order() {
    let mut session = Session::new(b"public", 10);
    // wrong kind, wrong identifier and wrong community: the kind decides
    let bytes = message(0xA7, 3, b"private");
    assert_eq!(
        exchange(&mut session, Received::Datagram(&bytes)),
        Err(SnmpError::WrongMessageType)
    );
    // wrong identifier and wrong community: the identifier decides
    let bytes = response(3, b"private");
    assert_eq!(
        exchange(&mut session, Received::Datagram(&bytes)),
        Err(SnmpError::RequestIdMismatch)
    );
}

#[test]
fn check_response_alone() {
    let bytes = response(5, b"public");
    let pdu = SnmpPdu::from_bytes(&bytes).unwrap();
    assert_eq!(check_response(&pdu, 5, b"public"), Ok(()));
    assert_eq!(check_response(&pdu, 4, b"public"), Err(SnmpError::RequestIdMismatch));
    assert_eq!(check_response(&pdu, 6, b"public"), Err(SnmpError::RequestIdMismatch));
    assert_eq!(check_response(&pdu, 5, b"other"), Err(SnmpError::CommunityMismatch));
    let bytes = message(0xA0, 5, b"public");
    let pdu = SnmpPdu::from_bytes(&bytes).unwrap();
    assert_eq!(check_response(&pdu, 5, b"public"), Err(SnmpError::WrongMessageType));
}

#[test]
fn building_a_request_keeps_the_identifier() {
    let mut session = Session::new(b"public", 10);
    session.begin_get(&SYS_UPTIME).unwrap();
    session.begin_getnext(&SYS_UPTIME).unwrap();
    assert_eq!(session.next_request_id(), 10);
    assert_eq!(SnmpPdu::from_bytes(session.request_bytes()).unwrap().req_id, 10);
}

#[test]
fn sending_hands_out_the_identifier_and_advances() {
    let mut session = Session::new(b"public", 10);
    assert_eq!(session.after_send(true), Ok(10));
    assert_eq!(session.after_send(true), Ok(11));
    assert_eq!(session.next_request_id(), 12);
    let bytes = response(10, b"public");
    assert!(session.accept(10, Received::Datagram(&bytes)).is_ok());
    assert_eq!(
        session.accept(11, Received::Datagram(&bytes)),
        Err(SnmpError::RequestIdMismatch)
    );
    assert_eq!(session.next_request_id(), 12);
}

#[test]
fn a_request_that_was_not_sent_keeps_its_identifier() {
    let mut session = Session::new(b"public", 10);
    session.begin_get(&SYS_UPTIME).unwrap();
    assert_eq!(session.after_send(false), Err(SnmpError::SendFailure));
    assert_eq!(session.next_request_id(), 10);
    session.begin_get(&SYS_UPTIME).unwrap();
    assert_eq!(SnmpPdu::from_bytes(session.request_bytes()).unwrap().req_id, 10);
    assert_eq!(session.after_send(true), Ok(10));
    assert_eq!(session.next_request_id(), 11);
}

#[test]
fn a_failed_exchange_uses_up_its_identifier() {
    let mut session = Session::new(b"public", 10);
    assert_eq!(
        exchange(&mut session, Received::Failed),
        Err(SnmpError::ReceiveFailure)
    );
    assert_eq!(session.next_request_id(), 11);
    assert_eq!(
        exchange(&mut session, Received::TimedOut),
        Err(SnmpError::ReceiveTimeout)
    );
    assert_eq!(session.next_request_id(), 12);
    assert_eq!(
        exchange(&mut session, Received::Datagram(&[0x30, 0x05, 0x02])),
        Err(SnmpError::MalformedEncoding)
    );
    assert_eq!(session.next_request_id(), 13);
    let stale = response(10, b"public");
    assert_eq!(
        exchange(&mut session, Received::Datagram(&stale)),
        Err(SnmpError::RequestIdMismatch)
    );
    assert_eq!(session.next_request_id(), 14);
}

#[test]
fn identifiers_advance_by_one_per_request() {
    let start = 1000;
    let mut session = Session::new(b"public", start);
    for n in 0..500 {
        session.begin_get(&SYS_UPTIME).unwrap();
        let sent = SnmpPdu::from_bytes(session.request_bytes()).unwrap();
        assert_eq!(sent.req_id, start + n);
        let bytes = response(start + n, b"public");
        let received = match n % 4 {
            0 => Received::Datagram(&bytes),
            1 => Received::Failed,
            2 => Received::TimedOut,
            _ => Received::Datagram(&bytes[..10]),
        };
        let result = exchange(&mut session, received);
        assert_eq!(result.is_ok(), n % 4 == 0);
        assert_eq!(session.next_request_id(), start + n + 1);
    }
}

#[test]
fn identifiers_wrap_at_the_signed_32_bit_boundary() {
    let mut session = Session::new(b"public", i32::MAX - 1);
    session.begin_get(&SYS_UPTIME).unwrap();
    let bytes = response(i32::MAX - 1, b"public");
    assert!(exchange(&mut session, Received::Datagram(&bytes)).is_ok());
    assert_eq!(session.next_request_id(), i32::MAX);
    session.begin_get(&SYS_UPTIME).unwrap();
    assert_eq!(SnmpPdu::from_bytes(session.request_bytes()).unwrap().req_id, i32::MAX);
    let bytes = response(i32::MAX, b"public");
    assert!(exchange(&mut session, Received::Datagram(&bytes)).is_ok());
    assert_eq!(session.next_request_id(), i32::MIN);
    session.begin_get(&SYS_UPTIME).unwrap();
    assert_eq!(SnmpPdu::from_bytes(session.request_bytes()).unwrap().req_id, i32::MIN);
    let bytes = response(i32::MIN, b"public");
    assert!(exchange(&mut session, Received::Datagram(&bytes)).is_ok());
    assert_eq!(session.next_request_id(), i32::MIN + 1);
}

#[test]
fn each_kind_of_request_is_built_with_the_session_state() {
    let mut session = Session::new(b"secret", -3);
    session.begin_getnext(&SYS_UPTIME).unwrap();
    let sent = SnmpPdu::from_bytes(session.request_bytes()).unwrap();
    assert_eq!(sent.message_type, SnmpMessageType::GetNextRequest);
    assert_eq!((sent.req_id, sent.community), (-3, &b"secret"[..]));

    let names: [&[u32]; 2] = [&SYS_UPTIME, &[1, 3, 6, 1, 2, 1, 2, 2]];
    session.begin_getbulk(&names, 1, 20).unwrap();
    let sent = SnmpPdu::from_bytes(session.request_bytes()).unwrap();
    assert_eq!(sent.message_type, SnmpMessageType::GetBulkRequest);
    assert_eq!((sent.req_id, sent.community), (-3, &b"secret"[..]));
    assert_eq!((sent.error_status, sent.error_index), (1, 20));
    assert_eq!(sent.bindings.len(), 2);

    let values: Vec<(&[u32], Value)> = vec![(&SYS_UPTIME, Value::Integer(5))];
    session.begin_set(&values).unwrap();
    let sent = SnmpPdu::from_bytes(session.request_bytes()).unwrap();
    assert_eq!(sent.message_type, SnmpMessageType::SetRequest);
    assert_eq!((sent.req_id, sent.community), (-3, &b"secret"[..]));
    assert_eq!(sent.bindings[0].value, Value::Integer(5));

    let markers: Vec<(&[u32], Value)> = vec![(&SYS_UPTIME, Value::EndOfMibView)];
    assert_eq!(session.begin_set(&markers), Err(SnmpError::UnsupportedValueType));
    assert_eq!(session.request_bytes().len(), 0);
    assert_eq!(session.next_request_id(), -3);
}

#[test]
fn a_request_that_does_not_fit_leaves_the_session_as_it_was() {
    let community = vec![b'x'; BUFFER_SIZE];
    let mut session = Session::new(&community, 1);
    assert_eq!(session.begin_get(&SYS_UPTIME), Err(SnmpError::BufferExhausted));
    assert_eq!(session.request_bytes().len(), 0);
    assert_eq!(session.next_request_id(), 1);
}

#[test]
fn a_trap_is_surfaced_without_any_check() {
    let bytes = message(0xA7, 12345, b"anyone");
    let pdu = receive(Received::Datagram(&bytes)).unwrap();
    assert_eq!(pdu.message_type, SnmpMessageType::Trap);
    assert_eq!(pdu.req_id, 12345);
    assert_eq!(pdu.community, b"anyone");
    let bytes = message(0xA6, 1, b"anyone");
    let pdu = receive(Received::Datagram(&bytes)).unwrap();
    assert_eq!(pdu.message_type, SnmpMessageType::InformRequest);
}

#[test]
fn receiving_can_fail_in_four_ways() {
    assert_eq!(receive(Received::Failed), Err(SnmpError::ReceiveFailure));
    assert_eq!(receive(Received::TimedOut), Err(SnmpError::ReceiveTimeout));
    assert_eq!(receive(Received::Datagram(&[])), Err(SnmpError::MalformedEncoding));
    let long = vec![0u8; BUFFER_SIZE + 1];
    assert_eq!(receive(Received::Datagram(&long)), Err(SnmpError::ReceiveFailure));
    let full = vec![0u8; BUFFER_SIZE];
    assert_eq!(receive(Received::Datagram(&full)), Err(SnmpError::MalformedEncoding));
}

#[test]
fn byte_strings_are_compared_byte_for_byte() {
    assert!(same_bytes(b"", b""));
    assert!(same_bytes(b"public", b"public"));
    assert!(!same_bytes(b"public", b"publiC"));
    assert!(!same_bytes(b"public", b"publi"));
    assert!(!same_bytes(b"", b"p"));
}
