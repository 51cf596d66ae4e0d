use snmp::decode::{read_content, read_int, read_value};
use snmp::error::SnmpError;
use snmp::pdu::{is_settable, is_valid_value, Buf};
use snmp::value::Value;

fn encode(value: &Value) -> Vec<u8> {
    let mut buf = Buf::new();
    buf.push_value(value).unwrap();
    buf.as_slice().to_vec()
}

fn round_trip(value: Value) {
    let bytes = encode(&value);
    let (decoded, rest) = read_value(&bytes).unwrap();
    assert_eq!(decoded, value);
    assert_eq!(rest.len(), 0);
}

#[test]
fn every_variant_round_trips() {
    round_trip(Value::Boolean(true));
    round_trip(Value::Boolean(false));
    round_trip(Value::Null);
    round_trip(Value::Integer(0));
    round_trip(Value::Integer(-1));
    round_trip(Value::Integer(i64::MAX));
    round_trip(Value::Integer(i64::MIN));
    round_trip(Value::OctetString(b""));
    round_trip(Value::OctetString(b"a community"));
    round_trip(Value::ObjectIdentifier(vec![1, 3, 6, 1, 2, 1, 1, 5, 0]));
    round_trip(Value::IpAddress([10, 0, 0, 255]));
    round_trip(Value::Counter32(0));
    round_trip(Value::Counter32(u32::MAX));
    round_trip(Value::Unsigned32(2147483648));
    round_trip(Value::Timeticks(123456));
    round_trip(Value::Opaque(&[0x9F, 0x78, 0x04, 0x00, 0x00, 0x00, 0x00]));
    round_trip(Value::Counter64(0));
    round_trip(Value::Counter64(u64::MAX));
    round_trip(Value::Counter64(9223372036854775808));
    round_trip(Value::NoSuchObject);
    round_trip(Value::NoSuchInstance);
    round_trip(Value::EndOfMibView);
}

#[test]
fn many_integers_round_trip() {
    let mut n: i64 = -70000;
    while n < 70000 {
        round_trip(Value::Integer(n));
        n += 7;
    }
    let mut shift = 0;
    while shift < 63 {
        let p: i64 = 1 << shift;
        for n in [p - 1, p, p + 1, -p - 1, -p, -p + 1] {
            round_trip(Value::Integer(n));
        }
        shift += 1;
    }
}

#[test]
fn integers_take_the_fewest_bytes() {
    assert_eq!(encode(&Value::Integer(0)), vec![0x02, 0x01, 0x00]);
    assert_eq!(encode(&Value::Integer(1)), vec![0x02, 0x01, 0x01]);
    assert_eq!(encode(&Value::Integer(127)), vec![0x02, 0x01, 0x7F]);
    assert_eq!(encode(&Value::Integer(128)), vec![0x02, 0x02, 0x00, 0x80]);
    assert_eq!(encode(&Value::Integer(255)), vec![0x02, 0x02, 0x00, 0xFF]);
    assert_eq!(encode(&Value::Integer(256)), vec![0x02, 0x02, 0x01, 0x00]);
    assert_eq!(encode(&Value::Integer(32767)), vec![0x02, 0x02, 0x7F, 0xFF]);
    assert_eq!(encode(&Value::Integer(32768)), vec![0x02, 0x03, 0x00, 0x80, 0x00]);
    assert_eq!(encode(&Value::Integer(-1)), vec![0x02, 0x01, 0xFF]);
    assert_eq!(encode(&Value::Integer(-128)), vec![0x02, 0x01, 0x80]);
    assert_eq!(encode(&Value::Integer(-129)), vec![0x02, 0x02, 0xFF, 0x7F]);
    assert_eq!(encode(&Value::Integer(-32768)), vec![0x02, 0x02, 0x80, 0x00]);
    assert_eq!(
        encode(&Value::Integer(i64::MAX)),
        vec![0x02, 0x08, 0x7F, 0xFF, 0xFF, 0xFF, 0xFF, 0xFF, 0xFF, 0xFF]
    );
    assert_eq!(
        encode(&Value::Integer(i64::MIN)),
        vec![0x02, 0x08, 0x80, 0x00, 0x00, 0x00, 0x00, 0x00, 0x00, 0x00]
    );
}

#[test]
fn unsigned_values_get_a_pad_byte_when_the_high_bit_is_set() {
    assert_eq!(encode(&Value::Counter32(0)), vec![0x41, 0x01, 0x00]);
    assert_eq!(encode(&Value::Unsigned32(127)), vec![0x42, 0x01, 0x7F]);
    assert_eq!(encode(&Value::Unsigned32(128)), vec![0x42, 0x02, 0x00, 0x80]);
    assert_eq!(encode(&Value::Timeticks(65535)), vec![0x43, 0x03, 0x00, 0xFF, 0xFF]);
    assert_eq!(
        encode(&Value::Counter32(u32::MAX)),
        vec![0x41, 0x05, 0x00, 0xFF, 0xFF, 0xFF, 0xFF]
    );
    assert_eq!(
        encode(&Value::Counter64(u64::MAX)),
        vec![0x46, 0x09, 0x00, 0xFF, 0xFF, 0xFF, 0xFF, 0xFF, 0xFF, 0xFF, 0xFF]
    );
    assert_eq!(
        encode(&Value::Counter64(1 << 63)),
        vec![0x46, 0x09, 0x00, 0x80, 0x00, 0x00, 0x00, 0x00, 0x00, 0x00, 0x00]
    );
    assert_eq!(
        encode(&Value::Counter64((1 << 63) - 1)),
        vec![0x46, 0x08, 0x7F, 0xFF, 0xFF, 0xFF, 0xFF, 0xFF, 0xFF, 0xFF]
    );
}

#[test]
fn other_variants_on_the_wire() {
    assert_eq!(encode(&Value::Boolean(true)), vec![0x01, 0x01, 0x01]);
    assert_eq!(encode(&Value::Boolean(false)), vec![0x01, 0x01, 0x00]);
    assert_eq!(encode(&Value::Null), vec![0x05, 0x00]);
    assert_eq!(encode(&Value::OctetString(b"ab")), vec![0x04, 0x02, b'a', b'b']);
    assert_eq!(encode(&Value::Opaque(b"ab")), vec![0x44, 0x02, b'a', b'b']);
    assert_eq!(
        encode(&Value::IpAddress([192, 168, 1, 2])),
        vec![0x40, 0x04, 192, 168, 1, 2]
    );
    assert_eq!(
        encode(&Value::ObjectIdentifier(vec![1, 3, 6, 1])),
        vec![0x06, 0x03, 0x2B, 0x06, 0x01]
    );
    assert_eq!(encode(&Value::NoSuchObject), vec![0x80, 0x00]);
    assert_eq!(encode(&Value::NoSuchInstance), vec![0x81, 0x00]);
    assert_eq!(encode(&Value::EndOfMibView), vec![0x82, 0x00]);
}

#[test]
fn content_bytes_as_integers() {
    assert_eq!(read_int(&[0x00]), Ok(0));
    assert_eq!(read_int(&[0x7F]), Ok(127));
    assert_eq!(read_int(&[0x80]), Ok(-128));
    assert_eq!(read_int(&[0xFF]), Ok(-1));
    assert_eq!(read_int(&[0x00, 0x80]), Ok(128));
    assert_eq!(read_int(&[0xFF, 0x7F]), Ok(-129));
    assert_eq!(read_int(&[0x00, 0x00, 0x05]), Ok(5));
    assert_eq!(read_int(&[0xFF, 0xFF, 0xFB]), Ok(-5));
    assert_eq!(
        read_int(&[0x00, 0xFF, 0xFF, 0xFF, 0xFF, 0xFF, 0xFF, 0xFF, 0xFF]),
        Ok(18446744073709551615)
    );
    assert_eq!(
        read_int(&[0x80, 0, 0, 0, 0, 0, 0, 0, 0]),
        Ok(-2361183241434822606848)
    );
    assert_eq!(read_int(&[]), Err(SnmpError::MalformedEncoding));
    assert_eq!(read_int(&[0; 10]), Err(SnmpError::MalformedEncoding));
}

#[test]
fn integers_out_of_range_are_malformed() {
    // nine bytes that denote 2^63
    let too_big = [0x00, 0x80, 0, 0, 0, 0, 0, 0, 0];
    assert_eq!(read_content(0x02, &too_big), Err(SnmpError::MalformedEncoding));
    assert_eq!(read_content(0x46, &too_big), Ok(Value::Counter64(1 << 63)));
    // -1 is no counter
    assert_eq!(read_content(0x41, &[0xFF]), Err(SnmpError::MalformedEncoding));
    assert_eq!(read_content(0x42, &[0xFF]), Err(SnmpError::MalformedEncoding));
    assert_eq!(read_content(0x43, &[0xFF]), Err(SnmpError::MalformedEncoding));
    assert_eq!(read_content(0x46, &[0xFF]), Err(SnmpError::MalformedEncoding));
    // 2^32 does not fit 32 bits
    let wide = [0x01, 0x00, 0x00, 0x00, 0x00];
    assert_eq!(read_content(0x41, &wide), Err(SnmpError::MalformedEncoding));
    assert_eq!(read_content(0x02, &wide), Ok(Value::Integer(4294967296)));
    assert_eq!(read_content(0x46, &wide), Ok(Value::Counter64(4294967296)));
    // 2^64 fits nothing
    let huge = [0x01, 0, 0, 0, 0, 0, 0, 0, 0];
    assert_eq!(read_content(0x46, &huge), Err(SnmpError::MalformedEncoding));
    // empty content
    assert_eq!(read_content(0x02, &[]), Err(SnmpError::MalformedEncoding));
    assert_eq!(read_content(0x41, &[]), Err(SnmpError::MalformedEncoding));
}

#[test]
fn content_of_the_wrong_length_is_malformed() {
    assert_eq!(read_content(0x01, &[]), Err(SnmpError::MalformedEncoding));
    assert_eq!(read_content(0x01, &[1, 1]), Err(SnmpError::MalformedEncoding));
    assert_eq!(read_content(0x05, &[0]), Err(SnmpError::MalformedEncoding));
    assert_eq!(read_content(0x40, &[1, 2, 3]), Err(SnmpError::MalformedEncoding));
    assert_eq!(read_content(0x40, &[1, 2, 3, 4, 5]), Err(SnmpError::MalformedEncoding));
    assert_eq!(read_content(0x80, &[0]), Err(SnmpError::MalformedEncoding));
    assert_eq!(read_content(0x81, &[0]), Err(SnmpError::MalformedEncoding));
    assert_eq!(read_content(0x82, &[0]), Err(SnmpError::MalformedEncoding));
}

#[test]
fn any_nonzero_byte_is_true() {
    assert_eq!(read_content(0x01, &[0x00]), Ok(Value::Boolean(false)));
    assert_eq!(read_content(0x01, &[0x01]), Ok(Value::Boolean(true)));
    assert_eq!(read_content(0x01, &[0xFF]), Ok(Value::Boolean(true)));
}

#[test]
fn unknown_tags_are_malformed() {
    for tag in [0x00u8, 0x03, 0x07, 0x30, 0x31, 0x45, 0x47, 0x83, 0xA0, 0xFF] {
        assert_eq!(read_content(tag, &[]), Err(SnmpError::MalformedEncoding));
        assert_eq!(read_content(tag, &[0x00]), Err(SnmpError::MalformedEncoding));
    }
}

#[test]
fn value_leaves_what_follows_it() {
    let bytes = [0x02, 0x01, 0x05, 0x04, 0x01, b'x'];
    let (first, rest) = read_value(&bytes).unwrap();
    assert_eq!(first, Value::Integer(5));
    let (second, rest) = read_value(rest).unwrap();
    assert_eq!(second, Value::OctetString(b"x"));
    assert_eq!(rest.len(), 0);
    assert!(matches!(read_value(rest), Err(SnmpError::MalformedEncoding)));
}

#[test]
fn byte_strings_borrow_from_the_input() {
    let bytes = vec![0x04, 0x03, 1, 2, 3];
    let (value, _) = read_value(&bytes).unwrap();
    match value {
        Value::OctetString(s) => assert_eq!(s.as_ptr(), bytes[2..].as_ptr()),
        other => panic!("{:?}", other),
    }
}

#[test]
fn markers_cannot_be_set() {
    assert!(!is_settable(&Value::NoSuchObject));
    assert!(!is_settable(&Value::NoSuchInstance));
    assert!(!is_settable(&Value::EndOfMibView));
    assert!(is_settable(&Value::Null));
    assert!(is_settable(&Value::Integer(3)));
    assert!(is_settable(&Value::Opaque(b"")));
}

#[test]
fn a_value_is_valid_unless_its_arcs_are_not() {
    assert!(is_valid_value(&Value::Integer(1)));
    assert!(is_valid_value(&Value::ObjectIdentifier(vec![1, 3])));
    assert!(!is_valid_value(&Value::ObjectIdentifier(vec![1])));
    assert!(!is_valid_value(&Value::ObjectIdentifier(vec![3, 1])));
}

#[test]
fn a_value_that_does_not_fit_is_refused() {
    let mut buf = Buf::new();
    let big = vec![0u8; 4093];
    assert_eq!(buf.push_value(&Value::OctetString(&big)), Err(SnmpError::BufferExhausted));
    assert_eq!(buf.len(), 0);
    let fits = vec![0u8; 4092];
    assert_eq!(buf.push_value(&Value::OctetString(&fits)), Ok(()));
    assert_eq!(buf.len(), 4096);
    assert_eq!(buf.push_byte(0), Err(SnmpError::BufferExhausted));
    assert_eq!(buf.len(), 4096);
}

#[test]
fn a_write_that_fails_leaves_what_was_written() {
    let mut buf = Buf::new();
    buf.push_chunk(&[0xAB; 4090]).unwrap();
    let before = buf.as_slice().to_vec();
    // the content fits, the header does not
    assert_eq!(buf.push_value(&Value::Integer(0x0102030405)), Err(SnmpError::BufferExhausted));
    assert_eq!(buf.as_slice(), &before[..]);
    assert_eq!(buf.push_value(&Value::Counter64(u64::MAX)), Err(SnmpError::BufferExhausted));
    assert_eq!(buf.as_slice(), &before[..]);
    assert_eq!(
        buf.push_value(&Value::ObjectIdentifier(vec![1, 3, 6, 1, 4, 1, 99999])),
        Err(SnmpError::BufferExhausted)
    );
    assert_eq!(buf.as_slice(), &before[..]);
    assert_eq!(buf.push_binding(&[1, 3], &Value::Null), Err(SnmpError::BufferExhausted));
    assert_eq!(buf.as_slice(), &before[..]);
    assert_eq!(buf.push_length(70000), Ok(()));
    assert_eq!(buf.push_length(70000), Err(SnmpError::BufferExhausted));
    assert_eq!(buf.len(), 4094);
    assert_eq!(buf.push_value(&Value::Null), Ok(()));
    assert_eq!(buf.len(), 4096);
    assert_eq!(&buf.as_slice()[..6], &[0x05, 0x00, 0x83, 0x01, 0x11, 0x70]);
}
