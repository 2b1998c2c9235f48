use respkv::object::{obj_clone, Object, ObjectArray};
use respkv::resp::{deserialize_object, display_byte_slice, parse_i64, parse_u32, serialize,
    BufferSource, DecodeError, ReadState};

fn encode(o: &Object) -> Vec<u8> {
    let mut out = Vec::new();
    serialize(&mut out, o);
    out
}

fn decode_one(bytes: &[u8], chunk: usize) -> Result<Object, DecodeError> {
    let mut source = BufferSource::new(bytes.to_vec(), chunk);
    let mut state = ReadState::new();
    deserialize_object(&mut state, &mut source)
}

fn bulk(s: &[u8]) -> Object {
    Object::BulkString(Some(s.to_vec()))
}

fn array(items: Vec<Object>) -> Object {
    Object::Array(ObjectArray { items })
}

#[test]
fn encodes_every_kind() {
    assert_eq!(encode(&Object::SimpleString(b"OK".to_vec())), b"+OK\r\n");
    assert_eq!(encode(&Object::Error(b"oops".to_vec())), b"-oops\r\n");
    assert_eq!(encode(&Object::Integer(42)), b":42\r\n");
    assert_eq!(encode(&Object::Integer(-7)), b":-7\r\n");
    assert_eq!(encode(&Object::Integer(0)), b":0\r\n");
    assert_eq!(encode(&bulk(b"hello")), b"$5\r\nhello\r\n");
    assert_eq!(encode(&bulk(b"")), b"$0\r\n\r\n");
    assert_eq!(encode(&Object::BulkString(None)), b"$-1\r\n");
    assert_eq!(
        encode(&array(vec![bulk(b"a"), Object::Integer(2)])),
        b"*2\r\n$1\r\na\r\n:2\r\n"
    );
    assert_eq!(encode(&array(vec![])), b"*0\r\n");
}

#[test]
fn encodes_extreme_integers() {
    assert_eq!(
        encode(&Object::Integer(i64::MAX)),
        b":9223372036854775807\r\n"
    );
    assert_eq!(
        encode(&Object::Integer(i64::MIN)),
        b":-9223372036854775808\r\n"
    );
}

#[test]
fn decodes_integers() {
    assert_eq!(decode_one(b":42\r\n", 1024), Ok(Object::Integer(42)));
    assert_eq!(decode_one(b":-7\r\n", 1024), Ok(Object::Integer(-7)));
    assert_eq!(decode_one(b":+7\r\n", 1024), Ok(Object::Integer(7)));
    assert_eq!(
        decode_one(b":9223372036854775807\r\n", 1024),
        Ok(Object::Integer(i64::MAX))
    );
}

#[test]
fn rejects_the_smallest_integer_on_the_wire() {
    // its magnitude has no in-range representation, so the decoder refuses it
    assert!(decode_one(b":-9223372036854775808\r\n", 1024).is_err());
}

#[test]
fn decodes_bulk_strings() {
    assert_eq!(decode_one(b"$5\r\nhello\r\n", 1024), Ok(bulk(b"hello")));
    assert_eq!(decode_one(b"$0\r\n\r\n", 1024), Ok(bulk(b"")));
    assert_eq!(decode_one(b"$-1\r\n", 1024), Ok(Object::BulkString(None)));
    assert_eq!(
        decode_one(b"$4\r\n\r\n\r\n\r\n", 1024),
        Ok(bulk(b"\r\n\r\n"))
    );
}

#[test]
fn decodes_arrays() {
    assert_eq!(
        decode_one(b"*2\r\n$1\r\na\r\n:2\r\n", 1024),
        Ok(array(vec![bulk(b"a"), Object::Integer(2)]))
    );
    assert_eq!(decode_one(b"*0\r\n", 1024), Ok(array(vec![])));
    assert_eq!(
        decode_one(b"*1\r\n*1\r\n$1\r\nx\r\n", 1024),
        Ok(array(vec![array(vec![bulk(b"x")])]))
    );
}

#[test]
fn round_trips_decode_of_encode() {
    let samples = vec![
        Object::Integer(0),
        Object::Integer(-123456),
        Object::Integer(i64::MAX),
        bulk(b""),
        bulk(b"binary \r\n $*: bytes \x00\xff"),
        Object::BulkString(None),
        array(vec![]),
        array(vec![
            bulk(b"SET"),
            bulk(b"key"),
            array(vec![Object::Integer(-1), Object::BulkString(None)]),
        ]),
    ];
    for o in samples {
        let wire = encode(&o);
        assert_eq!(decode_one(&wire, 1024), Ok(o));
    }
}

#[test]
fn round_trips_encode_of_decode() {
    // canonical wire forms come back byte-identical
    let wires: Vec<&[u8]> = vec![
        b":42\r\n",
        b":-7\r\n",
        b"$5\r\nhello\r\n",
        b"$-1\r\n",
        b"*2\r\n$1\r\na\r\n:2\r\n",
    ];
    for wire in wires {
        let o = decode_one(wire, 1024).unwrap();
        assert_eq!(encode(&o), wire);
    }
}

#[test]
fn streams_one_byte_at_a_time() {
    // the decoder never needs the whole input at once
    let o = array(vec![bulk(b"ECHO"), bulk(b"hello"), Object::Integer(-42)]);
    let wire = encode(&o);
    for chunk in [1, 2, 3, 7, 1024] {
        assert_eq!(decode_one(&wire, chunk), Ok(obj_clone(&o)));
    }
}

#[test]
fn frames_back_to_back_objects() {
    // two objects, any chunking: the first, then the second, off one state
    let a = array(vec![bulk(b"PING")]);
    let b = Object::Integer(7);
    let mut wire = encode(&a);
    wire.extend_from_slice(&encode(&b));
    for chunk in [1, 2, 5, 1024] {
        let mut source = BufferSource::new(wire.clone(), chunk);
        let mut state = ReadState::new();
        assert_eq!(
            deserialize_object(&mut state, &mut source),
            Ok(obj_clone(&a))
        );
        assert_eq!(
            deserialize_object(&mut state, &mut source),
            Ok(obj_clone(&b))
        );
        assert!(deserialize_object(&mut state, &mut source).is_err());
    }
}

#[test]
fn rejects_malformed_input() {
    assert_eq!(decode_one(b"", 1024), Err(DecodeError::UnexpectedEnd));
    assert_eq!(decode_one(b"x", 1024), Err(DecodeError::UnknownTag(b'x')));
    // simple strings and errors are replies, never requests
    assert_eq!(
        decode_one(b"+OK\r\n", 1024),
        Err(DecodeError::UnknownTag(b'+'))
    );
    assert_eq!(
        decode_one(b"-err\r\n", 1024),
        Err(DecodeError::UnknownTag(b'-'))
    );
    // truncations in the middle of an object
    assert!(decode_one(b":42", 1024).is_err());
    assert!(decode_one(b"$5\r\nhel", 1024).is_err());
    assert!(decode_one(b"*2\r\n:1\r\n", 1024).is_err());
    // malformed numbers and framing
    assert!(decode_one(b":\r\n", 1024).is_err());
    assert!(decode_one(b":12x\r\n", 1024).is_err());
    assert!(decode_one(b"$-2\r\n", 1024).is_err());
    assert!(decode_one(b"$4294967296\r\nxxxx\r\n", 1024).is_err());
    assert!(decode_one(b":99999999999999999999\r\n", 1024).is_err());
    assert!(decode_one(b"$2\r\nab__", 1024).is_err());
}

#[test]
fn zero_chunk_sources_still_deliver() {
    // a chunk of zero acts as one byte per read
    assert_eq!(decode_one(b":5\r\n", 0), Ok(Object::Integer(5)));
}

#[test]
fn parses_lengths_and_integers() {
    assert_eq!(parse_u32(&b"123".to_vec()), Some(123));
    assert_eq!(parse_u32(&b"0".to_vec()), Some(0));
    assert_eq!(parse_u32(&b"4294967295".to_vec()), Some(u32::MAX));
    assert_eq!(parse_u32(&b"4294967296".to_vec()), None);
    assert_eq!(parse_u32(&b"".to_vec()), None);
    assert_eq!(parse_u32(&b"12a".to_vec()), None);
    assert_eq!(parse_i64(&b"9223372036854775807".to_vec()), Some(i64::MAX));
    assert_eq!(parse_i64(&b"9223372036854775808".to_vec()), None);
    assert_eq!(parse_i64(&b"-1".to_vec()), None);
    assert_eq!(parse_i64(&b"7".to_vec()), Some(7));
}

#[test]
fn displays_bytes_readably() {
    let shown = display_byte_slice(b"\r\n\x01a\xff");
    let mut expected: Vec<u8> = b"\\r\\n1a".to_vec();
    expected.extend_from_slice(&[0xc3, 0xbf]);
    assert_eq!(shown, expected);
    assert_eq!(display_byte_slice(b"\x1f"), b"1f".to_vec());
}
