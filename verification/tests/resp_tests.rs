use redis_lite::resp::{parse_resp, ParseResult, RespValue};

fn complete(input: &[u8]) -> (RespValue, usize) {
    match parse_resp(&input.to_vec(), 0) {
        ParseResult::Complete(f, n) => (f, n),
        ParseResult::Incomplete => panic!("unexpected incomplete parse"),
        ParseResult::Error => panic!("unexpected parse error"),
    }
}

#[test]
fn test_parse_array_echo_hey() {
    // "*2" = Array of length 2, then Bulk String "ECHO", then Bulk String "hey"
    let input = b"*2\r\n$4\r\nECHO\r\n$3\r\nhey\r\n";
    let (result, n) = complete(input);
    let expected = RespValue::Array(vec![
        RespValue::BulkString(b"ECHO".to_vec()),
        RespValue::BulkString(b"hey".to_vec()),
    ]);
    assert_eq!(result, expected);
    assert_eq!(n, input.len());
}

#[test]
fn test_parse_simple_string() {
    let (result, _) = complete(b"+OK\r\n");
    assert_eq!(result, RespValue::SimpleString(b"OK".to_vec()));
}

#[test]
fn test_parse_integer() {
    let (result, _) = complete(b":1000\r\n");
    assert_eq!(result, RespValue::Integer(1000));
}

#[test]
fn test_parse_bulk_string() {
    let (result, _) = complete(b"$5\r\nhello\r\n");
    assert_eq!(result, RespValue::BulkString(b"hello".to_vec()));
}

#[test]
fn test_parse_null_bulk_string() {
    let (result, _) = complete(b"$-1\r\n");
    assert_eq!(result, RespValue::Null);
}

#[test]
fn test_parse_array_mixed() {
    // Array of [Integer(1), SimpleString("OK")]
    let (result, _) = complete(b"*2\r\n:1\r\n+OK\r\n");
    let expected = RespValue::Array(vec![
        RespValue::Integer(1),
        RespValue::SimpleString(b"OK".to_vec()),
    ]);
    assert_eq!(result, expected);
}

#[test]
fn test_serialize_simple_string() {
    let v = RespValue::SimpleString(b"PONG".to_vec());
    assert_eq!(v.serialize(), b"+PONG\r\n".to_vec());
}

#[test]
fn test_serialize_error() {
    let v = RespValue::SimpleError(b"ERR oops".to_vec());
    assert_eq!(v.serialize(), b"-ERR oops\r\n".to_vec());
}

#[test]
fn test_serialize_integer_negative() {
    assert_eq!(RespValue::Integer(-42).serialize(), b":-42\r\n".to_vec());
    assert_eq!(RespValue::Integer(0).serialize(), b":0\r\n".to_vec());
    assert_eq!(
        RespValue::Integer(i64::MIN).serialize(),
        b":-9223372036854775808\r\n".to_vec()
    );
}

#[test]
fn test_serialize_null_and_bulk() {
    assert_eq!(RespValue::Null.serialize(), b"$-1\r\n".to_vec());
    assert_eq!(
        RespValue::BulkString(b"hey".to_vec()).serialize(),
        b"$3\r\nhey\r\n".to_vec()
    );
}

#[test]
fn test_serialize_array() {
    let v = RespValue::Array(vec![
        RespValue::BulkString(b"ECHO".to_vec()),
        RespValue::BulkString(b"hey".to_vec()),
    ]);
    assert_eq!(v.serialize(), b"*2\r\n$4\r\nECHO\r\n$3\r\nhey\r\n".to_vec());
}

#[test]
fn test_round_trip_nested_array() {
    let v = RespValue::Array(vec![
        RespValue::Array(vec![RespValue::Integer(1), RespValue::Null]),
        RespValue::SimpleString(b"ok".to_vec()),
        RespValue::BulkString(b"a\rb".to_vec()),
    ]);
    let bytes = v.serialize();
    let (parsed, n) = complete(&bytes);
    assert_eq!(parsed, v);
    assert_eq!(n, bytes.len());
}

#[test]
fn test_parse_incomplete_prefixes() {
    // Every strict prefix of a valid frame is incomplete, never an error.
    let input = b"*2\r\n$4\r\nECHO\r\n$3\r\nhey\r\n";
    for k in 0..input.len() {
        let prefix = input[..k].to_vec();
        match parse_resp(&prefix, 0) {
            ParseResult::Incomplete => {}
            other => panic!("prefix of length {} gave {:?}", k, other),
        }
    }
}

#[test]
fn test_parse_pipelined_frames() {
    // Two frames back to back parse as two successes without more reads.
    let mut buf = b"*1\r\n$4\r\nPING\r\n".to_vec();
    buf.extend_from_slice(b":7\r\n");
    let (first, n) = complete(&buf);
    assert_eq!(
        first,
        RespValue::Array(vec![RespValue::BulkString(b"PING".to_vec())])
    );
    match parse_resp(&buf, n) {
        ParseResult::Complete(second, end) => {
            assert_eq!(second, RespValue::Integer(7));
            assert_eq!(end, buf.len());
        }
        other => panic!("second frame gave {:?}", other),
    }
}

#[test]
fn test_parse_unknown_type_byte() {
    assert_eq!(parse_resp(&b"!abc\r\n".to_vec(), 0), ParseResult::Error);
}

#[test]
fn test_parse_bad_integer() {
    assert_eq!(parse_resp(&b":12a\r\n".to_vec(), 0), ParseResult::Error);
    assert_eq!(parse_resp(&b":\r\n".to_vec(), 0), ParseResult::Error);
}

#[test]
fn test_parse_bad_bulk_length() {
    assert_eq!(parse_resp(&b"$-2\r\n".to_vec(), 0), ParseResult::Error);
    assert_eq!(parse_resp(&b"$x\r\n".to_vec(), 0), ParseResult::Error);
}

#[test]
fn test_parse_bad_bulk_terminator() {
    assert_eq!(parse_resp(&b"$3\r\nabcXY".to_vec(), 0), ParseResult::Error);
}

#[test]
fn test_parse_depth_cap() {
    // Thirty-two nested arrays parse; a thirty-third is a protocol error.
    let mut ok = Vec::new();
    for _ in 0..32 {
        ok.extend_from_slice(b"*1\r\n");
    }
    ok.extend_from_slice(b":1\r\n");
    match parse_resp(&ok, 0) {
        ParseResult::Complete(_, n) => assert_eq!(n, ok.len()),
        other => panic!("depth 32 gave {:?}", other),
    }
    let mut deep = Vec::new();
    for _ in 0..33 {
        deep.extend_from_slice(b"*1\r\n");
    }
    deep.extend_from_slice(b":1\r\n");
    assert_eq!(parse_resp(&deep, 0), ParseResult::Error);
}
