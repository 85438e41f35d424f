use feox_server::protocol::resp::{parse_value, write_resp_value, RespParser, RespValue};

fn encode(v: &RespValue) -> Vec<u8> {
    let mut out = Vec::new();
    write_resp_value(&mut out, v);
    out
}

#[test]
fn encodes_each_kind() {
    assert_eq!(encode(&RespValue::SimpleString(b"OK".to_vec())), b"+OK\r\n".to_vec());
    assert_eq!(encode(&RespValue::Error("ERR bad".to_string())), b"-ERR bad\r\n".to_vec());
    assert_eq!(encode(&RespValue::Integer(-42)), b":-42\r\n".to_vec());
    assert_eq!(encode(&RespValue::Integer(0)), b":0\r\n".to_vec());
    assert_eq!(encode(&RespValue::BulkString(None)), b"$-1\r\n".to_vec());
    assert_eq!(encode(&RespValue::BulkString(Some(b"hello".to_vec()))), b"$5\r\nhello\r\n".to_vec());
    assert_eq!(encode(&RespValue::Array(None)), b"*-1\r\n".to_vec());
    assert_eq!(
        encode(&RespValue::Array(Some(vec![RespValue::Integer(1), RespValue::BulkString(Some(b"".to_vec()))]))),
        b"*2\r\n:1\r\n$0\r\n\r\n".to_vec()
    );
}

#[test]
fn parses_a_command_array() {
    let bytes = b"*2\r\n$3\r\nGET\r\n$3\r\nkey\r\n";
    let parsed = parse_value(bytes, 0).unwrap().unwrap();
    assert_eq!(parsed.1, bytes.len());
    assert_eq!(
        parsed.0,
        RespValue::Array(Some(vec![
            RespValue::BulkString(Some(b"GET".to_vec())),
            RespValue::BulkString(Some(b"key".to_vec()))
        ]))
    );
}

#[test]
fn decoding_an_encoding_gives_the_value_back() {
    let value = RespValue::Array(Some(vec![
        RespValue::SimpleString(b"PONG".to_vec()),
        RespValue::Error("-ERR x".to_string()),
        RespValue::Integer(i64::MIN),
        RespValue::BulkString(Some(b"a\r\nb".to_vec())),
        RespValue::BulkString(None),
        RespValue::Array(Some(vec![])),
        RespValue::Array(None),
    ]));
    let bytes = encode(&value);
    let (back, end) = parse_value(&bytes, 0).unwrap().unwrap();
    assert_eq!(end, bytes.len());
    assert_eq!(back, value);
}

#[test]
fn incomplete_input_waits_for_more() {
    let mut parser = RespParser::new();
    parser.feed(b"*1\r\n$4\r\nPI");
    assert_eq!(parser.parse_next(), Ok(None));
    parser.feed(b"NG\r\n:7\r\n");
    assert_eq!(
        parser.parse_next(),
        Ok(Some(RespValue::Array(Some(vec![RespValue::BulkString(Some(b"PING".to_vec()))]))))
    );
    assert_eq!(parser.parse_next(), Ok(Some(RespValue::Integer(7))));
    assert_eq!(parser.parse_next(), Ok(None));
}

#[test]
fn rejects_what_is_no_resp() {
    assert!(parse_value(b"?x\r\n", 0).is_err());
    assert!(parse_value(b":12a\r\n", 0).is_err());
    assert!(parse_value(b":007\r\n", 0).is_err());
    assert!(parse_value(b"$-2\r\n", 0).is_err());
    assert!(parse_value(b"$1\r\nab\r\n", 0).is_err());
}
