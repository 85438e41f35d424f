use feox_server::network::PubSubOp;
use feox_server::protocol::command::parser::{extract_bytes, extract_integer, parse_command};
use feox_server::protocol::command::Command;
use feox_server::protocol::resp::RespValue;

fn bulk(s: &str) -> RespValue {
    RespValue::BulkString(Some(s.as_bytes().to_vec()))
}

fn cmd(parts: &[&str]) -> RespValue {
    RespValue::Array(Some(parts.iter().map(|p| bulk(p)).collect()))
}

#[test]
fn get_with_one_key() {
    assert_eq!(parse_command(cmd(&["GET", "k"])), Ok(Command::Get(b"k".to_vec())));
    assert_eq!(parse_command(cmd(&["get", "k"])), Ok(Command::Get(b"k".to_vec())));
}

#[test]
fn get_with_wrong_arity() {
    assert_eq!(
        parse_command(cmd(&["GET"])),
        Err("wrong number of arguments for 'GET' command".to_string())
    );
    assert_eq!(
        parse_command(cmd(&["GET", "a", "b"])),
        Err("wrong number of arguments for 'GET' command".to_string())
    );
}

#[test]
fn set_with_expiry_options() {
    assert_eq!(
        parse_command(cmd(&["SET", "k", "v", "EX", "10"])),
        Ok(Command::SetValue { key: b"k".to_vec(), value: b"v".to_vec(), ex: Some(10), px: None })
    );
    assert_eq!(
        parse_command(cmd(&["set", "k", "v", "px", "1500", "NX"])),
        Ok(Command::SetValue { key: b"k".to_vec(), value: b"v".to_vec(), ex: None, px: Some(1500) })
    );
    assert_eq!(
        parse_command(cmd(&["SET", "k", "v", "EX"])),
        Ok(Command::SetValue { key: b"k".to_vec(), value: b"v".to_vec(), ex: None, px: None })
    );
    assert_eq!(
        parse_command(cmd(&["SET", "k", "v", "EX", "soon"])),
        Err("Invalid integer".to_string())
    );
}

#[test]
fn integer_arguments() {
    assert_eq!(
        parse_command(cmd(&["INCRBY", "k", "-5"])),
        Ok(Command::IncrBy { key: b"k".to_vec(), delta: -5 })
    );
    assert_eq!(
        parse_command(RespValue::Array(Some(vec![bulk("DECRBY"), bulk("k"), RespValue::Integer(3)]))),
        Ok(Command::DecrBy { key: b"k".to_vec(), delta: 3 })
    );
    assert_eq!(
        parse_command(RespValue::Array(Some(vec![bulk("EXPIRE"), bulk("k"), RespValue::SimpleString(b"3".to_vec())]))),
        Err("Expected integer value".to_string())
    );
    assert_eq!(
        parse_command(RespValue::Array(Some(vec![
            bulk("INCRBY"),
            bulk("k"),
            RespValue::BulkString(Some(vec![0xff]))
        ]))),
        Err("Invalid UTF-8".to_string())
    );
    assert_eq!(
        parse_command(cmd(&["INCRBY", "k", "99999999999999999999"])),
        Err("Invalid integer".to_string())
    );
}

#[test]
fn multi_key_commands() {
    assert_eq!(
        parse_command(cmd(&["DEL", "a", "b"])),
        Ok(Command::Del(vec![b"a".to_vec(), b"b".to_vec()]))
    );
    assert_eq!(
        parse_command(cmd(&["DEL"])),
        Err("wrong number of arguments for 'DEL' command".to_string())
    );
    assert_eq!(
        parse_command(cmd(&["MSET", "a", "1", "b", "2"])),
        Ok(Command::MSet(vec![(b"a".to_vec(), b"1".to_vec()), (b"b".to_vec(), b"2".to_vec())]))
    );
    assert_eq!(
        parse_command(cmd(&["MSET", "a", "1", "b"])),
        Err("wrong number of arguments for 'MSET' command".to_string())
    );
    assert_eq!(
        parse_command(RespValue::Array(Some(vec![bulk("MGET"), bulk("a"), RespValue::Integer(1)]))),
        Err("Expected string value".to_string())
    );
}

#[test]
fn scan_defaults_and_options() {
    assert_eq!(
        parse_command(cmd(&["SCAN", "0"])),
        Ok(Command::Scan { cursor: b"0".to_vec(), count: 10, pattern: None })
    );
    assert_eq!(
        parse_command(cmd(&["SCAN", "0", "MATCH", "u*", "COUNT", "5"])),
        Ok(Command::Scan { cursor: b"0".to_vec(), count: 5, pattern: Some("u*".to_string()) })
    );
    assert_eq!(parse_command(cmd(&["SCAN", "0", "TYPE", "x"])), Err("syntax error in SCAN".to_string()));
    assert_eq!(parse_command(cmd(&["SCAN", "0", "COUNT"])), Err("syntax error in SCAN".to_string()));
}

#[test]
fn hash_commands() {
    assert_eq!(
        parse_command(cmd(&["HSET", "h", "f1", "v1", "f2", "v2"])),
        Ok(Command::HSet {
            key: b"h".to_vec(),
            fields: vec![(b"f1".to_vec(), b"v1".to_vec()), (b"f2".to_vec(), b"v2".to_vec())]
        })
    );
    assert_eq!(
        parse_command(cmd(&["HSET", "h", "f1"])),
        Err("wrong number of arguments for 'HSET' command".to_string())
    );
    assert_eq!(
        parse_command(cmd(&["HINCRBY", "h", "f", "2"])),
        Ok(Command::HIncrBy { key: b"h".to_vec(), field: b"f".to_vec(), delta: 2 })
    );
    assert_eq!(
        parse_command(cmd(&["HMGET", "h", "a", "b"])),
        Ok(Command::HMGet { key: b"h".to_vec(), fields: vec![b"a".to_vec(), b"b".to_vec()] })
    );
}

#[test]
fn list_and_pubsub_commands() {
    assert_eq!(
        parse_command(cmd(&["LPOP", "l", "2"])),
        Ok(Command::LPop { key: b"l".to_vec(), count: Some(2) })
    );
    assert_eq!(
        parse_command(cmd(&["LRANGE", "l", "0", "-1"])),
        Ok(Command::LRange { key: b"l".to_vec(), start: 0, stop: -1 })
    );
    assert_eq!(parse_command(cmd(&["UNSUBSCRIBE"])), Ok(Command::Unsubscribe(None)));
    assert_eq!(
        parse_command(cmd(&["PSUBSCRIBE", "a*"])),
        Ok(Command::PSubscribe(vec![b"a*".to_vec()]))
    );
    assert_eq!(
        parse_command(cmd(&["PUBSUB", "channels", "x"])),
        Ok(Command::PubSub { subcommand: "channels".to_string(), args: vec![b"x".to_vec()] })
    );
}

#[test]
fn server_commands() {
    assert_eq!(parse_command(cmd(&["PING"])), Ok(Command::Ping(None)));
    assert_eq!(parse_command(cmd(&["PING", "hi", "there"])), Ok(Command::Ping(Some(b"hi".to_vec()))));
    assert_eq!(parse_command(cmd(&["QUIT", "now"])), Ok(Command::Quit));
    assert_eq!(parse_command(cmd(&["COMMAND"])), Ok(Command::Command { subcommand: None, args: vec![] }));
    assert_eq!(parse_command(cmd(&["INFO", "server"])), Ok(Command::Info(Some("server".to_string()))));
    assert_eq!(
        parse_command(cmd(&["CONFIG", "GET", "maxclients"])),
        Ok(Command::Config { action: "GET".to_string(), args: vec![b"maxclients".to_vec()] })
    );
    assert_eq!(parse_command(cmd(&["MULTI", "x"])), Err("wrong number of arguments for 'MULTI' command".to_string()));
}

#[test]
fn malformed_requests() {
    assert_eq!(parse_command(RespValue::Array(Some(vec![]))), Err("Commands must be arrays".to_string()));
    assert_eq!(parse_command(RespValue::Array(None)), Err("Commands must be arrays".to_string()));
    assert_eq!(parse_command(bulk("GET")), Err("Commands must be arrays".to_string()));
    assert_eq!(
        parse_command(RespValue::Array(Some(vec![RespValue::SimpleString(b"GET".to_vec()), bulk("k")]))),
        Err("Invalid command format".to_string())
    );
    assert_eq!(parse_command(cmd(&["NOPE", "x"])), Err("unknown command 'NOPE'".to_string()));
}

#[test]
fn extractors() {
    assert_eq!(extract_bytes(&RespValue::SimpleString(b"s".to_vec())), Ok(b"s".to_vec()));
    assert_eq!(extract_bytes(&RespValue::Integer(1)), Err("Expected string value".to_string()));
    assert_eq!(extract_integer(&RespValue::Integer(-9)), Ok(-9));
    assert_eq!(extract_integer(&bulk("+12")), Ok(12));
    assert_eq!(extract_integer(&bulk("1 ")), Err("Invalid integer".to_string()));
}

#[test]
fn command_classification() {
    let sub = Command::Subscribe(vec![b"c".to_vec()]);
    assert!(sub.is_pubsub_command());
    assert!(sub.is_allowed_in_pubsub_mode());
    let publish = Command::Publish { channel: b"c".to_vec(), message: b"m".to_vec() };
    assert!(publish.is_pubsub_command());
    assert!(!publish.is_allowed_in_pubsub_mode());
    assert!(Command::Ping(None).is_allowed_in_pubsub_mode());
    assert!(!Command::Get(b"k".to_vec()).is_pubsub_command());
    assert_eq!(
        Command::PubSub { subcommand: "numsub".to_string(), args: vec![b"a".to_vec()] }.to_pubsub_op(),
        Some(PubSubOp::PubSubNumSub { channels: vec![b"a".to_vec()] })
    );
    assert_eq!(
        Command::PubSub { subcommand: "CHANNELS".to_string(), args: vec![] }.to_pubsub_op(),
        Some(PubSubOp::PubSubChannels { pattern: None })
    );
    assert_eq!(Command::PubSub { subcommand: "other".to_string(), args: vec![] }.to_pubsub_op(), None);
    assert_eq!(Command::Get(b"k".to_vec()).to_pubsub_op(), None);
    assert_eq!(
        Command::from_resp(cmd(&["ECHO", "hey"])),
        Ok(Command::Echo(b"hey".to_vec()))
    );
}
