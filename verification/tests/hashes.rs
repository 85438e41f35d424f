#![allow(dead_code)]

use feox_server::network::connection::Connection;
use feox_server::protocol::command::executor::CommandExecutor;
use feox_server::protocol::command::hash::MetadataTracker;
use feox_server::protocol::resp::{parse_value, RespValue};
use feox_server::watch_registry::WatchRegistry;
use feoxdb::FeoxStore;
use std::sync::Arc;

/// One store with its WATCH versions and field counts, and the connections
/// opened on it; requests go through a connection as a client would send them.
struct TestServer {
    store: Arc<FeoxStore>,
    watch: WatchRegistry,
    tracker: MetadataTracker,
    clients: usize,
}

impl TestServer {
    fn new() -> TestServer {
        TestServer {
            store: Arc::new(FeoxStore::builder().enable_ttl(true).build().unwrap()),
            watch: WatchRegistry::new(),
            tracker: MetadataTracker::new(0),
            clients: 0,
        }
    }

    fn client(&mut self) -> Connection {
        self.clients += 1;
        Connection::new(self.clients, CommandExecutor::new(Arc::clone(&self.store), None), false, 0)
    }

    /// Sends one request and returns the reply written for it.
    fn query(&mut self, conn: &mut Connection, parts: &[&str]) -> RespValue {
        let mut request = format!("*{}\r\n", parts.len()).into_bytes();
        for p in parts {
            request.extend_from_slice(format!("${}\r\n{}\r\n", p.len(), p).as_bytes());
        }
        conn.process_read(&request, &mut self.watch, &mut self.tracker).expect("a well-formed request");
        let mut written = Vec::new();
        while let Some(data) = conn.pending_writes() {
            let n = data.len();
            written.extend_from_slice(data);
            conn.consume_writes(n);
        }
        match parse_value(&written, 0) {
            Ok(Some((reply, _))) => reply,
            other => panic!("no reply: {:?}", other),
        }
    }

    /// Sends one request whose reply must not be an error.
    fn run(&mut self, conn: &mut Connection, parts: &[&str]) -> RespValue {
        let reply = self.query(conn, parts);
        assert!(!matches!(reply, RespValue::Error(_)), "error reply {:?}", reply);
        reply
    }
}

fn bulk(s: &str) -> RespValue {
    RespValue::BulkString(Some(s.as_bytes().to_vec()))
}

fn nil() -> RespValue {
    RespValue::BulkString(None)
}

fn integer(n: i64) -> RespValue {
    RespValue::Integer(n)
}

fn ok() -> RespValue {
    RespValue::SimpleString(b"OK".to_vec())
}

/// The texts of an array of strings.
fn texts(reply: &RespValue) -> Vec<String> {
    match reply {
        RespValue::Array(Some(items)) => items
            .iter()
            .map(|item| match item {
                RespValue::BulkString(Some(b)) | RespValue::SimpleString(b) => String::from_utf8_lossy(b).to_string(),
                other => panic!("not a bulk string: {:?}", other),
            })
            .collect(),
        other => panic!("not an array: {:?}", other),
    }
}

/// The integers of an array of integers.
fn ints(reply: &RespValue) -> Vec<i64> {
    match reply {
        RespValue::Array(Some(items)) => items
            .iter()
            .map(|item| match item {
                RespValue::Integer(n) => *n,
                other => panic!("not an integer: {:?}", other),
            })
            .collect(),
        other => panic!("not an array: {:?}", other),
    }
}

use std::collections::HashMap;

#[test]
fn test_hset_hget() {
    let mut server = TestServer::new();
    let mut conn = server.client();
    assert_eq!(server.run(&mut conn, &["HSET", "hash", "field1", "value1"]), integer(1));
    assert_eq!(server.run(&mut conn, &["HGET", "hash", "field1"]), bulk("value1"));
}

#[test]
fn test_hset_multiple() {
    let mut server = TestServer::new();
    let mut conn = server.client();
    assert_eq!(
        server.run(&mut conn, &["HSET", "hash", "field1", "value1", "field2", "value2", "field3", "value3"]),
        integer(3)
    );
}

#[test]
fn test_hset_overwrite() {
    let mut server = TestServer::new();
    let mut conn = server.client();
    assert_eq!(server.run(&mut conn, &["HSET", "hash", "field1", "value1"]), integer(1));
    assert_eq!(server.run(&mut conn, &["HSET", "hash", "field1", "value2"]), integer(0));
    assert_eq!(server.run(&mut conn, &["HGET", "hash", "field1"]), bulk("value2"));
}

#[test]
fn test_hget_nonexistent_field() {
    let mut server = TestServer::new();
    let mut conn = server.client();
    server.run(&mut conn, &["HSET", "hash", "field1", "value1"]);
    assert_eq!(server.run(&mut conn, &["HGET", "hash", "nonexistent"]), nil());
}

#[test]
fn test_hget_nonexistent_key() {
    let mut server = TestServer::new();
    let mut conn = server.client();
    assert_eq!(server.run(&mut conn, &["HGET", "nonexistent", "field1"]), nil());
}

#[test]
fn test_hmget() {
    let mut server = TestServer::new();
    let mut conn = server.client();
    server.run(&mut conn, &["HSET", "hash", "field1", "value1", "field2", "value2", "field3", "value3"]);
    let values = server.run(&mut conn, &["HMGET", "hash", "field1", "field2", "field3"]);
    assert_eq!(texts(&values), vec!["value1", "value2", "value3"]);
}

#[test]
fn test_hmget_mixed() {
    let mut server = TestServer::new();
    let mut conn = server.client();
    server.run(&mut conn, &["HSET", "hash", "field1", "value1", "field3", "value3"]);
    let values = server.run(&mut conn, &["HMGET", "hash", "field1", "field2", "field3"]);
    assert_eq!(values, RespValue::Array(Some(vec![bulk("value1"), nil(), bulk("value3")])));
}

#[test]
fn test_hexists() {
    let mut server = TestServer::new();
    let mut conn = server.client();
    server.run(&mut conn, &["HSET", "hash", "field1", "value1"]);
    assert_eq!(server.run(&mut conn, &["HEXISTS", "hash", "field1"]), integer(1));
    assert_eq!(server.run(&mut conn, &["HEXISTS", "hash", "field2"]), integer(0));
}

#[test]
fn test_hdel() {
    let mut server = TestServer::new();
    let mut conn = server.client();
    server.run(&mut conn, &["HSET", "hash", "field1", "value1", "field2", "value2"]);
    assert_eq!(server.run(&mut conn, &["HDEL", "hash", "field1"]), integer(1));
    assert_eq!(server.run(&mut conn, &["HEXISTS", "hash", "field1"]), integer(0));
    assert_eq!(server.run(&mut conn, &["HEXISTS", "hash", "field2"]), integer(1));
}

#[test]
fn test_hdel_multiple() {
    let mut server = TestServer::new();
    let mut conn = server.client();
    server.run(&mut conn, &["HSET", "hash", "field1", "value1", "field2", "value2", "field3", "value3"]);
    assert_eq!(server.run(&mut conn, &["HDEL", "hash", "field1", "field3"]), integer(2));
    assert_eq!(server.run(&mut conn, &["HLEN", "hash"]), integer(1));
}

#[test]
fn test_hgetall() {
    let mut server = TestServer::new();
    let mut conn = server.client();
    server.run(&mut conn, &["HSET", "hash", "field1", "value1", "field2", "value2"]);
    let items = texts(&server.run(&mut conn, &["HGETALL", "hash"]));
    let result: HashMap<String, String> = items.chunks(2).map(|p| (p[0].clone(), p[1].clone())).collect();
    assert_eq!(result.len(), 2);
    assert_eq!(result.get("field1"), Some(&"value1".to_string()));
    assert_eq!(result.get("field2"), Some(&"value2".to_string()));
}

#[test]
fn test_hgetall_empty() {
    let mut server = TestServer::new();
    let mut conn = server.client();
    assert_eq!(texts(&server.run(&mut conn, &["HGETALL", "emptyhash"])).len(), 0);
}

#[test]
fn test_hlen() {
    let mut server = TestServer::new();
    let mut conn = server.client();
    assert_eq!(server.run(&mut conn, &["HLEN", "hash"]), integer(0));
    server.run(&mut conn, &["HSET", "hash", "field1", "value1"]);
    assert_eq!(server.run(&mut conn, &["HLEN", "hash"]), integer(1));
    server.run(&mut conn, &["HSET", "hash", "field2", "value2", "field3", "value3"]);
    assert_eq!(server.run(&mut conn, &["HLEN", "hash"]), integer(3));
}

#[test]
fn test_hkeys() {
    let mut server = TestServer::new();
    let mut conn = server.client();
    server.run(&mut conn, &["HSET", "hash", "field1", "value1", "field2", "value2", "field3", "value3"]);
    let mut keys = texts(&server.run(&mut conn, &["HKEYS", "hash"]));
    keys.sort();
    assert_eq!(keys, vec!["field1", "field2", "field3"]);
}

#[test]
fn test_hvals() {
    let mut server = TestServer::new();
    let mut conn = server.client();
    server.run(&mut conn, &["HSET", "hash", "field1", "value1", "field2", "value2", "field3", "value3"]);
    let mut values = texts(&server.run(&mut conn, &["HVALS", "hash"]));
    values.sort();
    assert_eq!(values, vec!["value1", "value2", "value3"]);
}

#[test]
fn test_hincrby() {
    let mut server = TestServer::new();
    let mut conn = server.client();
    assert_eq!(server.run(&mut conn, &["HINCRBY", "hash", "counter", "1"]), integer(1));
    assert_eq!(server.run(&mut conn, &["HINCRBY", "hash", "counter", "5"]), integer(6));
    assert_eq!(server.run(&mut conn, &["HINCRBY", "hash", "counter", "-2"]), integer(4));
}

#[test]
fn test_hincrby_on_non_integer() {
    let mut server = TestServer::new();
    let mut conn = server.client();
    server.run(&mut conn, &["HSET", "hash", "field1", "notanumber"]);
    let result = server.query(&mut conn, &["HINCRBY", "hash", "field1", "1"]);
    assert!(matches!(result, RespValue::Error(_)));
}

#[test]
fn test_hash_multiple_operations() {
    let mut server = TestServer::new();
    let mut conn = server.client();
    server.run(&mut conn, &["HSET", "hash", "name", "John", "age", "30", "city", "NYC"]);
    assert_eq!(server.run(&mut conn, &["HGET", "hash", "name"]), bulk("John"));
    server.run(&mut conn, &["HINCRBY", "hash", "age", "1"]);
    assert_eq!(server.run(&mut conn, &["HGET", "hash", "age"]), bulk("31"));
    server.run(&mut conn, &["HDEL", "hash", "city"]);
    assert_eq!(server.run(&mut conn, &["HLEN", "hash"]), integer(2));
}
