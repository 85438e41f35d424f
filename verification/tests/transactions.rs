#![allow(dead_code)]

use feox_server::network::connection::Connection;
use feox_server::protocol::command::executor::CommandExecutor;
use feox_server::protocol::command::hash::MetadataTracker;
use feox_server::protocol::resp::{parse_value, RespValue};
use feox_server::watch_registry::WatchRegistry;
use feoxdb::FeoxStore;
use std::sync::Arc;

/// One store with its WATCH versions and field counts, and the connections
/// opened on it; requests go through a connection as a client would send them.
struct TestServer {
    store: Arc<FeoxStore>,
    watch: WatchRegistry,
    tracker: MetadataTracker,
    clients: usize,
}

impl TestServer {
    fn new() -> TestServer {
        TestServer {
            store: Arc::new(FeoxStore::builder().enable_ttl(true).build().unwrap()),
            watch: WatchRegistry::new(),
            tracker: MetadataTracker::new(0),
            clients: 0,
        }
    }

    fn client(&mut self) -> Connection {
        self.clients += 1;
        Connection::new(self.clients, CommandExecutor::new(Arc::clone(&self.store), None), false, 0)
    }

    /// Sends one request and returns the reply written for it.
    fn query(&mut self, conn: &mut Connection, parts: &[&str]) -> RespValue {
        let mut request = format!("*{}\r\n", parts.len()).into_bytes();
        for p in parts {
            request.extend_from_slice(format!("${}\r\n{}\r\n", p.len(), p).as_bytes());
        }
        conn.process_read(&request, &mut self.watch, &mut self.tracker).expect("a well-formed request");
        let mut written = Vec::new();
        while let Some(data) = conn.pending_writes() {
            let n = data.len();
            written.extend_from_slice(data);
            conn.consume_writes(n);
        }
        match parse_value(&written, 0) {
            Ok(Some((reply, _))) => reply,
            other => panic!("no reply: {:?}", other),
        }
    }

    /// Sends one request whose reply must not be an error.
    fn run(&mut self, conn: &mut Connection, parts: &[&str]) -> RespValue {
        let reply = self.query(conn, parts);
        assert!(!matches!(reply, RespValue::Error(_)), "error reply {:?}", reply);
        reply
    }
}

fn bulk(s: &str) -> RespValue {
    RespValue::BulkString(Some(s.as_bytes().to_vec()))
}

fn nil() -> RespValue {
    RespValue::BulkString(None)
}

fn integer(n: i64) -> RespValue {
    RespValue::Integer(n)
}

fn ok() -> RespValue {
    RespValue::SimpleString(b"OK".to_vec())
}

/// The texts of an array of strings.
fn texts(reply: &RespValue) -> Vec<String> {
    match reply {
        RespValue::Array(Some(items)) => items
            .iter()
            .map(|item| match item {
                RespValue::BulkString(Some(b)) | RespValue::SimpleString(b) => String::from_utf8_lossy(b).to_string(),
                other => panic!("not a bulk string: {:?}", other),
            })
            .collect(),
        other => panic!("not an array: {:?}", other),
    }
}

/// The integers of an array of integers.
fn ints(reply: &RespValue) -> Vec<i64> {
    match reply {
        RespValue::Array(Some(items)) => items
            .iter()
            .map(|item| match item {
                RespValue::Integer(n) => *n,
                other => panic!("not an integer: {:?}", other),
            })
            .collect(),
        other => panic!("not an array: {:?}", other),
    }
}

#[test]
fn test_multi_exec_basic() {
    let mut server = TestServer::new();
    let mut conn = server.client();
    server.run(&mut conn, &["MULTI"]);
    server.run(&mut conn, &["SET", "tx", "value1"]);
    server.run(&mut conn, &["SET", "tx", "value2"]);
    let result = texts(&server.run(&mut conn, &["EXEC"]));
    assert_eq!(result.len(), 2);
    assert_eq!(result[0], "OK");
    assert_eq!(result[1], "OK");
    assert_eq!(server.run(&mut conn, &["GET", "tx"]), bulk("value2"));
}

#[test]
fn test_multi_exec_with_get() {
    let mut server = TestServer::new();
    let mut conn = server.client();
    server.run(&mut conn, &["SET", "tx", "initial"]);
    server.run(&mut conn, &["MULTI"]);
    server.run(&mut conn, &["GET", "tx"]);
    server.run(&mut conn, &["SET", "tx", "updated"]);
    server.run(&mut conn, &["GET", "tx"]);
    match server.run(&mut conn, &["EXEC"]) {
        RespValue::Array(Some(result)) => {
            assert_eq!(result.len(), 3);
            assert_eq!(result[0], bulk("initial"));
            assert_eq!(result[2], bulk("updated"));
        },
        other => panic!("unexpected {:?}", other),
    }
}

#[test]
fn test_discard() {
    let mut server = TestServer::new();
    let mut conn = server.client();
    server.run(&mut conn, &["SET", "discard", "original"]);
    server.run(&mut conn, &["MULTI"]);
    server.run(&mut conn, &["SET", "discard", "should_not_be_set"]);
    server.run(&mut conn, &["DISCARD"]);
    assert_eq!(server.run(&mut conn, &["GET", "discard"]), bulk("original"));
}

#[test]
fn test_watch_success() {
    let mut server = TestServer::new();
    let mut conn = server.client();
    server.run(&mut conn, &["SET", "watch", "initial"]);
    server.run(&mut conn, &["WATCH", "watch"]);
    server.run(&mut conn, &["MULTI"]);
    server.run(&mut conn, &["SET", "watch", "updated"]);
    let result = texts(&server.run(&mut conn, &["EXEC"]));
    assert_eq!(result.len(), 1);
    assert_eq!(result[0], "OK");
    assert_eq!(server.run(&mut conn, &["GET", "watch"]), bulk("updated"));
}

#[test]
fn test_watch_abort_on_modification() {
    let mut server = TestServer::new();
    let mut conn1 = server.client();
    let mut conn2 = server.client();
    server.run(&mut conn1, &["SET", "watch", "initial"]);
    server.run(&mut conn1, &["WATCH", "watch"]);
    server.run(&mut conn2, &["SET", "watch", "modified_by_conn2"]);
    server.run(&mut conn1, &["MULTI"]);
    server.run(&mut conn1, &["SET", "watch", "should_fail"]);
    assert_eq!(server.run(&mut conn1, &["EXEC"]), nil());
    assert_eq!(server.run(&mut conn1, &["GET", "watch"]), bulk("modified_by_conn2"));
}

#[test]
fn test_unwatch() {
    let mut server = TestServer::new();
    let mut conn1 = server.client();
    let mut conn2 = server.client();
    server.run(&mut conn1, &["SET", "unwatch", "initial"]);
    server.run(&mut conn1, &["WATCH", "unwatch"]);
    server.run(&mut conn1, &["UNWATCH"]);
    server.run(&mut conn2, &["SET", "unwatch", "modified_by_conn2"]);
    server.run(&mut conn1, &["MULTI"]);
    server.run(&mut conn1, &["SET", "unwatch", "should_succeed"]);
    let result = texts(&server.run(&mut conn1, &["EXEC"]));
    assert_eq!(result.len(), 1);
    assert_eq!(result[0], "OK");
    assert_eq!(server.run(&mut conn1, &["GET", "unwatch"]), bulk("should_succeed"));
}

#[test]
fn test_watch_multiple_keys() {
    let mut server = TestServer::new();
    let mut conn1 = server.client();
    let mut conn2 = server.client();
    server.run(&mut conn1, &["SET", "watch1", "initial1"]);
    server.run(&mut conn1, &["SET", "watch2", "initial2"]);
    server.run(&mut conn1, &["WATCH", "watch1", "watch2"]);
    server.run(&mut conn2, &["SET", "watch2", "modified"]);
    server.run(&mut conn1, &["MULTI"]);
    server.run(&mut conn1, &["SET", "watch1", "should_fail"]);
    assert_eq!(server.run(&mut conn1, &["EXEC"]), nil());
}

#[test]
fn test_multi_incr() {
    let mut server = TestServer::new();
    let mut conn = server.client();
    server.run(&mut conn, &["SET", "counter", "0"]);
    server.run(&mut conn, &["MULTI"]);
    server.run(&mut conn, &["INCR", "counter"]);
    server.run(&mut conn, &["INCR", "counter"]);
    server.run(&mut conn, &["INCR", "counter"]);
    assert_eq!(ints(&server.run(&mut conn, &["EXEC"])), vec![1, 2, 3]);
    assert_eq!(server.run(&mut conn, &["GET", "counter"]), bulk("3"));
}

#[test]
fn test_multi_hash_operations() {
    let mut server = TestServer::new();
    let mut conn = server.client();
    server.run(&mut conn, &["MULTI"]);
    server.run(&mut conn, &["HSET", "hash", "field1", "value1"]);
    server.run(&mut conn, &["HSET", "hash", "field2", "value2"]);
    server.run(&mut conn, &["HLEN", "hash"]);
    assert_eq!(ints(&server.run(&mut conn, &["EXEC"])), vec![1, 1, 2]);
}

#[test]
fn test_exec_without_multi() {
    let mut server = TestServer::new();
    let mut conn = server.client();
    assert!(matches!(server.query(&mut conn, &["EXEC"]), RespValue::Error(_)));
}

#[test]
fn test_discard_without_multi() {
    let mut server = TestServer::new();
    let mut conn = server.client();
    assert!(matches!(server.query(&mut conn, &["DISCARD"]), RespValue::Error(_)));
}

#[test]
fn test_nested_multi_not_allowed() {
    let mut server = TestServer::new();
    let mut conn = server.client();
    server.run(&mut conn, &["MULTI"]);
    assert!(matches!(server.query(&mut conn, &["MULTI"]), RespValue::Error(_)));
    server.run(&mut conn, &["DISCARD"]);
}
