#![allow(dead_code)]

use feox_server::network::connection::Connection;
use feox_server::protocol::command::executor::CommandExecutor;
use feox_server::protocol::command::hash::MetadataTracker;
use feox_server::protocol::resp::{parse_value, RespValue};
use feox_server::watch_registry::WatchRegistry;
use feoxdb::FeoxStore;
use std::sync::Arc;

/// One store with its WATCH versions and field counts, and the connections
/// opened on it; requests go through a connection as a client would send them.
struct TestServer {
    store: Arc<FeoxStore>,
    watch: WatchRegistry,
    tracker: MetadataTracker,
    clients: usize,
}

impl TestServer {
    fn new() -> TestServer {
        TestServer {
            store: Arc::new(FeoxStore::builder().enable_ttl(true).build().unwrap()),
            watch: WatchRegistry::new(),
            tracker: MetadataTracker::new(0),
            clients: 0,
        }
    }

    fn client(&mut self) -> Connection {
        self.clients += 1;
        Connection::new(self.clients, CommandExecutor::new(Arc::clone(&self.store), None), false, 0)
    }

    /// Sends one request and returns the reply written for it.
    fn query(&mut self, conn: &mut Connection, parts: &[&str]) -> RespValue {
        let mut request = format!("*{}\r\n", parts.len()).into_bytes();
        for p in parts {
            request.extend_from_slice(format!("${}\r\n{}\r\n", p.len(), p).as_bytes());
        }
        conn.process_read(&request, &mut self.watch, &mut self.tracker).expect("a well-formed request");
        let mut written = Vec::new();
        while let Some(data) = conn.pending_writes() {
            let n = data.len();
            written.extend_from_slice(data);
            conn.consume_writes(n);
        }
        match parse_value(&written, 0) {
            Ok(Some((reply, _))) => reply,
            other => panic!("no reply: {:?}", other),
        }
    }

    /// Sends one request whose reply must not be an error.
    fn run(&mut self, conn: &mut Connection, parts: &[&str]) -> RespValue {
        let reply = self.query(conn, parts);
        assert!(!matches!(reply, RespValue::Error(_)), "error reply {:?}", reply);
        reply
    }
}

fn bulk(s: &str) -> RespValue {
    RespValue::BulkString(Some(s.as_bytes().to_vec()))
}

fn nil() -> RespValue {
    RespValue::BulkString(None)
}

fn integer(n: i64) -> RespValue {
    RespValue::Integer(n)
}

fn ok() -> RespValue {
    RespValue::SimpleString(b"OK".to_vec())
}

/// The texts of an array of strings.
fn texts(reply: &RespValue) -> Vec<String> {
    match reply {
        RespValue::Array(Some(items)) => items
            .iter()
            .map(|item| match item {
                RespValue::BulkString(Some(b)) | RespValue::SimpleString(b) => String::from_utf8_lossy(b).to_string(),
                other => panic!("not a bulk string: {:?}", other),
            })
            .collect(),
        other => panic!("not an array: {:?}", other),
    }
}

/// The integers of an array of integers.
fn ints(reply: &RespValue) -> Vec<i64> {
    match reply {
        RespValue::Array(Some(items)) => items
            .iter()
            .map(|item| match item {
                RespValue::Integer(n) => *n,
                other => panic!("not an integer: {:?}", other),
            })
            .collect(),
        other => panic!("not an array: {:?}", other),
    }
}

#[test]
fn test_get_set_basic() {
    let mut server = TestServer::new();
    let mut conn = server.client();
    server.run(&mut conn, &["SET", "test", "hello"]);
    assert_eq!(server.run(&mut conn, &["GET", "test"]), bulk("hello"));
}

#[test]
fn test_get_nonexistent() {
    let mut server = TestServer::new();
    let mut conn = server.client();
    assert_eq!(server.run(&mut conn, &["GET", "nonexistent"]), nil());
}

#[test]
fn test_set_overwrite() {
    let mut server = TestServer::new();
    let mut conn = server.client();
    server.run(&mut conn, &["SET", "overwrite", "first"]);
    server.run(&mut conn, &["SET", "overwrite", "second"]);
    assert_eq!(server.run(&mut conn, &["GET", "overwrite"]), bulk("second"));
}

#[test]
fn test_mget_mset() {
    let mut server = TestServer::new();
    let mut conn = server.client();
    server.run(&mut conn, &["MSET", "mtest1", "value1", "mtest2", "value2", "mtest3", "value3"]);
    let result = server.run(&mut conn, &["MGET", "mtest1", "mtest2", "mtest3"]);
    assert_eq!(texts(&result), vec!["value1", "value2", "value3"]);
}

#[test]
fn test_mget_mixed_exists() {
    let mut server = TestServer::new();
    let mut conn = server.client();
    server.run(&mut conn, &["SET", "exists", "value1"]);
    server.run(&mut conn, &["SET", "exists2", "value3"]);
    let result = server.run(&mut conn, &["MGET", "exists", "nonexist", "exists2"]);
    assert_eq!(result, RespValue::Array(Some(vec![bulk("value1"), nil(), bulk("value3")])));
}

#[test]
fn test_incr() {
    let mut server = TestServer::new();
    let mut conn = server.client();
    assert_eq!(server.run(&mut conn, &["INCRBY", "counter", "1"]), integer(1));
    assert_eq!(server.run(&mut conn, &["INCRBY", "counter", "1"]), integer(2));
    assert_eq!(server.run(&mut conn, &["INCRBY", "counter", "1"]), integer(3));
}

#[test]
fn test_incrby() {
    let mut server = TestServer::new();
    let mut conn = server.client();
    assert_eq!(server.run(&mut conn, &["INCRBY", "counter", "5"]), integer(5));
    assert_eq!(server.run(&mut conn, &["INCRBY", "counter", "10"]), integer(15));
}

#[test]
fn test_decr() {
    let mut server = TestServer::new();
    let mut conn = server.client();
    server.run(&mut conn, &["SET", "counter", "10"]);
    assert_eq!(server.run(&mut conn, &["DECRBY", "counter", "1"]), integer(9));
    assert_eq!(server.run(&mut conn, &["DECRBY", "counter", "1"]), integer(8));
}

#[test]
fn test_decrby() {
    let mut server = TestServer::new();
    let mut conn = server.client();
    server.run(&mut conn, &["SET", "counter", "100"]);
    assert_eq!(server.run(&mut conn, &["DECRBY", "counter", "20"]), integer(80));
    assert_eq!(server.run(&mut conn, &["DECRBY", "counter", "30"]), integer(50));
}

#[test]
fn test_incr_on_non_integer() {
    let mut server = TestServer::new();
    let mut conn = server.client();
    server.run(&mut conn, &["SET", "notint", "notanumber"]);
    assert!(matches!(server.query(&mut conn, &["INCRBY", "notint", "1"]), RespValue::Error(_)));
}

#[test]
fn test_del_single() {
    let mut server = TestServer::new();
    let mut conn = server.client();
    server.run(&mut conn, &["SET", "todelete", "value"]);
    assert_eq!(server.run(&mut conn, &["DEL", "todelete"]), integer(1));
    assert_eq!(server.run(&mut conn, &["GET", "todelete"]), nil());
}

#[test]
fn test_del_multiple() {
    let mut server = TestServer::new();
    let mut conn = server.client();
    server.run(&mut conn, &["SET", "del1", "v1"]);
    server.run(&mut conn, &["SET", "del2", "v2"]);
    server.run(&mut conn, &["SET", "del3", "v3"]);
    assert_eq!(server.run(&mut conn, &["DEL", "del1", "del2", "del3"]), integer(3));
}

#[test]
fn test_exists() {
    let mut server = TestServer::new();
    let mut conn = server.client();
    assert_eq!(server.run(&mut conn, &["EXISTS", "exists"]), integer(0));
    server.run(&mut conn, &["SET", "exists", "value"]);
    assert_eq!(server.run(&mut conn, &["EXISTS", "exists"]), integer(1));
}

#[test]
fn test_exists_multiple() {
    let mut server = TestServer::new();
    let mut conn = server.client();
    server.run(&mut conn, &["SET", "ex1", "v1"]);
    server.run(&mut conn, &["SET", "ex3", "v3"]);
    assert_eq!(server.run(&mut conn, &["EXISTS", "ex1", "ex2", "ex3"]), integer(2));
}

#[test]
fn test_cas_success() {
    let mut server = TestServer::new();
    let mut conn = server.client();
    server.run(&mut conn, &["SET", "cas", "initial"]);
    assert_eq!(server.run(&mut conn, &["CAS", "cas", "initial", "updated"]), ok());
    assert_eq!(server.run(&mut conn, &["GET", "cas"]), bulk("updated"));
}

#[test]
fn test_cas_failure() {
    let mut server = TestServer::new();
    let mut conn = server.client();
    server.run(&mut conn, &["SET", "cas", "initial"]);
    assert!(matches!(server.query(&mut conn, &["CAS", "cas", "wrong", "updated"]), RespValue::Error(_)));
    assert_eq!(server.run(&mut conn, &["GET", "cas"]), bulk("initial"));
}

#[test]
fn test_jsonpatch() {
    let mut server = TestServer::new();
    let mut conn = server.client();
    server.run(&mut conn, &["SET", "json", r#"{"name":"John","age":30}"#]);
    let result = server.run(&mut conn, &["JSONPATCH", "json", r#"[{"op":"replace","path":"/age","value":31}]"#]);
    match result {
        RespValue::BulkString(Some(b)) => assert!(String::from_utf8_lossy(&b).contains("\"age\":31")),
        other => panic!("unexpected {:?}", other),
    }
}

#[test]
fn strings_test_echo() {
    let mut server = TestServer::new();
    let mut conn = server.client();
    assert_eq!(server.run(&mut conn, &["ECHO", "hello world"]), bulk("hello world"));
}

#[test]
fn test_large_value() {
    let mut server = TestServer::new();
    let mut conn = server.client();
    let large_value = "x".repeat(1024 * 1024);
    server.run(&mut conn, &["SET", "large", &large_value]);
    let result = server.run(&mut conn, &["GET", "large"]);
    assert_eq!(result, bulk(&large_value));
}
