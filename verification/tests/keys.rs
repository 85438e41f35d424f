#![allow(dead_code)]

use feox_server::network::connection::Connection;
use feox_server::protocol::command::executor::CommandExecutor;
use feox_server::protocol::command::hash::MetadataTracker;
use feox_server::protocol::resp::{parse_value, RespValue};
use feox_server::watch_registry::WatchRegistry;
use feoxdb::FeoxStore;
use std::sync::Arc;

/// One store with its WATCH versions and field counts, and the connections
/// opened on it; requests go through a connection as a client would send them.
struct TestServer {
    store: Arc<FeoxStore>,
    watch: WatchRegistry,
    tracker: MetadataTracker,
    clients: usize,
}

impl TestServer {
    fn new() -> TestServer {
        TestServer {
            store: Arc::new(FeoxStore::builder().enable_ttl(true).build().unwrap()),
            watch: WatchRegistry::new(),
            tracker: MetadataTracker::new(0),
            clients: 0,
        }
    }

    fn client(&mut self) -> Connection {
        self.clients += 1;
        Connection::new(self.clients, CommandExecutor::new(Arc::clone(&self.store), None), false, 0)
    }

    /// Sends one request and returns the reply written for it.
    fn query(&mut self, conn: &mut Connection, parts: &[&str]) -> RespValue {
        let mut request = format!("*{}\r\n", parts.len()).into_bytes();
        for p in parts {
            request.extend_from_slice(format!("${}\r\n{}\r\n", p.len(), p).as_bytes());
        }
        conn.process_read(&request, &mut self.watch, &mut self.tracker).expect("a well-formed request");
        let mut written = Vec::new();
        while let Some(data) = conn.pending_writes() {
            let n = data.len();
            written.extend_from_slice(data);
            conn.consume_writes(n);
        }
        match parse_value(&written, 0) {
            Ok(Some((reply, _))) => reply,
            other => panic!("no reply: {:?}", other),
        }
    }

    /// Sends one request whose reply must not be an error.
    fn run(&mut self, conn: &mut Connection, parts: &[&str]) -> RespValue {
        let reply = self.query(conn, parts);
        assert!(!matches!(reply, RespValue::Error(_)), "error reply {:?}", reply);
        reply
    }
}

fn bulk(s: &str) -> RespValue {
    RespValue::BulkString(Some(s.as_bytes().to_vec()))
}

fn nil() -> RespValue {
    RespValue::BulkString(None)
}

fn integer(n: i64) -> RespValue {
    RespValue::Integer(n)
}

fn ok() -> RespValue {
    RespValue::SimpleString(b"OK".to_vec())
}

/// The texts of an array of strings.
fn texts(reply: &RespValue) -> Vec<String> {
    match reply {
        RespValue::Array(Some(items)) => items
            .iter()
            .map(|item| match item {
                RespValue::BulkString(Some(b)) | RespValue::SimpleString(b) => String::from_utf8_lossy(b).to_string(),
                other => panic!("not a bulk string: {:?}", other),
            })
            .collect(),
        other => panic!("not an array: {:?}", other),
    }
}

/// The integers of an array of integers.
fn ints(reply: &RespValue) -> Vec<i64> {
    match reply {
        RespValue::Array(Some(items)) => items
            .iter()
            .map(|item| match item {
                RespValue::Integer(n) => *n,
                other => panic!("not an integer: {:?}", other),
            })
            .collect(),
        other => panic!("not an array: {:?}", other),
    }
}

fn ttl_of(reply: RespValue) -> i64 {
    match reply {
        RespValue::Integer(n) => n,
        other => panic!("not an integer: {:?}", other),
    }
}

#[test]
fn test_expire_ttl() {
    let mut server = TestServer::new();
    let mut conn = server.client();
    server.run(&mut conn, &["SET", "expire", "value"]);
    assert_eq!(server.run(&mut conn, &["EXPIRE", "expire", "10"]), integer(1));
    let ttl = ttl_of(server.run(&mut conn, &["TTL", "expire"]));
    assert!(ttl > 0 && ttl <= 10);
}

#[test]
fn test_pexpire_pttl() {
    let mut server = TestServer::new();
    let mut conn = server.client();
    server.run(&mut conn, &["SET", "pexpire", "value"]);
    assert_eq!(server.run(&mut conn, &["PEXPIRE", "pexpire", "10000"]), integer(1));
    let pttl = ttl_of(server.run(&mut conn, &["PTTL", "pexpire"]));
    assert!(pttl > 0 && pttl <= 10000);
}

#[test]
fn test_ttl_nonexistent() {
    let mut server = TestServer::new();
    let mut conn = server.client();
    assert_eq!(server.run(&mut conn, &["TTL", "nonexistent"]), integer(-2));
}

#[test]
fn test_ttl_no_expiry() {
    let mut server = TestServer::new();
    let mut conn = server.client();
    server.run(&mut conn, &["SET", "noexpiry", "value"]);
    assert_eq!(server.run(&mut conn, &["TTL", "noexpiry"]), integer(-1));
}

#[test]
fn test_persist() {
    let mut server = TestServer::new();
    let mut conn = server.client();
    server.run(&mut conn, &["SET", "persist", "value"]);
    server.run(&mut conn, &["EXPIRE", "persist", "10"]);
    assert!(ttl_of(server.run(&mut conn, &["TTL", "persist"])) > 0);
    assert_eq!(server.run(&mut conn, &["PERSIST", "persist"]), integer(1));
    assert_eq!(server.run(&mut conn, &["TTL", "persist"]), integer(-1));
}

#[test]
fn test_persist_nonexistent() {
    let mut server = TestServer::new();
    let mut conn = server.client();
    assert_eq!(server.run(&mut conn, &["PERSIST", "nonexistent"]), integer(0));
}

#[test]
fn test_expire_actually_expires() {
    let mut server = TestServer::new();
    let mut conn = server.client();
    server.run(&mut conn, &["SET", "toexpire", "value"]);
    server.run(&mut conn, &["EXPIRE", "toexpire", "1"]);
    assert_eq!(server.run(&mut conn, &["GET", "toexpire"]), bulk("value"));
    let start = std::time::Instant::now();
    while start.elapsed() < std::time::Duration::from_millis(1100) {}
    assert_eq!(server.run(&mut conn, &["GET", "toexpire"]), nil());
}

#[test]
fn test_keys_pattern_all() {
    let mut server = TestServer::new();
    let mut conn = server.client();
    server.run(&mut conn, &["SET", "keystest_1", "v1"]);
    server.run(&mut conn, &["SET", "keystest_2", "v2"]);
    server.run(&mut conn, &["SET", "keystest_3", "v3"]);
    let mut keys = texts(&server.run(&mut conn, &["KEYS", "keystest_*"]));
    keys.sort();
    assert_eq!(keys.len(), 3);
    assert!(keys.contains(&"keystest_1".to_string()));
    assert!(keys.contains(&"keystest_2".to_string()));
    assert!(keys.contains(&"keystest_3".to_string()));
}

#[test]
fn test_keys_pattern_specific() {
    let mut server = TestServer::new();
    let mut conn = server.client();
    server.run(&mut conn, &["SET", "pattern_abc", "v1"]);
    server.run(&mut conn, &["SET", "pattern_def", "v2"]);
    server.run(&mut conn, &["SET", "pattern_xyz", "v3"]);
    let keys = texts(&server.run(&mut conn, &["KEYS", "pattern_a*"]));
    assert_eq!(keys.len(), 1);
    assert_eq!(keys[0], "pattern_abc");
}

#[test]
fn test_scan() {
    let mut server = TestServer::new();
    let mut conn = server.client();
    for i in 0..10 {
        let key = format!("scan_{}", i);
        let value = format!("value{}", i);
        server.run(&mut conn, &["SET", &key, &value]);
    }
    match server.run(&mut conn, &["SCAN", "0", "MATCH", "scan_*", "COUNT", "100"]) {
        RespValue::Array(Some(parts)) => {
            assert_eq!(parts[0], bulk("0"));
            assert_eq!(texts(&parts[1]).len(), 10);
        },
        other => panic!("unexpected {:?}", other),
    }
}

#[test]
fn test_del_with_ttl() {
    let mut server = TestServer::new();
    let mut conn = server.client();
    server.run(&mut conn, &["SET", "delttl", "value"]);
    server.run(&mut conn, &["EXPIRE", "delttl", "10"]);
    assert_eq!(server.run(&mut conn, &["DEL", "delttl"]), integer(1));
    assert_eq!(server.run(&mut conn, &["EXISTS", "delttl"]), integer(0));
}

#[test]
fn test_overwrite_removes_ttl() {
    let mut server = TestServer::new();
    let mut conn = server.client();
    server.run(&mut conn, &["SET", "overwrite", "value1"]);
    server.run(&mut conn, &["EXPIRE", "overwrite", "10"]);
    assert!(ttl_of(server.run(&mut conn, &["TTL", "overwrite"])) > 0);
    server.run(&mut conn, &["SET", "overwrite", "value2"]);
    assert_eq!(server.run(&mut conn, &["TTL", "overwrite"]), integer(-1));
}
