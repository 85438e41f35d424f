#![allow(dead_code)]

use feox_server::network::connection::Connection;
use feox_server::protocol::command::executor::CommandExecutor;
use feox_server::protocol::command::hash::MetadataTracker;
use feox_server::protocol::resp::{parse_value, RespValue};
use feox_server::watch_registry::WatchRegistry;
use feoxdb::FeoxStore;
use std::sync::Arc;

/// One store with its WATCH versions and field counts, and the connections
/// opened on it; requests go through a connection as a client would send them.
struct TestServer {
    store: Arc<FeoxStore>,
    watch: WatchRegistry,
    tracker: MetadataTracker,
    clients: usize,
}

impl TestServer {
    fn new() -> TestServer {
        TestServer {
            store: Arc::new(FeoxStore::builder().enable_ttl(true).build().unwrap()),
            watch: WatchRegistry::new(),
            tracker: MetadataTracker::new(0),
            clients: 0,
        }
    }

    fn client(&mut self) -> Connection {
        self.clients += 1;
        Connection::new(self.clients, CommandExecutor::new(Arc::clone(&self.store), None), false, 0)
    }

    /// Sends one request and returns the reply written for it.
    fn query(&mut self, conn: &mut Connection, parts: &[&str]) -> RespValue {
        let mut request = format!("*{}\r\n", parts.len()).into_bytes();
        for p in parts {
            request.extend_from_slice(format!("${}\r\n{}\r\n", p.len(), p).as_bytes());
        }
        conn.process_read(&request, &mut self.watch, &mut self.tracker).expect("a well-formed request");
        let mut written = Vec::new();
        while let Some(data) = conn.pending_writes() {
            let n = data.len();
            written.extend_from_slice(data);
            conn.consume_writes(n);
        }
        match parse_value(&written, 0) {
            Ok(Some((reply, _))) => reply,
            other => panic!("no reply: {:?}", other),
        }
    }

    /// Sends one request whose reply must not be an error.
    fn run(&mut self, conn: &mut Connection, parts: &[&str]) -> RespValue {
        let reply = self.query(conn, parts);
        assert!(!matches!(reply, RespValue::Error(_)), "error reply {:?}", reply);
        reply
    }
}

fn bulk(s: &str) -> RespValue {
    RespValue::BulkString(Some(s.as_bytes().to_vec()))
}

fn nil() -> RespValue {
    RespValue::BulkString(None)
}

fn integer(n: i64) -> RespValue {
    RespValue::Integer(n)
}

fn ok() -> RespValue {
    RespValue::SimpleString(b"OK".to_vec())
}

/// The texts of an array of strings.
fn texts(reply: &RespValue) -> Vec<String> {
    match reply {
        RespValue::Array(Some(items)) => items
            .iter()
            .map(|item| match item {
                RespValue::BulkString(Some(b)) | RespValue::SimpleString(b) => String::from_utf8_lossy(b).to_string(),
                other => panic!("not a bulk string: {:?}", other),
            })
            .collect(),
        other => panic!("not an array: {:?}", other),
    }
}

/// The integers of an array of integers.
fn ints(reply: &RespValue) -> Vec<i64> {
    match reply {
        RespValue::Array(Some(items)) => items
            .iter()
            .map(|item| match item {
                RespValue::Integer(n) => *n,
                other => panic!("not an integer: {:?}", other),
            })
            .collect(),
        other => panic!("not an array: {:?}", other),
    }
}

#[test]
fn test_ping() {
    let mut server = TestServer::new();
    let mut conn = server.client();
    assert_eq!(texts(&RespValue::Array(Some(vec![server.run(&mut conn, &["PING"])]))), vec!["PONG"]);
}

#[test]
fn test_ping_with_message() {
    let mut server = TestServer::new();
    let mut conn = server.client();
    assert_eq!(server.run(&mut conn, &["PING", "hello"]), bulk("hello"));
}

#[test]
fn server_test_echo() {
    let mut server = TestServer::new();
    let mut conn = server.client();
    assert_eq!(server.run(&mut conn, &["ECHO", "test message"]), bulk("test message"));
}

#[test]
fn test_command_docs() {
    let mut server = TestServer::new();
    let mut conn = server.client();
    assert_eq!(server.run(&mut conn, &["COMMAND", "DOCS"]), RespValue::Array(Some(vec![])));
}

#[test]
fn test_config_get() {
    let mut server = TestServer::new();
    let mut conn = server.client();
    let result = texts(&server.run(&mut conn, &["CONFIG", "GET", "maxmemory"]));
    assert_eq!(result.len(), 2);
    assert_eq!(result[0], "maxmemory");
}

#[test]
fn test_quit() {
    let mut server = TestServer::new();
    let mut conn = server.client();
    server.run(&mut conn, &["SET", "test", "value"]);
    assert_eq!(server.run(&mut conn, &["QUIT"]), ok());
}

#[test]
fn test_multiple_clients() {
    let mut server = TestServer::new();
    let mut conn1 = server.client();
    let mut conn2 = server.client();
    let mut conn3 = server.client();
    server.run(&mut conn1, &["SET", "multi", "value1"]);
    assert_eq!(server.run(&mut conn2, &["GET", "multi"]), bulk("value1"));
    server.run(&mut conn3, &["SET", "multi", "value2"]);
    assert_eq!(server.run(&mut conn1, &["GET", "multi"]), bulk("value2"));
}

fn figures() -> feox_server::server::InfoFigures {
    feox_server::server::InfoFigures {
        version: "0.1.0".to_string(),
        arch_bits: 64,
        process_id: 4242,
        uptime_seconds: 12,
        used_memory: 2048,
        used_memory_human: "2.0K".to_string(),
        cache_memory: 0,
        cache_memory_human: "0B".to_string(),
        commands_processed: 3,
        total_operations: 5,
        total_gets: 2,
        total_inserts: 3,
        keyspace_hits: 1,
        keyspace_misses: 1,
        cache_hit_rate: "50.00".to_string(),
        keys: 3,
    }
}

/// INFO through a connection: the library hands it to the server, which
/// answers with the report the library lays out.
fn info(server: &mut TestServer, conn: &mut Connection, parts: &[&str]) -> String {
    let mut request = format!("*{}\r\n", parts.len()).into_bytes();
    for p in parts {
        request.extend_from_slice(format!("${}\r\n{}\r\n", p.len(), p).as_bytes());
    }
    match conn.process_read(&request, &mut server.watch, &mut server.tracker).unwrap() {
        feox_server::network::connection::ReadOutcome::External(_, feox_server::protocol::command::Command::Info(section)) => {
            feox_server::server::info_report(&section, &figures())
        },
        other => panic!("unexpected {:?}", other),
    }
}

#[test]
fn test_info() {
    let mut server = TestServer::new();
    let mut conn = server.client();
    let text = info(&mut server, &mut conn, &["INFO"]);
    assert!(text.contains("redis_version"));
    assert!(text.contains("feox"));
}

#[test]
fn test_info_server() {
    let mut server = TestServer::new();
    let mut conn = server.client();
    let text = info(&mut server, &mut conn, &["INFO", "server"]);
    assert!(text.contains("redis_version"));
    assert!(!text.contains("# Memory"));
}

#[test]
fn test_info_contains_expected_fields() {
    let mut server = TestServer::new();
    let mut conn = server.client();
    let text = info(&mut server, &mut conn, &["INFO"]);
    assert!(text.contains("redis_version"));
    assert!(text.contains("arch_bits"));
    assert!(text.contains("process_id"));
    assert!(text.contains("tcp_port"));
    assert!(text.contains("uptime_in_seconds"));
}

#[test]
fn info_report_lays_out_the_figures() {
    let text = feox_server::server::info_report(&Some("KEYspace".to_string()), &figures());
    assert_eq!(text, "# Keyspace\r\ndb0:keys=3,expires=0,avg_ttl=0\r\n");
    let text = feox_server::server::info_report(&Some("memory".to_string()), &figures());
    assert_eq!(
        text,
        "# Memory\r\nused_memory:2048\r\nused_memory_human:2.0K\r\nused_memory_cache:0\r\nused_memory_cache_human:0B\r\n"
    );
    assert_eq!(feox_server::server::info_report(&Some("nothing".to_string()), &figures()), "");
}
