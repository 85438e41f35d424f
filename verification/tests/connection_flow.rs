use feox_server::network::connection::{Connection, ReadOutcome};
use feox_server::network::PubSubOp;
use feox_server::protocol::command::executor::CommandExecutor;
use feox_server::protocol::command::hash::MetadataTracker;
use feox_server::protocol::command::Command;
use feox_server::watch_registry::WatchRegistry;
use feoxdb::FeoxStore;
use std::sync::Arc;

fn frame(parts: &[&str]) -> Vec<u8> {
    let mut out = format!("*{}\r\n", parts.len()).into_bytes();
    for p in parts {
        out.extend_from_slice(format!("${}\r\n{}\r\n", p.len(), p).as_bytes());
    }
    out
}

struct Client {
    conn: Connection,
    watch: WatchRegistry,
    tracker: MetadataTracker,
}

impl Client {
    fn new(password: Option<&str>) -> Client {
        let store = Arc::new(FeoxStore::new(None).unwrap());
        let exec = CommandExecutor::new(store, password.map(|p| p.to_string()));
        Client {
            conn: Connection::new(1, exec, password.is_some(), 0),
            watch: WatchRegistry::new(),
            tracker: MetadataTracker::new(0),
        }
    }

    fn send(&mut self, parts: &[&str]) -> (String, ReadOutcome) {
        let outcome = self.conn.process_read(&frame(parts), &mut self.watch, &mut self.tracker).unwrap();
        let mut text = String::new();
        while let Some(data) = self.conn.pending_writes() {
            let n = data.len();
            text.push_str(&String::from_utf8_lossy(data));
            self.conn.consume_writes(n);
        }
        (text, outcome)
    }

    fn reply(&mut self, parts: &[&str]) -> String {
        self.send(parts).0
    }
}

#[test]
fn fast_path_set_and_get() {
    let mut c = Client::new(None);
    assert_eq!(c.reply(&["SET", "k", "value"]), "+OK\r\n");
    assert_eq!(c.reply(&["get", "k"]), "$5\r\nvalue\r\n");
    assert_eq!(c.reply(&["GET", "nope"]), "$-1\r\n");
}

#[test]
fn multi_exec_runs_queued_commands_in_order() {
    let mut c = Client::new(None);
    assert_eq!(c.reply(&["MULTI"]), "+OK\r\n");
    assert_eq!(c.reply(&["SET", "k", "v1"]), "+QUEUED\r\n");
    assert_eq!(c.reply(&["SET", "k", "v2"]), "+QUEUED\r\n");
    assert_eq!(c.reply(&["GET", "k"]), "+QUEUED\r\n");
    assert_eq!(c.reply(&["EXEC"]), "*3\r\n+OK\r\n+OK\r\n$2\r\nv2\r\n");
    assert_eq!(c.reply(&["GET", "k"]), "$2\r\nv2\r\n");
}

#[test]
fn transaction_errors() {
    let mut c = Client::new(None);
    assert_eq!(c.reply(&["EXEC"]), "--ERR EXEC without MULTI\r\n");
    assert_eq!(c.reply(&["DISCARD"]), "--ERR DISCARD without MULTI\r\n");
    assert_eq!(c.reply(&["MULTI"]), "+OK\r\n");
    assert_eq!(c.reply(&["MULTI"]), "--ERR MULTI calls can not be nested\r\n");
    assert_eq!(c.reply(&["WATCH", "k"]), "--ERR WATCH inside MULTI is not allowed\r\n");
    assert_eq!(c.reply(&["EXEC"]), "*0\r\n");
}

#[test]
fn discard_drops_the_queue() {
    let mut c = Client::new(None);
    c.reply(&["SET", "k", "initial"]);
    c.reply(&["MULTI"]);
    c.reply(&["SET", "k", "changed"]);
    assert_eq!(c.reply(&["DISCARD"]), "+OK\r\n");
    assert_eq!(c.reply(&["GET", "k"]), "$7\r\ninitial\r\n");
}

#[test]
fn watched_key_modified_aborts_exec() {
    let mut c = Client::new(None);
    c.reply(&["SET", "k", "initial"]);
    assert_eq!(c.reply(&["WATCH", "k"]), "+OK\r\n");
    c.watch.notify_key_modified(b"k");
    c.reply(&["MULTI"]);
    c.reply(&["SET", "k", "mine"]);
    assert_eq!(c.reply(&["EXEC"]), "$-1\r\n");
    assert_eq!(c.reply(&["GET", "k"]), "$7\r\ninitial\r\n");
}

#[test]
fn watched_key_untouched_lets_exec_run() {
    let mut c = Client::new(None);
    c.reply(&["WATCH", "k"]);
    c.watch.notify_key_modified(b"other");
    c.reply(&["MULTI"]);
    c.reply(&["SET", "k", "mine"]);
    assert_eq!(c.reply(&["EXEC"]), "*1\r\n+OK\r\n");
}

#[test]
fn unwatch_forgets_watched_keys() {
    let mut c = Client::new(None);
    c.reply(&["WATCH", "k"]);
    assert_eq!(c.reply(&["UNWATCH"]), "+OK\r\n");
    c.watch.notify_key_modified(b"k");
    c.reply(&["MULTI"]);
    c.reply(&["SET", "k", "mine"]);
    assert_eq!(c.reply(&["EXEC"]), "*1\r\n+OK\r\n");
}

#[test]
fn authentication_gate() {
    let mut c = Client::new(Some("secret"));
    assert_eq!(c.reply(&["ECHO", "x"]), "--NOAUTH Authentication required.\r\n");
    assert_eq!(c.reply(&["PING"]), "+PONG\r\n");
    assert_eq!(c.reply(&["AUTH", "wrong"]), "--ERR invalid password\r\n");
    assert_eq!(c.reply(&["AUTH", "secret"]), "+OK\r\n");
    assert_eq!(c.reply(&["ECHO", "x"]), "$1\r\nx\r\n");
    let mut open = Client::new(None);
    assert_eq!(open.reply(&["AUTH", "x"]), "--ERR Client sent AUTH, but no password is set\r\n");
}

#[test]
fn quit_closes_the_connection() {
    let mut c = Client::new(None);
    let (text, outcome) = c.send(&["QUIT"]);
    assert_eq!(text, "+OK\r\n");
    assert!(matches!(outcome, ReadOutcome::Quit(_)));
    assert!(c.conn.is_closed());
}

#[test]
fn pubsub_commands_go_to_the_pubsub_layer() {
    let mut c = Client::new(None);
    let (text, outcome) = c.send(&["SUBSCRIBE", "news"]);
    assert_eq!(text, "");
    match outcome {
        ReadOutcome::Done(ops) => assert_eq!(ops, vec![PubSubOp::Subscribe(vec![b"news".to_vec()])]),
        other => panic!("unexpected {:?}", other),
    }
    assert_eq!(c.reply(&["PUBSUB", "bogus"]), "-ERR Unknown PUBSUB subcommand 'bogus'\r\n");
}

#[test]
fn subscribed_connections_only_take_subscription_commands() {
    let mut c = Client::new(None);
    c.conn.set_subscription_count(1);
    assert!(c.conn.is_in_pubsub_mode());
    assert_eq!(
        c.reply(&["ECHO", "x"]),
        "--ERR only (P)SUBSCRIBE / (P)UNSUBSCRIBE / PING / QUIT allowed in this context\r\n"
    );
    assert_eq!(c.conn.flags().to_vec(), vec!["pubsub".to_string()]);
    c.conn.set_subscription_count(0);
    assert!(c.conn.flags().is_empty());
}

#[test]
fn commands_outside_the_library_pause_reading() {
    let mut c = Client::new(None);
    let mut bytes = frame(&["INFO"]);
    bytes.extend_from_slice(&frame(&["PING"]));
    let outcome = c.conn.process_read(&bytes, &mut c.watch, &mut c.tracker).unwrap();
    match outcome {
        ReadOutcome::External(_, Command::Info(None)) => {},
        other => panic!("unexpected {:?}", other),
    }
    c.conn.reply_external(&feox_server::protocol::resp::RespValue::BulkString(Some(b"info".to_vec())));
    let outcome = c.conn.resume(&mut c.watch, &mut c.tracker).unwrap();
    assert!(matches!(outcome, ReadOutcome::Done(_)));
    let data = c.conn.pending_writes().unwrap().to_vec();
    assert_eq!(String::from_utf8(data).unwrap(), "$4\r\ninfo\r\n+PONG\r\n");
}

#[test]
fn client_setname_records_the_name() {
    let mut c = Client::new(None);
    let (_, outcome) = c.send(&["CLIENT", "setname", "worker"]);
    assert!(matches!(outcome, ReadOutcome::External(_, Command::Client { .. })));
    assert_eq!(c.conn.client_name().clone(), Some("worker".to_string()));
}

#[test]
fn protocol_errors_are_reported() {
    let mut c = Client::new(None);
    assert!(c.conn.process_read(b"?\r\n", &mut c.watch, &mut c.tracker).is_err());
    let mut d = Client::new(None);
    assert_eq!(
        d.conn.process_read(&frame(&["NOPE"]), &mut d.watch, &mut d.tracker).unwrap_err(),
        "unknown command 'NOPE'".to_string()
    );
}

#[test]
fn fast_path_waits_for_authentication_and_pubsub_mode() {
    let mut c = Client::new(Some("secret"));
    assert_eq!(c.reply(&["SET", "k", "v"]), "--NOAUTH Authentication required.\r\n");
    assert_eq!(c.reply(&["GET", "k"]), "--NOAUTH Authentication required.\r\n");
    assert_eq!(c.reply(&["AUTH", "secret"]), "+OK\r\n");
    assert_eq!(c.reply(&["SET", "k", "v"]), "+OK\r\n");
    c.conn.set_subscription_count(1);
    assert_eq!(
        c.reply(&["GET", "k"]),
        "--ERR only (P)SUBSCRIBE / (P)UNSUBSCRIBE / PING / QUIT allowed in this context\r\n"
    );
}

#[test]
fn unknown_pubsub_subcommand_is_named_in_the_error() {
    let mut c = Client::new(None);
    let (text, outcome) = c.send(&["PUBSUB", "FOO"]);
    assert_eq!(text, "-ERR Unknown PUBSUB subcommand 'FOO'\r\n");
    assert!(matches!(outcome, ReadOutcome::Done(ref ops) if ops.is_empty()));
    let mut request = frame(&["SUBSCRIBE", "a", "b"]);
    request.extend_from_slice(&frame(&["PUBLISH", "a", "m"]));
    let outcome = c.conn.process_read(&request, &mut c.watch, &mut c.tracker).unwrap();
    assert!(c.conn.pending_writes().is_none());
    match outcome {
        ReadOutcome::Done(ops) => assert_eq!(
            ops,
            vec![
                PubSubOp::Subscribe(vec![b"a".to_vec(), b"b".to_vec()]),
                PubSubOp::Publish { channel: b"a".to_vec(), message: b"m".to_vec() },
            ]
        ),
        other => panic!("unexpected {:?}", other),
    }
}
