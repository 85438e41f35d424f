use feox_server::protocol::command::executor::CommandExecutor;
use feox_server::protocol::command::hash::MetadataTracker;
use feox_server::protocol::command::Command;
use feox_server::protocol::resp::RespValue;
use feox_server::watch_registry::WatchRegistry;
use feoxdb::FeoxStore;
use std::sync::Arc;

struct Env {
    exec: CommandExecutor,
    watch: WatchRegistry,
    tracker: MetadataTracker,
}

impl Env {
    fn new() -> Env {
        let store = Arc::new(FeoxStore::builder().enable_ttl(true).build().unwrap());
        Env { exec: CommandExecutor::new(store, None), watch: WatchRegistry::new(), tracker: MetadataTracker::new(0) }
    }

    fn run(&mut self, c: Command) -> RespValue {
        self.exec.execute(c, &mut self.watch, &mut self.tracker).expect("answered by the library")
    }
}

fn b(s: &str) -> Vec<u8> {
    s.as_bytes().to_vec()
}

fn bulk(s: &str) -> RespValue {
    RespValue::BulkString(Some(b(s)))
}

fn ok() -> RespValue {
    RespValue::SimpleString(b("OK"))
}

#[test]
fn set_then_get() {
    let mut env = Env::new();
    assert_eq!(env.run(Command::SetValue { key: b("k"), value: b("v"), ex: None, px: None }), ok());
    assert_eq!(env.run(Command::Get(b("k"))), bulk("v"));
    assert_eq!(env.run(Command::Get(b("missing"))), RespValue::BulkString(None));
}

#[test]
fn writes_bump_key_versions() {
    let mut env = Env::new();
    let before = env.watch.get_key_version(b"k");
    env.run(Command::SetValue { key: b("k"), value: b("v"), ex: None, px: None });
    let after_set = env.watch.get_key_version(b"k");
    assert!(after_set != before);
    env.run(Command::Get(b("k")));
    assert_eq!(env.watch.get_key_version(b"k"), after_set);
    env.run(Command::Del(vec![b("k")]));
    assert!(env.watch.get_key_version(b"k") != after_set);
}

#[test]
fn del_and_exists_count_keys() {
    let mut env = Env::new();
    env.run(Command::MSet(vec![(b("a"), b("1")), (b("b"), b("2"))]));
    assert_eq!(env.run(Command::Exists(vec![b("a"), b("b"), b("c")])), RespValue::Integer(2));
    assert_eq!(env.run(Command::Del(vec![b("a"), b("c")])), RespValue::Integer(1));
    assert_eq!(
        env.run(Command::MGet(vec![b("a"), b("b")])),
        RespValue::Array(Some(vec![RespValue::BulkString(None), bulk("2")]))
    );
}

#[test]
fn counters() {
    let mut env = Env::new();
    assert_eq!(env.run(Command::Incr(b("n"))), RespValue::Integer(1));
    assert_eq!(env.run(Command::IncrBy { key: b("n"), delta: 10 }), RespValue::Integer(11));
    assert_eq!(env.run(Command::Decr(b("n"))), RespValue::Integer(10));
    assert_eq!(env.run(Command::DecrBy { key: b("n"), delta: 4 }), RespValue::Integer(6));
    env.run(Command::SetValue { key: b("s"), value: b(" 41 "), ex: None, px: None });
    assert_eq!(env.run(Command::Incr(b("s"))), RespValue::Integer(42));
    assert_eq!(env.run(Command::Get(b("s"))), bulk("42"));
    env.run(Command::SetValue { key: b("t"), value: b("text"), ex: None, px: None });
    assert_eq!(
        env.run(Command::Incr(b("t"))),
        RespValue::Error("ERR value is not an integer or out of range".to_string())
    );
}

#[test]
fn expiry_commands() {
    let mut env = Env::new();
    assert_eq!(env.run(Command::Ttl(b("nope"))), RespValue::Integer(-2));
    assert_eq!(env.run(Command::Expire { key: b("nope"), seconds: 5 }), RespValue::Integer(0));
    env.run(Command::SetValue { key: b("k"), value: b("v"), ex: None, px: None });
    assert_eq!(env.run(Command::Ttl(b("k"))), RespValue::Integer(-1));
    assert_eq!(env.run(Command::Expire { key: b("k"), seconds: 100 }), RespValue::Integer(1));
    match env.run(Command::Ttl(b("k"))) {
        RespValue::Integer(t) => assert!(t > 90 && t <= 100),
        other => panic!("unexpected {:?}", other),
    }
    match env.run(Command::PTtl(b("k"))) {
        RespValue::Integer(t) => assert!(t > 90_000 && t <= 100_000 && t % 1000 == 0),
        other => panic!("unexpected {:?}", other),
    }
    assert_eq!(env.run(Command::Persist(b("k"))), RespValue::Integer(1));
    assert_eq!(env.run(Command::Ttl(b("k"))), RespValue::Integer(-1));
}

#[test]
fn hashes() {
    let mut env = Env::new();
    assert_eq!(
        env.run(Command::HSet { key: b("h"), fields: vec![(b("f1"), b("v1")), (b("f2"), b("v2"))] }),
        RespValue::Integer(2)
    );
    assert_eq!(env.run(Command::HSet { key: b("h"), fields: vec![(b("f1"), b("new"))] }), RespValue::Integer(0));
    assert_eq!(env.run(Command::HGet { key: b("h"), field: b("f1") }), bulk("new"));
    assert_eq!(env.run(Command::HGet { key: b("h"), field: b("zz") }), RespValue::BulkString(None));
    assert_eq!(env.run(Command::HLen(b("h"))), RespValue::Integer(2));
    assert_eq!(env.run(Command::HExists { key: b("h"), field: b("f2") }), RespValue::Integer(1));
    assert_eq!(env.run(Command::HKeys(b("h"))), RespValue::Array(Some(vec![bulk("f1"), bulk("f2")])));
    assert_eq!(env.run(Command::HVals(b("h"))), RespValue::Array(Some(vec![bulk("new"), bulk("v2")])));
    assert_eq!(
        env.run(Command::HGetAll(b("h"))),
        RespValue::Array(Some(vec![bulk("f1"), bulk("new"), bulk("f2"), bulk("v2")]))
    );
    assert_eq!(
        env.run(Command::HMGet { key: b("h"), fields: vec![b("f2"), b("x")] }),
        RespValue::Array(Some(vec![bulk("v2"), RespValue::BulkString(None)]))
    );
    assert_eq!(env.run(Command::HDel { key: b("h"), fields: vec![b("f2"), b("x")] }), RespValue::Integer(1));
    assert_eq!(env.run(Command::HLen(b("h"))), RespValue::Integer(1));
    assert_eq!(env.run(Command::HIncrBy { key: b("h"), field: b("c"), delta: 5 }), RespValue::Integer(5));
    assert_eq!(env.run(Command::HIncrBy { key: b("h"), field: b("c"), delta: -7 }), RespValue::Integer(-2));
    assert_eq!(env.run(Command::HLen(b("h"))), RespValue::Integer(2));
    assert_eq!(
        env.run(Command::HIncrBy { key: b("h"), field: b("f1"), delta: 1 }),
        RespValue::Error("ERR hash value is not an integer".to_string())
    );
}

#[test]
fn keys_and_scan() {
    let mut env = Env::new();
    env.run(Command::MSet(vec![(b("user:1"), b("a")), (b("user:2"), b("b")), (b("item:1"), b("c"))]));
    assert_eq!(
        env.run(Command::Keys("user:*".to_string())),
        RespValue::Array(Some(vec![bulk("user:1"), bulk("user:2")]))
    );
    assert_eq!(env.run(Command::Keys("item:1".to_string())), RespValue::Array(Some(vec![bulk("item:1")])));
    assert_eq!(env.run(Command::Keys("none".to_string())), RespValue::Array(Some(vec![])));
    assert_eq!(
        env.run(Command::Scan { cursor: b("0"), count: 10, pattern: Some("user:*".to_string()) }),
        RespValue::Array(Some(vec![bulk("0"), RespValue::Array(Some(vec![bulk("user:1"), bulk("user:2")]))]))
    );
    assert_eq!(
        env.run(Command::Scan { cursor: b("0"), count: 1, pattern: None }),
        RespValue::Array(Some(vec![bulk("user:1"), RespValue::Array(Some(vec![bulk("item:1")]))]))
    );
}

#[test]
fn store_free_commands() {
    let mut env = Env::new();
    assert_eq!(env.run(Command::Ping(None)), RespValue::SimpleString(b("PONG")));
    assert_eq!(env.run(Command::Ping(Some(b("x")))), bulk("x"));
    assert_eq!(env.run(Command::Echo(b("e"))), bulk("e"));
    assert_eq!(env.run(Command::Quit), ok());
    assert_eq!(
        env.run(Command::FlushDb),
        RespValue::Error("ERR FLUSHDB requires server restart. For persistent mode, also delete data files.".to_string())
    );
    assert_eq!(
        env.run(Command::Config { action: "get".to_string(), args: vec![b("maxclients"), b("other")] }),
        RespValue::Array(Some(vec![bulk("maxclients"), bulk("10000"), bulk("other"), bulk("0")]))
    );
    assert_eq!(env.run(Command::Config { action: "set".to_string(), args: vec![] }), ok());
    assert_eq!(
        env.run(Command::Config { action: "rewrite".to_string(), args: vec![] }),
        RespValue::Error("ERR Unknown CONFIG subcommand 'rewrite'".to_string())
    );
    assert_eq!(
        env.run(Command::Auth(b("pw"))),
        RespValue::Error("-ERR Client sent AUTH, but no password is set".to_string())
    );
    assert_eq!(
        env.run(Command::Multi),
        RespValue::Error("-ERR Transaction commands should be handled in connection layer".to_string())
    );
}

#[test]
fn compare_and_swap() {
    let mut env = Env::new();
    env.run(Command::SetValue { key: b("c"), value: b("v1"), ex: None, px: None });
    assert_eq!(env.run(Command::Cas { key: b("c"), expected: b("v1"), new_value: b("v2") }), ok());
    assert!(matches!(
        env.run(Command::Cas { key: b("c"), expected: b("v1"), new_value: b("v3") }),
        RespValue::Error(_)
    ));
    assert_eq!(env.run(Command::Get(b("c"))), bulk("v2"));
}

#[test]
fn commands_left_to_the_caller() {
    let mut env = Env::new();
    let store_free = CommandExecutor::new(Arc::new(FeoxStore::new(None).unwrap()), Some("pw".to_string()));
    assert!(store_free.check_auth("pw"));
    assert!(!store_free.check_auth("nope"));
    assert!(env.exec.execute(Command::Info(None), &mut env.watch, &mut env.tracker).is_none());
    assert!(env
        .exec
        .execute(Command::LPush { key: b("l"), values: vec![b("x")] }, &mut env.watch, &mut env.tracker)
        .is_none());
}

#[test]
fn command_subcommands_without_the_table() {
    let mut env = Env::new();
    assert_eq!(
        env.run(Command::Command { subcommand: Some("docs".to_string()), args: vec![] }),
        RespValue::Array(Some(vec![]))
    );
    assert_eq!(
        env.run(Command::Command { subcommand: Some("HELP".to_string()), args: vec![] }),
        RespValue::Array(Some(vec![
            bulk("COMMAND"),
            bulk("COMMAND COUNT"),
            bulk("COMMAND INFO <command-name> [<command-name> ...]"),
            bulk("COMMAND LIST"),
            bulk("COMMAND DOCS [<command-name> ...]"),
        ]))
    );
    assert_eq!(
        env.run(Command::Command { subcommand: Some("bogus".to_string()), args: vec![] }),
        RespValue::Error("ERR Unknown subcommand 'bogus'. Try COMMAND HELP.".to_string())
    );
    for sub in [None, Some("count".to_string()), Some("INFO".to_string()), Some("List".to_string())] {
        assert!(env
            .exec
            .execute(Command::Command { subcommand: sub, args: vec![] }, &mut env.watch, &mut env.tracker)
            .is_none());
    }
}

#[test]
fn json_patch_answers_with_the_patched_document() {
    let mut env = Env::new();
    env.run(Command::SetValue { key: b("j"), value: b(r#"{"name":"John","age":30}"#), ex: None, px: None });
    let reply = env.run(Command::JsonPatch { key: b("j"), patch: b(r#"[{"op":"replace","path":"/age","value":31}]"#) });
    match reply {
        RespValue::BulkString(Some(doc)) => assert!(String::from_utf8(doc).unwrap().contains("\"age\":31")),
        other => panic!("unexpected reply {:?}", other),
    }
}

#[test]
fn del_counts_each_key_once() {
    let mut env = Env::new();
    env.run(Command::SetValue { key: b("d1"), value: b("x"), ex: None, px: None });
    env.run(Command::SetValue { key: b("d2"), value: b("x"), ex: None, px: None });
    assert_eq!(env.run(Command::Del(vec![b("d1"), b("d1"), b("d2"), b("none")])), RespValue::Integer(2));
}

#[test]
fn incr_on_text_that_is_no_number() {
    let mut env = Env::new();
    env.run(Command::SetValue { key: b("n"), value: b("notanumber"), ex: None, px: None });
    assert_eq!(
        env.run(Command::Incr(b("n"))),
        RespValue::Error("ERR value is not an integer or out of range".to_string())
    );
    assert_eq!(env.run(Command::Get(b("n"))), bulk("notanumber"));
}

#[test]
fn exists_counts_repeated_keys_each_time() {
    let mut env = Env::new();
    env.run(Command::SetValue { key: b("ex1"), value: b("1"), ex: None, px: None });
    env.run(Command::SetValue { key: b("ex3"), value: b("3"), ex: None, px: None });
    assert_eq!(env.run(Command::Exists(vec![b("ex1"), b("ex2"), b("ex3")])), RespValue::Integer(2));
    assert_eq!(env.run(Command::Exists(vec![b("ex1"), b("ex1"), b("ex2")])), RespValue::Integer(2));
    assert_eq!(env.run(Command::Exists(vec![])), RespValue::Integer(0));
}

#[test]
fn hash_counts_follow_what_the_store_did() {
    let mut env = Env::new();
    assert_eq!(
        env.run(Command::HSet {
            key: b("h"),
            fields: vec![(b("field1"), b("v1")), (b("field2"), b("v2")), (b("field3"), b("v3"))]
        }),
        RespValue::Integer(3)
    );
    assert_eq!(env.run(Command::HDel { key: b("h"), fields: vec![] }), RespValue::Integer(0));
    assert_eq!(env.run(Command::HLen(b("h"))), RespValue::Integer(3));
    assert_eq!(
        env.run(Command::HDel { key: b("h"), fields: vec![b("field1"), b("field3"), b("field1"), b("nope")] }),
        RespValue::Integer(2)
    );
    assert_eq!(env.run(Command::HLen(b("h"))), RespValue::Integer(1));
    assert_eq!(env.run(Command::HExists { key: b("h"), field: b("field1") }), RespValue::Integer(0));
    assert_eq!(env.run(Command::HExists { key: b("h"), field: b("field2") }), RespValue::Integer(1));
}

#[test]
fn hincrby_writes_the_sum_back_as_text() {
    let mut env = Env::new();
    env.run(Command::HSet { key: b("u"), fields: vec![(b("age"), b("30")), (b("bad"), b("notanumber"))] });
    assert_eq!(env.run(Command::HIncrBy { key: b("u"), field: b("age"), delta: 1 }), RespValue::Integer(31));
    assert_eq!(env.run(Command::HGet { key: b("u"), field: b("age") }), bulk("31"));
    assert_eq!(
        env.run(Command::HIncrBy { key: b("u"), field: b("bad"), delta: 1 }),
        RespValue::Error("ERR hash value is not an integer".to_string())
    );
    assert_eq!(env.run(Command::HGet { key: b("u"), field: b("bad") }), bulk("notanumber"));
    assert_eq!(env.run(Command::HLen(b("u"))), RespValue::Integer(2));
}
