pub mod glob;
pub mod parser;
pub mod hash;
pub mod executor;

use crate::network::{PubSubOp, PubSubOpView};
use crate::protocol::resp::RespValue;
use crate::text::{text_eq, to_upper_text, upper_text};
use vstd::prelude::*;

verus! {

pub open spec fn bytes_list(v: Seq<Vec<u8>>) -> Seq<Seq<u8>> {
    v.map_values(|x: Vec<u8>| x@)
}

pub open spec fn pair_list(v: Seq<(Vec<u8>, Vec<u8>)>) -> Seq<(Seq<u8>, Seq<u8>)> {
    v.map_values(|x: (Vec<u8>, Vec<u8>)| (x.0@, x.1@))
}

pub open spec fn opt_text(o: Option<String>) -> Option<Seq<char>> {
    match o {
        Some(s) => Some(s@),
        None => None,
    }
}

pub open spec fn opt_bytes(o: Option<Vec<u8>>) -> Option<Seq<u8>> {
    match o {
        Some(s) => Some(s@),
        None => None,
    }
}

pub open spec fn opt_bytes_list(o: Option<Vec<Vec<u8>>>) -> Option<Seq<Seq<u8>>> {
    match o {
        Some(s) => Some(bytes_list(s@)),
        None => None,
    }
}

/// A parsed client command.
#[derive(Debug, Clone, PartialEq, Eq)]
pub enum Command {
    Get(Vec<u8>),
    SetValue { key: Vec<u8>, value: Vec<u8>, ex: Option<u64>, px: Option<u64> },
    Del(Vec<Vec<u8>>),
    Exists(Vec<Vec<u8>>),
    Incr(Vec<u8>),
    IncrBy { key: Vec<u8>, delta: i64 },
    Decr(Vec<u8>),
    DecrBy { key: Vec<u8>, delta: i64 },
    Expire { key: Vec<u8>, seconds: u64 },
    PExpire { key: Vec<u8>, milliseconds: u64 },
    Ttl(Vec<u8>),
    PTtl(Vec<u8>),
    Persist(Vec<u8>),
    MGet(Vec<Vec<u8>>),
    MSet(Vec<(Vec<u8>, Vec<u8>)>),
    Ping(Option<Vec<u8>>),
    Echo(Vec<u8>),
    Info(Option<String>),
    Config { action: String, args: Vec<Vec<u8>> },
    Command { subcommand: Option<String>, args: Vec<Vec<u8>> },
    Quit,
    FlushDb,
    Keys(String),
    Scan { cursor: Vec<u8>, count: usize, pattern: Option<String> },
    JsonPatch { key: Vec<u8>, patch: Vec<u8> },
    Cas { key: Vec<u8>, expected: Vec<u8>, new_value: Vec<u8> },
    Auth(Vec<u8>),
    LPush { key: Vec<u8>, values: Vec<Vec<u8>> },
    RPush { key: Vec<u8>, values: Vec<Vec<u8>> },
    LPop { key: Vec<u8>, count: Option<usize> },
    RPop { key: Vec<u8>, count: Option<usize> },
    LLen(Vec<u8>),
    LRange { key: Vec<u8>, start: i64, stop: i64 },
    LIndex { key: Vec<u8>, index: i64 },
    Subscribe(Vec<Vec<u8>>),
    Unsubscribe(Option<Vec<Vec<u8>>>),
    PSubscribe(Vec<Vec<u8>>),
    PUnsubscribe(Option<Vec<Vec<u8>>>),
    Publish { channel: Vec<u8>, message: Vec<u8> },
    PubSub { subcommand: String, args: Vec<Vec<u8>> },
    Client { subcommand: String, args: Vec<Vec<u8>> },
    Multi,
    Exec,
    Discard,
    Watch(Vec<Vec<u8>>),
    Unwatch,
    HSet { key: Vec<u8>, fields: Vec<(Vec<u8>, Vec<u8>)> },
    HGet { key: Vec<u8>, field: Vec<u8> },
    HMGet { key: Vec<u8>, fields: Vec<Vec<u8>> },
    HDel { key: Vec<u8>, fields: Vec<Vec<u8>> },
    HExists { key: Vec<u8>, field: Vec<u8> },
    HGetAll(Vec<u8>),
    HLen(Vec<u8>),
    HKeys(Vec<u8>),
    HVals(Vec<u8>),
    HIncrBy { key: Vec<u8>, field: Vec<u8>, delta: i64 },
}

/// A command with its byte strings and texts as sequences.
pub enum CommandView {
    Get(Seq<u8>),
    SetValue { key: Seq<u8>, value: Seq<u8>, ex: Option<u64>, px: Option<u64> },
    Del(Seq<Seq<u8>>),
    Exists(Seq<Seq<u8>>),
    Incr(Seq<u8>),
    IncrBy { key: Seq<u8>, delta: i64 },
    Decr(Seq<u8>),
    DecrBy { key: Seq<u8>, delta: i64 },
    Expire { key: Seq<u8>, seconds: u64 },
    PExpire { key: Seq<u8>, milliseconds: u64 },
    Ttl(Seq<u8>),
    PTtl(Seq<u8>),
    Persist(Seq<u8>),
    MGet(Seq<Seq<u8>>),
    MSet(Seq<(Seq<u8>, Seq<u8>)>),
    Ping(Option<Seq<u8>>),
    Echo(Seq<u8>),
    Info(Option<Seq<char>>),
    Config { action: Seq<char>, args: Seq<Seq<u8>> },
    Command { subcommand: Option<Seq<char>>, args: Seq<Seq<u8>> },
    Quit,
    FlushDb,
    Keys(Seq<char>),
    Scan { cursor: Seq<u8>, count: usize, pattern: Option<Seq<char>> },
    JsonPatch { key: Seq<u8>, patch: Seq<u8> },
    Cas { key: Seq<u8>, expected: Seq<u8>, new_value: Seq<u8> },
    Auth(Seq<u8>),
    LPush { key: Seq<u8>, values: Seq<Seq<u8>> },
    RPush { key: Seq<u8>, values: Seq<Seq<u8>> },
    LPop { key: Seq<u8>, count: Option<usize> },
    RPop { key: Seq<u8>, count: Option<usize> },
    LLen(Seq<u8>),
    LRange { key: Seq<u8>, start: i64, stop: i64 },
    LIndex { key: Seq<u8>, index: i64 },
    Subscribe(Seq<Seq<u8>>),
    Unsubscribe(Option<Seq<Seq<u8>>>),
    PSubscribe(Seq<Seq<u8>>),
    PUnsubscribe(Option<Seq<Seq<u8>>>),
    Publish { channel: Seq<u8>, message: Seq<u8> },
    PubSub { subcommand: Seq<char>, args: Seq<Seq<u8>> },
    Client { subcommand: Seq<char>, args: Seq<Seq<u8>> },
    Multi,
    Exec,
    Discard,
    Watch(Seq<Seq<u8>>),
    Unwatch,
    HSet { key: Seq<u8>, fields: Seq<(Seq<u8>, Seq<u8>)> },
    HGet { key: Seq<u8>, field: Seq<u8> },
    HMGet { key: Seq<u8>, fields: Seq<Seq<u8>> },
    HDel { key: Seq<u8>, fields: Seq<Seq<u8>> },
    HExists { key: Seq<u8>, field: Seq<u8> },
    HGetAll(Seq<u8>),
    HLen(Seq<u8>),
    HKeys(Seq<u8>),
    HVals(Seq<u8>),
    HIncrBy { key: Seq<u8>, field: Seq<u8>, delta: i64 },
}

impl View for Command {
    type V = CommandView;

    open spec fn view(&self) -> CommandView {
        match *self {
            Command::Get(x) => CommandView::Get(x@),
            Command::SetValue { key, value, ex, px } => CommandView::SetValue { key: key@, value: value@, ex: ex, px: px },
            Command::Del(x) => CommandView::Del(bytes_list(x@)),
            Command::Exists(x) => CommandView::Exists(bytes_list(x@)),
            Command::Incr(x) => CommandView::Incr(x@),
            Command::IncrBy { key, delta } => CommandView::IncrBy { key: key@, delta: delta },
            Command::Decr(x) => CommandView::Decr(x@),
            Command::DecrBy { key, delta } => CommandView::DecrBy { key: key@, delta: delta },
            Command::Expire { key, seconds } => CommandView::Expire { key: key@, seconds: seconds },
            Command::PExpire { key, milliseconds } => CommandView::PExpire { key: key@, milliseconds: milliseconds },
            Command::Ttl(x) => CommandView::Ttl(x@),
            Command::PTtl(x) => CommandView::PTtl(x@),
            Command::Persist(x) => CommandView::Persist(x@),
            Command::MGet(x) => CommandView::MGet(bytes_list(x@)),
            Command::MSet(x) => CommandView::MSet(pair_list(x@)),
            Command::Ping(x) => CommandView::Ping(opt_bytes(x)),
            Command::Echo(x) => CommandView::Echo(x@),
            Command::Info(x) => CommandView::Info(opt_text(x)),
            Command::Config { action, args } => CommandView::Config { action: action@, args: bytes_list(args@) },
            Command::Command { subcommand, args } => CommandView::Command { subcommand: opt_text(subcommand), args: bytes_list(args@) },
            Command::Quit => CommandView::Quit,
            Command::FlushDb => CommandView::FlushDb,
            Command::Keys(x) => CommandView::Keys(x@),
            Command::Scan { cursor, count, pattern } => CommandView::Scan { cursor: cursor@, count: count, pattern: opt_text(pattern) },
            Command::JsonPatch { key, patch } => CommandView::JsonPatch { key: key@, patch: patch@ },
            Command::Cas { key, expected, new_value } => CommandView::Cas { key: key@, expected: expected@, new_value: new_value@ },
            Command::Auth(x) => CommandView::Auth(x@),
            Command::LPush { key, values } => CommandView::LPush { key: key@, values: bytes_list(values@) },
            Command::RPush { key, values } => CommandView::RPush { key: key@, values: bytes_list(values@) },
            Command::LPop { key, count } => CommandView::LPop { key: key@, count: count },
            Command::RPop { key, count } => CommandView::RPop { key: key@, count: count },
            Command::LLen(x) => CommandView::LLen(x@),
            Command::LRange { key, start, stop } => CommandView::LRange { key: key@, start: start, stop: stop },
            Command::LIndex { key, index } => CommandView::LIndex { key: key@, index: index },
            Command::Subscribe(x) => CommandView::Subscribe(bytes_list(x@)),
            Command::Unsubscribe(x) => CommandView::Unsubscribe(opt_bytes_list(x)),
            Command::PSubscribe(x) => CommandView::PSubscribe(bytes_list(x@)),
            Command::PUnsubscribe(x) => CommandView::PUnsubscribe(opt_bytes_list(x)),
            Command::Publish { channel, message } => CommandView::Publish { channel: channel@, message: message@ },
            Command::PubSub { subcommand, args } => CommandView::PubSub { subcommand: subcommand@, args: bytes_list(args@) },
            Command::Client { subcommand, args } => CommandView::Client { subcommand: subcommand@, args: bytes_list(args@) },
            Command::Multi => CommandView::Multi,
            Command::Exec => CommandView::Exec,
            Command::Discard => CommandView::Discard,
            Command::Watch(x) => CommandView::Watch(bytes_list(x@)),
            Command::Unwatch => CommandView::Unwatch,
            Command::HSet { key, fields } => CommandView::HSet { key: key@, fields: pair_list(fields@) },
            Command::HGet { key, field } => CommandView::HGet { key: key@, field: field@ },
            Command::HMGet { key, fields } => CommandView::HMGet { key: key@, fields: bytes_list(fields@) },
            Command::HDel { key, fields } => CommandView::HDel { key: key@, fields: bytes_list(fields@) },
            Command::HExists { key, field } => CommandView::HExists { key: key@, field: field@ },
            Command::HGetAll(x) => CommandView::HGetAll(x@),
            Command::HLen(x) => CommandView::HLen(x@),
            Command::HKeys(x) => CommandView::HKeys(x@),
            Command::HVals(x) => CommandView::HVals(x@),
            Command::HIncrBy { key, field, delta } => CommandView::HIncrBy { key: key@, field: field@, delta: delta },
        }
    }
}


/// The pub/sub operation a command stands for, if any.
pub open spec fn pubsub_op_of(c: CommandView) -> Option<PubSubOpView> {
    match c {
        CommandView::Subscribe(channels) => Some(PubSubOpView::Subscribe(channels)),
        CommandView::Unsubscribe(channels) => Some(PubSubOpView::Unsubscribe(channels)),
        CommandView::PSubscribe(patterns) => Some(PubSubOpView::PSubscribe(patterns)),
        CommandView::PUnsubscribe(patterns) => Some(PubSubOpView::PUnsubscribe(patterns)),
        CommandView::Publish { channel, message } => Some(PubSubOpView::Publish { channel, message }),
        CommandView::PubSub { subcommand, args } => if upper_text(subcommand) == "CHANNELS"@ {
            Some(
                PubSubOpView::PubSubChannels {
                    pattern: if args.len() > 0 {
                        Some(args[0])
                    } else {
                        None
                    },
                },
            )
        } else if upper_text(subcommand) == "NUMSUB"@ {
            Some(PubSubOpView::PubSubNumSub { channels: args })
        } else if upper_text(subcommand) == "NUMPAT"@ {
            Some(PubSubOpView::PubSubNumPat)
        } else {
            None
        },
        _ => None,
    }
}

impl Command {
    /// Parse command from RESP array
    pub fn from_resp(value: RespValue) -> (r: Result<Self, String>)
        ensures
            parser::parse_outcome(r) == parser::parse_spec(value),
    {
        parser::parse_command(value)
    }

    /// Check if this is a pub/sub command
    pub fn is_pubsub_command(&self) -> (r: bool)
        ensures
            r == (self is Subscribe || self is Unsubscribe || self is PSubscribe || self is PUnsubscribe
                || self is Publish || self is PubSub),
    {
        match self {
            Command::Subscribe(_) | Command::Unsubscribe(_) | Command::PSubscribe(_)
            | Command::PUnsubscribe(_) | Command::Publish { .. } | Command::PubSub { .. } => true,
            _ => false,
        }
    }

    /// Check if this command is allowed in pub/sub mode
    pub fn is_allowed_in_pubsub_mode(&self) -> (r: bool)
        ensures
            r == (self is Subscribe || self is Unsubscribe || self is PSubscribe || self is PUnsubscribe
                || self is Ping || self is Quit),
    {
        match self {
            Command::Subscribe(_) | Command::Unsubscribe(_) | Command::PSubscribe(_)
            | Command::PUnsubscribe(_) | Command::Ping(_) | Command::Quit => true,
            _ => false,
        }
    }

    /// Convert to PubSubOp if this is a pub/sub command
    pub fn to_pubsub_op(self) -> (r: Option<PubSubOp>)
        ensures
            match r {
                Some(op) => pubsub_op_of(self@) == Some(op@),
                None => pubsub_op_of(self@) is None,
            },
    {
        match self {
            Command::Subscribe(channels) => Some(PubSubOp::Subscribe(channels)),
            Command::Unsubscribe(channels) => Some(PubSubOp::Unsubscribe(channels)),
            Command::PSubscribe(patterns) => Some(PubSubOp::PSubscribe(patterns)),
            Command::PUnsubscribe(patterns) => Some(PubSubOp::PUnsubscribe(patterns)),
            Command::Publish { channel, message } => Some(PubSubOp::Publish { channel, message }),
            Command::PubSub { subcommand, args } => {
                let upper = to_upper_text(subcommand.as_str());
                if text_eq(upper.as_str(), "CHANNELS") {
                    let pattern = if args.len() > 0 {
                        Some(args[0].clone())
                    } else {
                        None
                    };
                    proof {
                        if args@.len() > 0 {
                            assert(pattern.unwrap()@ =~= args@[0]@);
                        }
                    }
                    Some(PubSubOp::PubSubChannels { pattern })
                } else if text_eq(upper.as_str(), "NUMSUB") {
                    Some(PubSubOp::PubSubNumSub { channels: args })
                } else if text_eq(upper.as_str(), "NUMPAT") {
                    Some(PubSubOp::PubSubNumPat)
                } else {
                    None
                }
            },
            _ => None,
        }
    }
}

} // verus!
