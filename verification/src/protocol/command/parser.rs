use super::{bytes_list, opt_bytes_list, opt_text, pair_list, Command, CommandView};
use crate::protocol::resp::RespValue;
use crate::text::{
    ascii_upper, bytes_eq, concat3, decimal_i64, lossy_text, owned, parse_i64, to_ascii_uppercase,
    utf8_lossy, utf8_str,
};
use vstd::prelude::*;
use vstd::string::StringSliceAdditionalSpecFns;

verus! {

/// A parse result with its command and error text as views.
pub open spec fn parse_outcome(r: Result<Command, String>) -> Result<CommandView, Seq<char>> {
    match r {
        Ok(c) => Ok(c@),
        Err(e) => Err(e@),
    }
}

pub open spec fn opt_outcome(r: Option<Result<Command, String>>) -> Option<Result<CommandView, Seq<char>>> {
    match r {
        Some(x) => Some(parse_outcome(x)),
        None => None,
    }
}

pub open spec fn wrong_args_text(word: Seq<char>) -> Seq<char> {
    "wrong number of arguments for '"@ + word + "' command"@
}

/// The bytes of a bulk or simple string argument.
pub open spec fn arg_bytes(v: RespValue) -> Result<Seq<u8>, Seq<char>> {
    match v {
        RespValue::BulkString(Some(s)) => Ok(s@),
        RespValue::SimpleString(s) => Ok(s@),
        _ => Err("Expected string value"@),
    }
}

/// The text of a string argument, invalid UTF-8 replaced.
pub open spec fn arg_text(v: RespValue) -> Result<Seq<char>, Seq<char>> {
    match arg_bytes(v) {
        Ok(b) => Ok(lossy_text(b)),
        Err(e) => Err(e),
    }
}

/// The number an integer argument, or a bulk string spelling one, stands for.
pub open spec fn arg_integer(v: RespValue) -> Result<i64, Seq<char>> {
    match v {
        RespValue::Integer(n) => Ok(n),
        RespValue::BulkString(Some(s)) => if !vstd::utf8::valid_utf8(s@) {
            Err("Invalid UTF-8"@)
        } else {
            match decimal_i64(vstd::utf8::decode_utf8(s@)) {
                Some(n) => Ok(n),
                None => Err("Invalid integer"@),
            }
        },
        _ => Err("Expected integer value"@),
    }
}

/// The bytes of every argument, when all are strings.
pub open spec fn all_bytes(args: Seq<RespValue>) -> Result<Seq<Seq<u8>>, Seq<char>> {
    if forall|i: int| 0 <= i < args.len() ==> #[trigger] arg_bytes(args[i]) is Ok {
        Ok(Seq::new(args.len(), |i: int| arg_bytes(args[i])->Ok_0))
    } else {
        Err("Expected string value"@)
    }
}

/// Consecutive arguments taken two by two as pairs.
pub open spec fn pairs_of(list: Seq<Seq<u8>>) -> Seq<(Seq<u8>, Seq<u8>)> {
    Seq::new(list.len() / 2, |k: int| (list[2 * k], list[2 * k + 1]))
}

#[verifier::opaque]
pub open spec fn is_word(upper: Seq<u8>, word: &str) -> bool {
    upper == word.spec_bytes()
}

/// `args` must hold exactly one string: the key.
pub open spec fn one_key(args: Seq<RespValue>, word: &str) -> Result<Seq<u8>, Seq<char>> {
    if args.len() != 1 {
        Err(wrong_args_text(word@))
    } else {
        arg_bytes(args[0])
    }
}

/// `args` must hold exactly two strings.
pub open spec fn two_strings(args: Seq<RespValue>, word: &str) -> Result<(Seq<u8>, Seq<u8>), Seq<char>> {
    if args.len() != 2 {
        Err(wrong_args_text(word@))
    } else {
        match arg_bytes(args[0]) {
            Err(e) => Err(e),
            Ok(a) => match arg_bytes(args[1]) {
                Err(e) => Err(e),
                Ok(b) => Ok((a, b)),
            },
        }
    }
}

/// `args` must hold exactly a key and an integer.
pub open spec fn key_and_integer(args: Seq<RespValue>, word: &str) -> Result<(Seq<u8>, i64), Seq<char>> {
    if args.len() != 2 {
        Err(wrong_args_text(word@))
    } else {
        match arg_bytes(args[0]) {
            Err(e) => Err(e),
            Ok(a) => match arg_integer(args[1]) {
                Err(e) => Err(e),
                Ok(n) => Ok((a, n)),
            },
        }
    }
}

/// `args` must be non-empty and all strings.
pub open spec fn some_keys(args: Seq<RespValue>, word: &str) -> Result<Seq<Seq<u8>>, Seq<char>> {
    if args.len() == 0 {
        Err(wrong_args_text(word@))
    } else {
        all_bytes(args)
    }
}

/// A key followed by at least one more string.
pub open spec fn key_and_rest(args: Seq<RespValue>, word: &str) -> Result<(Seq<u8>, Seq<Seq<u8>>), Seq<char>> {
    if args.len() < 2 {
        Err(wrong_args_text(word@))
    } else {
        match arg_bytes(args[0]) {
            Err(e) => Err(e),
            Ok(k) => match all_bytes(args.drop_first()) {
                Err(e) => Err(e),
                Ok(rest) => Ok((k, rest)),
            },
        }
    }
}

/// A text subcommand followed by string arguments.
pub open spec fn sub_and_rest(args: Seq<RespValue>, word: &str) -> Result<(Seq<char>, Seq<Seq<u8>>), Seq<char>> {
    if args.len() == 0 {
        Err(wrong_args_text(word@))
    } else {
        match arg_text(args[0]) {
            Err(e) => Err(e),
            Ok(sub) => match all_bytes(args.drop_first()) {
                Err(e) => Err(e),
                Ok(rest) => Ok((sub, rest)),
            },
        }
    }
}

/// A key and an optional count for LPOP and RPOP.
pub open spec fn key_and_count(args: Seq<RespValue>, word: &str) -> Result<(Seq<u8>, Option<usize>), Seq<char>> {
    if args.len() == 0 || args.len() > 2 {
        Err(wrong_args_text(word@))
    } else {
        match arg_bytes(args[0]) {
            Err(e) => Err(e),
            Ok(k) => if args.len() == 2 {
                match arg_integer(args[1]) {
                    Err(e) => Err(e),
                    Ok(n) => Ok((k, Some(n as usize))),
                }
            } else {
                Ok((k, None))
            },
        }
    }
}

/// No arguments allowed.
pub open spec fn no_args(args: Seq<RespValue>, word: &str) -> Result<(), Seq<char>> {
    if args.len() != 0 {
        Err(wrong_args_text(word@))
    } else {
        Ok(())
    }
}

/// The EX and PX options of SET, read from index `i`; other words are skipped.
pub open spec fn set_options(args: Seq<RespValue>, i: int, ex: Option<u64>, px: Option<u64>) -> Result<
    (Option<u64>, Option<u64>),
    Seq<char>,
>
    decreases args.len() - i,
{
    if i < 0 || i >= args.len() {
        Ok((ex, px))
    } else {
        match arg_bytes(args[i]) {
            Err(e) => Err(e),
            Ok(opt) => if is_word(ascii_upper(opt), "EX") && i + 1 < args.len() {
                match arg_integer(args[i + 1]) {
                    Err(e) => Err(e),
                    Ok(n) => set_options(args, i + 2, Some(n as u64), px),
                }
            } else if is_word(ascii_upper(opt), "PX") && i + 1 < args.len() {
                match arg_integer(args[i + 1]) {
                    Err(e) => Err(e),
                    Ok(n) => set_options(args, i + 2, ex, Some(n as u64)),
                }
            } else {
                set_options(args, i + 1, ex, px)
            },
        }
    }
}

/// The MATCH and COUNT options of SCAN, read from index `i`.
pub open spec fn scan_options(args: Seq<RespValue>, i: int, count: usize, pattern: Option<Seq<char>>) -> Result<
    (usize, Option<Seq<char>>),
    Seq<char>,
>
    decreases args.len() - i,
{
    if i < 0 || i >= args.len() {
        Ok((count, pattern))
    } else {
        match arg_bytes(args[i]) {
            Err(e) => Err(e),
            Ok(opt) => if is_word(ascii_upper(opt), "MATCH") && i + 1 < args.len() {
                match arg_text(args[i + 1]) {
                    Err(e) => Err(e),
                    Ok(p) => scan_options(args, i + 2, count, Some(p)),
                }
            } else if is_word(ascii_upper(opt), "COUNT") && i + 1 < args.len() {
                match arg_integer(args[i + 1]) {
                    Err(e) => Err(e),
                    Ok(n) => scan_options(args, i + 2, n as usize, pattern),
                }
            } else {
                Err("syntax error in SCAN"@)
            },
        }
    }
}

/// `Ok(f(a))` for `Ok(a)`; errors pass through.
pub open spec fn cmd_from<A>(r: Result<A, Seq<char>>, f: spec_fn(A) -> CommandView) -> Result<
    CommandView,
    Seq<char>,
> {
    match r {
        Ok(a) => Ok(f(a)),
        Err(e) => Err(e),
    }
}

/// SET key value [EX seconds] [PX milliseconds]
pub open spec fn set_spec(args: Seq<RespValue>) -> Result<CommandView, Seq<char>> {
    if args.len() < 2 {
        Err(wrong_args_text("SET"@))
    } else {
        match arg_bytes(args[0]) {
            Err(e) => Err(e),
            Ok(key) => match arg_bytes(args[1]) {
                Err(e) => Err(e),
                Ok(value) => cmd_from(
                    set_options(args, 2, None, None),
                    |o: (Option<u64>, Option<u64>)| CommandView::SetValue { key, value, ex: o.0, px: o.1 },
                ),
            },
        }
    }
}

/// MSET key value [key value ...]
pub open spec fn mset_spec(args: Seq<RespValue>) -> Result<CommandView, Seq<char>> {
    if args.len() == 0 || args.len() % 2 != 0 {
        Err(wrong_args_text("MSET"@))
    } else {
        cmd_from(all_bytes(args), |l: Seq<Seq<u8>>| CommandView::MSet(pairs_of(l)))
    }
}

/// PING [message]
pub open spec fn ping_spec(args: Seq<RespValue>) -> Result<CommandView, Seq<char>> {
    if args.len() == 0 {
        Ok(CommandView::Ping(None))
    } else {
        cmd_from(arg_bytes(args[0]), |m: Seq<u8>| CommandView::Ping(Some(m)))
    }
}

/// INFO [section]
pub open spec fn info_spec(args: Seq<RespValue>) -> Result<CommandView, Seq<char>> {
    if args.len() == 0 {
        Ok(CommandView::Info(None))
    } else {
        cmd_from(arg_text(args[0]), |t: Seq<char>| CommandView::Info(Some(t)))
    }
}

/// COMMAND [subcommand [arg ...]]
pub open spec fn command_word_spec(args: Seq<RespValue>) -> Result<CommandView, Seq<char>> {
    if args.len() == 0 {
        Ok(CommandView::Command { subcommand: None, args: Seq::empty() })
    } else {
        cmd_from(
            sub_and_rest(args, "COMMAND"),
            |p: (Seq<char>, Seq<Seq<u8>>)| CommandView::Command { subcommand: Some(p.0), args: p.1 },
        )
    }
}

/// KEYS pattern
pub open spec fn keys_spec(args: Seq<RespValue>) -> Result<CommandView, Seq<char>> {
    if args.len() != 1 {
        Err(wrong_args_text("KEYS"@))
    } else {
        cmd_from(arg_text(args[0]), |t: Seq<char>| CommandView::Keys(t))
    }
}

/// SCAN cursor [MATCH pattern] [COUNT count], the count 10 unless given.
pub open spec fn scan_spec(args: Seq<RespValue>) -> Result<CommandView, Seq<char>> {
    if args.len() == 0 {
        Err(wrong_args_text("SCAN"@))
    } else {
        match arg_bytes(args[0]) {
            Err(e) => Err(e),
            Ok(cursor) => cmd_from(
                scan_options(args, 1, 10, None),
                |o: (usize, Option<Seq<char>>)| CommandView::Scan { cursor, count: o.0, pattern: o.1 },
            ),
        }
    }
}

/// CAS key expected new_value
pub open spec fn cas_spec(args: Seq<RespValue>) -> Result<CommandView, Seq<char>> {
    if args.len() != 3 {
        Err(wrong_args_text("CAS"@))
    } else {
        cmd_from(all_bytes(args), |l: Seq<Seq<u8>>| CommandView::Cas { key: l[0], expected: l[1], new_value: l[2] })
    }
}

/// LRANGE key start stop
pub open spec fn lrange_spec(args: Seq<RespValue>) -> Result<CommandView, Seq<char>> {
    if args.len() != 3 {
        Err(wrong_args_text("LRANGE"@))
    } else {
        match arg_bytes(args[0]) {
            Err(e) => Err(e),
            Ok(key) => match arg_integer(args[1]) {
                Err(e) => Err(e),
                Ok(start) => cmd_from(arg_integer(args[2]), |stop: i64| CommandView::LRange { key, start, stop }),
            },
        }
    }
}

/// No list when there are no arguments, else every argument's bytes.
pub open spec fn optional_list(args: Seq<RespValue>) -> Result<Option<Seq<Seq<u8>>>, Seq<char>> {
    if args.len() == 0 {
        Ok(None)
    } else {
        match all_bytes(args) {
            Err(e) => Err(e),
            Ok(l) => Ok(Some(l)),
        }
    }
}

/// HSET key field value [field value ...]
pub open spec fn hset_spec(args: Seq<RespValue>) -> Result<CommandView, Seq<char>> {
    if args.len() < 3 || (args.len() - 1) % 2 != 0 {
        Err(wrong_args_text("HSET"@))
    } else {
        cmd_from(all_bytes(args), |l: Seq<Seq<u8>>| CommandView::HSet { key: l[0], fields: pairs_of(l.drop_first()) })
    }
}

/// HINCRBY key field delta
pub open spec fn hincrby_spec(args: Seq<RespValue>) -> Result<CommandView, Seq<char>> {
    if args.len() != 3 {
        Err(wrong_args_text("HINCRBY"@))
    } else {
        match arg_bytes(args[0]) {
            Err(e) => Err(e),
            Ok(key) => match arg_bytes(args[1]) {
                Err(e) => Err(e),
                Ok(field) => cmd_from(arg_integer(args[2]), |delta: i64| CommandView::HIncrBy { key, field, delta }),
            },
        }
    }
}

/// Commands on plain keys: strings, counters and expiry.
pub open spec fn key_commands(u: Seq<u8>, args: Seq<RespValue>) -> Option<Result<CommandView, Seq<char>>> {
    if is_word(u, "GET") {
        Some(cmd_from(one_key(args, "GET"), |k: Seq<u8>| CommandView::Get(k)))
    } else if is_word(u, "SET") {
        Some(set_spec(args))
    } else if is_word(u, "DEL") {
        Some(cmd_from(some_keys(args, "DEL"), |k: Seq<Seq<u8>>| CommandView::Del(k)))
    } else if is_word(u, "EXISTS") {
        Some(cmd_from(some_keys(args, "EXISTS"), |k: Seq<Seq<u8>>| CommandView::Exists(k)))
    } else if is_word(u, "INCR") {
        Some(cmd_from(one_key(args, "INCR"), |k: Seq<u8>| CommandView::Incr(k)))
    } else if is_word(u, "INCRBY") {
        Some(cmd_from(key_and_integer(args, "INCRBY"), |p: (Seq<u8>, i64)| CommandView::IncrBy { key: p.0, delta: p.1 }))
    } else if is_word(u, "DECR") {
        Some(cmd_from(one_key(args, "DECR"), |k: Seq<u8>| CommandView::Decr(k)))
    } else if is_word(u, "DECRBY") {
        Some(cmd_from(key_and_integer(args, "DECRBY"), |p: (Seq<u8>, i64)| CommandView::DecrBy { key: p.0, delta: p.1 }))
    } else if is_word(u, "EXPIRE") {
        Some(cmd_from(key_and_integer(args, "EXPIRE"), |p: (Seq<u8>, i64)| CommandView::Expire { key: p.0, seconds: p.1 as u64 }))
    } else if is_word(u, "PEXPIRE") {
        Some(cmd_from(key_and_integer(args, "PEXPIRE"), |p: (Seq<u8>, i64)| CommandView::PExpire { key: p.0, milliseconds: p.1 as u64 }))
    } else if is_word(u, "TTL") {
        Some(cmd_from(one_key(args, "TTL"), |k: Seq<u8>| CommandView::Ttl(k)))
    } else if is_word(u, "PTTL") {
        Some(cmd_from(one_key(args, "PTTL"), |k: Seq<u8>| CommandView::PTtl(k)))
    } else if is_word(u, "PERSIST") {
        Some(cmd_from(one_key(args, "PERSIST"), |k: Seq<u8>| CommandView::Persist(k)))
    } else if is_word(u, "MGET") {
        Some(cmd_from(some_keys(args, "MGET"), |k: Seq<Seq<u8>>| CommandView::MGet(k)))
    } else if is_word(u, "MSET") {
        Some(mset_spec(args))
    } else {
        None
    }
}

/// Connection and server commands, and the two atomic value updates.
pub open spec fn server_commands(u: Seq<u8>, args: Seq<RespValue>) -> Option<Result<CommandView, Seq<char>>> {
    if is_word(u, "PING") {
        Some(ping_spec(args))
    } else if is_word(u, "ECHO") {
        Some(cmd_from(one_key(args, "ECHO"), |m: Seq<u8>| CommandView::Echo(m)))
    } else if is_word(u, "INFO") {
        Some(info_spec(args))
    } else if is_word(u, "CONFIG") {
        Some(cmd_from(sub_and_rest(args, "CONFIG"), |p: (Seq<char>, Seq<Seq<u8>>)| CommandView::Config { action: p.0, args: p.1 }))
    } else if is_word(u, "COMMAND") {
        Some(command_word_spec(args))
    } else if is_word(u, "QUIT") {
        Some(Ok(CommandView::Quit))
    } else if is_word(u, "FLUSHDB") {
        Some(Ok(CommandView::FlushDb))
    } else if is_word(u, "KEYS") {
        Some(keys_spec(args))
    } else if is_word(u, "SCAN") {
        Some(scan_spec(args))
    } else if is_word(u, "JSONPATCH") {
        Some(cmd_from(two_strings(args, "JSONPATCH"), |p: (Seq<u8>, Seq<u8>)| CommandView::JsonPatch { key: p.0, patch: p.1 }))
    } else if is_word(u, "CAS") {
        Some(cas_spec(args))
    } else {
        None
    }
}

/// List, authentication and pub/sub commands.
pub open spec fn list_commands(u: Seq<u8>, args: Seq<RespValue>) -> Option<Result<CommandView, Seq<char>>> {
    if is_word(u, "LPUSH") {
        Some(cmd_from(key_and_rest(args, "LPUSH"), |p: (Seq<u8>, Seq<Seq<u8>>)| CommandView::LPush { key: p.0, values: p.1 }))
    } else if is_word(u, "RPUSH") {
        Some(cmd_from(key_and_rest(args, "RPUSH"), |p: (Seq<u8>, Seq<Seq<u8>>)| CommandView::RPush { key: p.0, values: p.1 }))
    } else if is_word(u, "LPOP") {
        Some(cmd_from(key_and_count(args, "LPOP"), |p: (Seq<u8>, Option<usize>)| CommandView::LPop { key: p.0, count: p.1 }))
    } else if is_word(u, "RPOP") {
        Some(cmd_from(key_and_count(args, "RPOP"), |p: (Seq<u8>, Option<usize>)| CommandView::RPop { key: p.0, count: p.1 }))
    } else if is_word(u, "LLEN") {
        Some(cmd_from(one_key(args, "LLEN"), |k: Seq<u8>| CommandView::LLen(k)))
    } else if is_word(u, "LRANGE") {
        Some(lrange_spec(args))
    } else if is_word(u, "LINDEX") {
        Some(cmd_from(key_and_integer(args, "LINDEX"), |p: (Seq<u8>, i64)| CommandView::LIndex { key: p.0, index: p.1 }))
    } else if is_word(u, "AUTH") {
        Some(cmd_from(one_key(args, "AUTH"), |k: Seq<u8>| CommandView::Auth(k)))
    } else if is_word(u, "SUBSCRIBE") {
        Some(cmd_from(some_keys(args, "SUBSCRIBE"), |k: Seq<Seq<u8>>| CommandView::Subscribe(k)))
    } else if is_word(u, "UNSUBSCRIBE") {
        Some(cmd_from(optional_list(args), |k: Option<Seq<Seq<u8>>>| CommandView::Unsubscribe(k)))
    } else if is_word(u, "PSUBSCRIBE") {
        Some(cmd_from(some_keys(args, "PSUBSCRIBE"), |k: Seq<Seq<u8>>| CommandView::PSubscribe(k)))
    } else if is_word(u, "PUNSUBSCRIBE") {
        Some(cmd_from(optional_list(args), |k: Option<Seq<Seq<u8>>>| CommandView::PUnsubscribe(k)))
    } else if is_word(u, "PUBLISH") {
        Some(cmd_from(two_strings(args, "PUBLISH"), |p: (Seq<u8>, Seq<u8>)| CommandView::Publish { channel: p.0, message: p.1 }))
    } else if is_word(u, "PUBSUB") {
        Some(cmd_from(sub_and_rest(args, "PUBSUB"), |p: (Seq<char>, Seq<Seq<u8>>)| CommandView::PubSub { subcommand: p.0, args: p.1 }))
    } else if is_word(u, "CLIENT") {
        Some(cmd_from(sub_and_rest(args, "CLIENT"), |p: (Seq<char>, Seq<Seq<u8>>)| CommandView::Client { subcommand: p.0, args: p.1 }))
    } else {
        None
    }
}

/// Hash and transaction commands.
pub open spec fn hash_commands(u: Seq<u8>, args: Seq<RespValue>) -> Option<Result<CommandView, Seq<char>>> {
    if is_word(u, "HSET") {
        Some(hset_spec(args))
    } else if is_word(u, "HGET") {
        Some(cmd_from(two_strings(args, "HGET"), |p: (Seq<u8>, Seq<u8>)| CommandView::HGet { key: p.0, field: p.1 }))
    } else if is_word(u, "HMGET") {
        Some(cmd_from(key_and_rest(args, "HMGET"), |p: (Seq<u8>, Seq<Seq<u8>>)| CommandView::HMGet { key: p.0, fields: p.1 }))
    } else if is_word(u, "HDEL") {
        Some(cmd_from(key_and_rest(args, "HDEL"), |p: (Seq<u8>, Seq<Seq<u8>>)| CommandView::HDel { key: p.0, fields: p.1 }))
    } else if is_word(u, "HEXISTS") {
        Some(cmd_from(two_strings(args, "HEXISTS"), |p: (Seq<u8>, Seq<u8>)| CommandView::HExists { key: p.0, field: p.1 }))
    } else if is_word(u, "HGETALL") {
        Some(cmd_from(one_key(args, "HGETALL"), |k: Seq<u8>| CommandView::HGetAll(k)))
    } else if is_word(u, "HLEN") {
        Some(cmd_from(one_key(args, "HLEN"), |k: Seq<u8>| CommandView::HLen(k)))
    } else if is_word(u, "HKEYS") {
        Some(cmd_from(one_key(args, "HKEYS"), |k: Seq<u8>| CommandView::HKeys(k)))
    } else if is_word(u, "HVALS") {
        Some(cmd_from(one_key(args, "HVALS"), |k: Seq<u8>| CommandView::HVals(k)))
    } else if is_word(u, "HINCRBY") {
        Some(hincrby_spec(args))
    } else if is_word(u, "MULTI") {
        Some(cmd_from(no_args(args, "MULTI"), |x: ()| CommandView::Multi))
    } else if is_word(u, "EXEC") {
        Some(cmd_from(no_args(args, "EXEC"), |x: ()| CommandView::Exec))
    } else if is_word(u, "DISCARD") {
        Some(cmd_from(no_args(args, "DISCARD"), |x: ()| CommandView::Discard))
    } else if is_word(u, "WATCH") {
        Some(cmd_from(some_keys(args, "WATCH"), |k: Seq<Seq<u8>>| CommandView::Watch(k)))
    } else if is_word(u, "UNWATCH") {
        Some(cmd_from(no_args(args, "UNWATCH"), |x: ()| CommandView::Unwatch))
    } else {
        None
    }
}

/// The command named by `name` (any ASCII case) with arguments `args`.
pub open spec fn command_spec(name: Seq<u8>, args: Seq<RespValue>) -> Result<CommandView, Seq<char>> {
    let u = ascii_upper(name);
    match key_commands(u, args) {
        Some(r) => r,
        None => match server_commands(u, args) {
            Some(r) => r,
            None => match list_commands(u, args) {
                Some(r) => r,
                None => match hash_commands(u, args) {
                    Some(r) => r,
                    None => Err("unknown command '"@ + lossy_text(name) + "'"@),
                },
            },
        },
    }
}

/// What a RESP value parses to: a non-empty array whose first element is a
/// bulk string naming the command, the rest its arguments.
pub open spec fn parse_spec(value: RespValue) -> Result<CommandView, Seq<char>> {
    match value {
        RespValue::Array(Some(items)) => if items@.len() == 0 {
            Err("Commands must be arrays"@)
        } else {
            match items@[0] {
                RespValue::BulkString(Some(name)) => command_spec(name@, items@.drop_first()),
                _ => Err("Invalid command format"@),
            }
        },
        _ => Err("Commands must be arrays"@),
    }
}

/// A result with its value and error text as views.
pub open spec fn outcome<T: View>(r: Result<T, String>) -> Result<T::V, Seq<char>> {
    match r {
        Ok(t) => Ok(t@),
        Err(e) => Err(e@),
    }
}

/// A list result with each byte string as a sequence.
pub open spec fn list_outcome(r: Result<Vec<Vec<u8>>, String>) -> Result<Seq<Seq<u8>>, Seq<char>> {
    match r {
        Ok(l) => Ok(bytes_list(l@)),
        Err(e) => Err(e@),
    }
}

/// Extract the bytes of a bulk or simple string.
pub fn extract_bytes(value: &RespValue) -> (r: Result<Vec<u8>, String>)
    ensures
        outcome(r) == arg_bytes(*value),
{
    match value {
        RespValue::BulkString(Some(s)) => Ok(s.clone()),
        RespValue::SimpleString(s) => Ok(s.clone()),
        _ => Err(owned("Expected string value")),
    }
}

/// Extract an integer, given as such or as a bulk string in decimal.
pub fn extract_integer(value: &RespValue) -> (r: Result<i64, String>)
    ensures
        outcome(r) == arg_integer(*value),
{
    match value {
        RespValue::Integer(n) => Ok(*n),
        RespValue::BulkString(Some(s)) => match utf8_str(s.as_slice()) {
            None => Err(owned("Invalid UTF-8")),
            Some(text) => match parse_i64(text) {
                Some(n) => Ok(n),
                None => Err(owned("Invalid integer")),
            },
        },
        _ => Err(owned("Expected integer value")),
    }
}

/// Extract the text of a string argument, invalid UTF-8 replaced.
fn extract_text(value: &RespValue) -> (r: Result<String, String>)
    ensures
        outcome(r) == arg_text(*value),
{
    match extract_bytes(value) {
        Ok(b) => Ok(utf8_lossy(b.as_slice())),
        Err(e) => Err(e),
    }
}

/// The error for a command given the wrong number of arguments.
fn wrong_args(word: &str) -> (r: String)
    ensures
        r@ == wrong_args_text(word@),
{
    concat3("wrong number of arguments for '", word, "' command")
}

/// The bytes of every argument.
fn extract_all(args: &[RespValue]) -> (r: Result<Vec<Vec<u8>>, String>)
    ensures
        list_outcome(r) == all_bytes(args@),
{
    let mut out: Vec<Vec<u8>> = Vec::new();
    let mut k: usize = 0;
    while k < args.len()
        invariant
            k <= args@.len(),
            out@.len() == k,
            forall|j: int| 0 <= j < k ==> #[trigger] arg_bytes(args@[j]) == Ok::<Seq<u8>, Seq<char>>(out@[j]@),
        decreases args@.len() - k,
    {
        match extract_bytes(&args[k]) {
            Ok(b) => out.push(b),
            Err(e) => {
                assert(!(arg_bytes(args@[k as int]) is Ok));
                return Err(e);
            },
        }
        k += 1;
    }
    assert(bytes_list(out@) =~= Seq::new(args@.len(), |i: int| arg_bytes(args@[i])->Ok_0));
    Ok(out)
}

fn key_arg(args: &[RespValue], word: &str) -> (r: Result<Vec<u8>, String>)
    ensures
        outcome(r) == one_key(args@, word),
{
    if args.len() != 1 {
        return Err(wrong_args(word));
    }
    extract_bytes(&args[0])
}

fn two_args(args: &[RespValue], word: &str) -> (r: Result<(Vec<u8>, Vec<u8>), String>)
    ensures
        outcome(r) == two_strings(args@, word),
{
    if args.len() != 2 {
        return Err(wrong_args(word));
    }
    let a = match extract_bytes(&args[0]) {
        Ok(a) => a,
        Err(e) => return Err(e),
    };
    let b = match extract_bytes(&args[1]) {
        Ok(b) => b,
        Err(e) => return Err(e),
    };
    Ok((a, b))
}

fn key_int_args(args: &[RespValue], word: &str) -> (r: Result<(Vec<u8>, i64), String>)
    ensures
        outcome(r) == key_and_integer(args@, word),
{
    if args.len() != 2 {
        return Err(wrong_args(word));
    }
    let a = match extract_bytes(&args[0]) {
        Ok(a) => a,
        Err(e) => return Err(e),
    };
    let n = match extract_integer(&args[1]) {
        Ok(n) => n,
        Err(e) => return Err(e),
    };
    Ok((a, n))
}

fn keys_args(args: &[RespValue], word: &str) -> (r: Result<Vec<Vec<u8>>, String>)
    ensures
        list_outcome(r) == some_keys(args@, word),
{
    if args.len() == 0 {
        return Err(wrong_args(word));
    }
    extract_all(args)
}

fn key_rest_args(args: &[RespValue], word: &str) -> (r: Result<(Vec<u8>, Vec<Vec<u8>>), String>)
    ensures
        match r {
            Ok((k, rest)) => key_and_rest(args@, word) == Ok::<(Seq<u8>, Seq<Seq<u8>>), Seq<char>>(
                (k@, bytes_list(rest@)),
            ),
            Err(e) => key_and_rest(args@, word) == Err::<(Seq<u8>, Seq<Seq<u8>>), Seq<char>>(e@),
        },
{
    if args.len() < 2 {
        return Err(wrong_args(word));
    }
    let k = match extract_bytes(&args[0]) {
        Ok(k) => k,
        Err(e) => return Err(e),
    };
    let tail = &args[1..args.len()];
    assert(tail@ =~= args@.drop_first());
    match extract_all(tail) {
        Ok(rest) => Ok((k, rest)),
        Err(e) => Err(e),
    }
}

fn sub_rest_args(args: &[RespValue], word: &str) -> (r: Result<(String, Vec<Vec<u8>>), String>)
    ensures
        match r {
            Ok((sub, rest)) => sub_and_rest(args@, word) == Ok::<(Seq<char>, Seq<Seq<u8>>), Seq<char>>(
                (sub@, bytes_list(rest@)),
            ),
            Err(e) => sub_and_rest(args@, word) == Err::<(Seq<char>, Seq<Seq<u8>>), Seq<char>>(e@),
        },
{
    if args.len() == 0 {
        return Err(wrong_args(word));
    }
    let sub = match extract_text(&args[0]) {
        Ok(t) => t,
        Err(e) => return Err(e),
    };
    let tail = &args[1..args.len()];
    assert(tail@ =~= args@.drop_first());
    match extract_all(tail) {
        Ok(rest) => Ok((sub, rest)),
        Err(e) => Err(e),
    }
}

fn key_count_args(args: &[RespValue], word: &str) -> (r: Result<(Vec<u8>, Option<usize>), String>)
    ensures
        outcome(r) == key_and_count(args@, word),
{
    if args.len() == 0 || args.len() > 2 {
        return Err(wrong_args(word));
    }
    let k = match extract_bytes(&args[0]) {
        Ok(k) => k,
        Err(e) => return Err(e),
    };
    if args.len() == 2 {
        match extract_integer(&args[1]) {
            Ok(n) => Ok((k, Some(n as usize))),
            Err(e) => Err(e),
        }
    } else {
        Ok((k, None))
    }
}

fn no_args_check(args: &[RespValue], word: &str) -> (r: Result<(), String>)
    ensures
        outcome(r) == no_args(args@, word),
{
    if args.len() != 0 {
        return Err(wrong_args(word));
    }
    Ok(())
}

/// Whether `u` is the command word `word`.
pub(crate) fn is(u: &[u8], word: &str) -> (r: bool)
    ensures
        r == is_word(u@, word),
{
    reveal(is_word);
    bytes_eq(u, word.as_bytes())
}

/// The bytes of `args` taken two by two.
fn extract_pairs(args: &[RespValue]) -> (r: Result<Vec<(Vec<u8>, Vec<u8>)>, String>)
    requires
        args@.len() % 2 == 0,
    ensures
        match r {
            Ok(p) => all_bytes(args@) is Ok && pair_list(p@) == pairs_of(all_bytes(args@)->Ok_0),
            Err(e) => all_bytes(args@) == Err::<Seq<Seq<u8>>, Seq<char>>(e@),
        },
{
    let mut pairs: Vec<(Vec<u8>, Vec<u8>)> = Vec::new();
    let mut i: usize = 0;
    while i < args.len()
        invariant
            args@.len() % 2 == 0,
            i % 2 == 0,
            i <= args@.len(),
            pairs@.len() == i / 2,
            forall|j: int| 0 <= j < i ==> #[trigger] arg_bytes(args@[j]) is Ok,
            forall|k: int|
                0 <= k < i / 2 ==> (#[trigger] pairs@[k]).0@ == arg_bytes(args@[2 * k])->Ok_0
                    && pairs@[k].1@ == arg_bytes(args@[2 * k + 1])->Ok_0,
        decreases args@.len() - i,
    {
        let key = match extract_bytes(&args[i]) {
            Ok(k) => k,
            Err(e) => {
                assert(!(arg_bytes(args@[i as int]) is Ok));
                return Err(e);
            },
        };
        let value = match extract_bytes(&args[i + 1]) {
            Ok(v) => v,
            Err(e) => {
                assert(!(arg_bytes(args@[i + 1]) is Ok));
                return Err(e);
            },
        };
        pairs.push((key, value));
        assert(2 * (i / 2) == i);
        i += 2;
    }
    let ghost l = all_bytes(args@)->Ok_0;
    assert(all_bytes(args@) is Ok);
    assert(pair_list(pairs@) =~= pairs_of(l));
    Ok(pairs)
}

fn set_command(args: &[RespValue]) -> (r: Result<Command, String>)
    ensures
        parse_outcome(r) == set_spec(args@),
{
    if args.len() < 2 {
        return Err(wrong_args("SET"));
    }
    let key = match extract_bytes(&args[0]) {
        Ok(k) => k,
        Err(e) => return Err(e),
    };
    let value = match extract_bytes(&args[1]) {
        Ok(v) => v,
        Err(e) => return Err(e),
    };
    let mut ex: Option<u64> = None;
    let mut px: Option<u64> = None;
    let mut i: usize = 2;
    while i < args.len()
        invariant
            2 <= i <= args@.len(),
            arg_bytes(args@[0]) == Ok::<Seq<u8>, Seq<char>>(key@),
            arg_bytes(args@[1]) == Ok::<Seq<u8>, Seq<char>>(value@),
            set_options(args@, i as int, ex, px) == set_options(args@, 2, None, None),
        decreases args@.len() - i,
    {
        let opt = match extract_bytes(&args[i]) {
            Ok(o) => o,
            Err(e) => return Err(e),
        };
        let upper = to_ascii_uppercase(opt.as_slice());
        if is(upper.as_slice(), "EX") && i + 1 < args.len() {
            match extract_integer(&args[i + 1]) {
                Ok(n) => {
                    ex = Some(n as u64);
                    i += 2;
                },
                Err(e) => return Err(e),
            }
        } else if is(upper.as_slice(), "PX") && i + 1 < args.len() {
            match extract_integer(&args[i + 1]) {
                Ok(n) => {
                    px = Some(n as u64);
                    i += 2;
                },
                Err(e) => return Err(e),
            }
        } else {
            i += 1;
        }
    }
    Ok(Command::SetValue { key, value, ex, px })
}

fn mset_command(args: &[RespValue]) -> (r: Result<Command, String>)
    ensures
        parse_outcome(r) == mset_spec(args@),
{
    if args.len() == 0 || args.len() % 2 != 0 {
        return Err(wrong_args("MSET"));
    }
    match extract_pairs(args) {
        Ok(p) => Ok(Command::MSet(p)),
        Err(e) => Err(e),
    }
}

fn ping_command(args: &[RespValue]) -> (r: Result<Command, String>)
    ensures
        parse_outcome(r) == ping_spec(args@),
{
    if args.len() == 0 {
        return Ok(Command::Ping(None));
    }
    match extract_bytes(&args[0]) {
        Ok(m) => Ok(Command::Ping(Some(m))),
        Err(e) => Err(e),
    }
}

fn info_command(args: &[RespValue]) -> (r: Result<Command, String>)
    ensures
        parse_outcome(r) == info_spec(args@),
{
    if args.len() == 0 {
        return Ok(Command::Info(None));
    }
    match extract_text(&args[0]) {
        Ok(t) => Ok(Command::Info(Some(t))),
        Err(e) => Err(e),
    }
}

fn command_command(args: &[RespValue]) -> (r: Result<Command, String>)
    ensures
        parse_outcome(r) == command_word_spec(args@),
{
    if args.len() == 0 {
        let none: Vec<Vec<u8>> = Vec::new();
        assert(bytes_list(none@) =~= Seq::<Seq<u8>>::empty());
        return Ok(Command::Command { subcommand: None, args: none });
    }
    match sub_rest_args(args, "COMMAND") {
        Ok((t, l)) => Ok(Command::Command { subcommand: Some(t), args: l }),
        Err(e) => Err(e),
    }
}

fn keys_command(args: &[RespValue]) -> (r: Result<Command, String>)
    ensures
        parse_outcome(r) == keys_spec(args@),
{
    if args.len() != 1 {
        return Err(wrong_args("KEYS"));
    }
    match extract_text(&args[0]) {
        Ok(t) => Ok(Command::Keys(t)),
        Err(e) => Err(e),
    }
}

fn scan_command(args: &[RespValue]) -> (r: Result<Command, String>)
    ensures
        parse_outcome(r) == scan_spec(args@),
{
    if args.len() == 0 {
        return Err(wrong_args("SCAN"));
    }
    let cursor = match extract_bytes(&args[0]) {
        Ok(c) => c,
        Err(e) => return Err(e),
    };
    let mut count: usize = 10;
    let mut pattern: Option<String> = None;
    let mut i: usize = 1;
    while i < args.len()
        invariant
            1 <= i <= args@.len(),
            arg_bytes(args@[0]) == Ok::<Seq<u8>, Seq<char>>(cursor@),
            scan_options(args@, i as int, count, opt_text(pattern)) == scan_options(args@, 1, 10, None),
        decreases args@.len() - i,
    {
        let opt = match extract_bytes(&args[i]) {
            Ok(o) => o,
            Err(e) => return Err(e),
        };
        let upper = to_ascii_uppercase(opt.as_slice());
        if is(upper.as_slice(), "MATCH") && i + 1 < args.len() {
            match extract_text(&args[i + 1]) {
                Ok(p) => {
                    pattern = Some(p);
                    i += 2;
                },
                Err(e) => return Err(e),
            }
        } else if is(upper.as_slice(), "COUNT") && i + 1 < args.len() {
            match extract_integer(&args[i + 1]) {
                Ok(n) => {
                    count = n as usize;
                    i += 2;
                },
                Err(e) => return Err(e),
            }
        } else {
            return Err(owned("syntax error in SCAN"));
        }
    }
    Ok(Command::Scan { cursor, count, pattern })
}

fn cas_command(args: &[RespValue]) -> (r: Result<Command, String>)
    ensures
        parse_outcome(r) == cas_spec(args@),
{
    if args.len() != 3 {
        return Err(wrong_args("CAS"));
    }
    let key = match extract_bytes(&args[0]) {
        Ok(k) => k,
        Err(e) => return Err(e),
    };
    let expected = match extract_bytes(&args[1]) {
        Ok(v) => v,
        Err(e) => return Err(e),
    };
    let new_value = match extract_bytes(&args[2]) {
        Ok(v) => v,
        Err(e) => return Err(e),
    };
    Ok(Command::Cas { key, expected, new_value })
}

fn lrange_command(args: &[RespValue]) -> (r: Result<Command, String>)
    ensures
        parse_outcome(r) == lrange_spec(args@),
{
    if args.len() != 3 {
        return Err(wrong_args("LRANGE"));
    }
    let key = match extract_bytes(&args[0]) {
        Ok(k) => k,
        Err(e) => return Err(e),
    };
    let start = match extract_integer(&args[1]) {
        Ok(n) => n,
        Err(e) => return Err(e),
    };
    let stop = match extract_integer(&args[2]) {
        Ok(n) => n,
        Err(e) => return Err(e),
    };
    Ok(Command::LRange { key, start, stop })
}

fn optional_list_args(args: &[RespValue]) -> (r: Result<Option<Vec<Vec<u8>>>, String>)
    ensures
        match r {
            Ok(o) => optional_list(args@) == Ok::<Option<Seq<Seq<u8>>>, Seq<char>>(opt_bytes_list(o)),
            Err(e) => optional_list(args@) == Err::<Option<Seq<Seq<u8>>>, Seq<char>>(e@),
        },
{
    if args.len() == 0 {
        return Ok(None);
    }
    match extract_all(args) {
        Ok(l) => Ok(Some(l)),
        Err(e) => Err(e),
    }
}

fn hset_command(args: &[RespValue]) -> (r: Result<Command, String>)
    ensures
        parse_outcome(r) == hset_spec(args@),
{
    if args.len() < 3 || (args.len() - 1) % 2 != 0 {
        return Err(wrong_args("HSET"));
    }
    let key = match extract_bytes(&args[0]) {
        Ok(k) => k,
        Err(e) => {
            assert(!(arg_bytes(args@[0]) is Ok));
            return Err(e);
        },
    };
    let tail = &args[1..args.len()];
    assert(tail@ =~= args@.drop_first());
    proof {
        assert forall|j: int| 0 <= j < tail@.len() implies #[trigger] arg_bytes(tail@[j]) == arg_bytes(args@[j + 1]) by {}
    }
    match extract_pairs(tail) {
        Ok(fields) => {
            let ghost l = all_bytes(args@)->Ok_0;
            assert(forall|j: int| 0 <= j < args@.len() ==> #[trigger] arg_bytes(args@[j]) is Ok) by {
                assert forall|j: int| 0 <= j < args@.len() implies #[trigger] arg_bytes(args@[j]) is Ok by {
                    if j > 0 {
                        assert(arg_bytes(tail@[j - 1]) is Ok);
                    }
                }
            }
            assert(l.drop_first() =~= all_bytes(tail@)->Ok_0);
            Ok(Command::HSet { key, fields })
        },
        Err(e) => {
            assert(!(all_bytes(tail@) is Ok));
            Err(e)
        },
    }
}

fn hincrby_command(args: &[RespValue]) -> (r: Result<Command, String>)
    ensures
        parse_outcome(r) == hincrby_spec(args@),
{
    if args.len() != 3 {
        return Err(wrong_args("HINCRBY"));
    }
    let key = match extract_bytes(&args[0]) {
        Ok(k) => k,
        Err(e) => return Err(e),
    };
    let field = match extract_bytes(&args[1]) {
        Ok(v) => v,
        Err(e) => return Err(e),
    };
    let delta = match extract_integer(&args[2]) {
        Ok(n) => n,
        Err(e) => return Err(e),
    };
    Ok(Command::HIncrBy { key, field, delta })
}

/// Parse a command on plain keys, if `u` names one.
#[verifier::rlimit(50)]
fn key_command(u: &[u8], args: &[RespValue]) -> (r: Option<Result<Command, String>>)
    ensures
        opt_outcome(r) == key_commands(u@, args@),
{
    if is(u, "GET") {
        return Some(match key_arg(args, "GET") {
            Ok(k) => Ok(Command::Get(k)),
            Err(e) => Err(e),
        });
    }
    if is(u, "SET") {
        return Some(set_command(args));
    }
    if is(u, "DEL") {
        return Some(match keys_args(args, "DEL") {
            Ok(l) => Ok(Command::Del(l)),
            Err(e) => Err(e),
        });
    }
    if is(u, "EXISTS") {
        return Some(match keys_args(args, "EXISTS") {
            Ok(l) => Ok(Command::Exists(l)),
            Err(e) => Err(e),
        });
    }
    if is(u, "INCR") {
        return Some(match key_arg(args, "INCR") {
            Ok(k) => Ok(Command::Incr(k)),
            Err(e) => Err(e),
        });
    }
    if is(u, "INCRBY") {
        return Some(match key_int_args(args, "INCRBY") {
            Ok((k, n)) => Ok(Command::IncrBy { key: k, delta: n }),
            Err(e) => Err(e),
        });
    }
    if is(u, "DECR") {
        return Some(match key_arg(args, "DECR") {
            Ok(k) => Ok(Command::Decr(k)),
            Err(e) => Err(e),
        });
    }
    if is(u, "DECRBY") {
        return Some(match key_int_args(args, "DECRBY") {
            Ok((k, n)) => Ok(Command::DecrBy { key: k, delta: n }),
            Err(e) => Err(e),
        });
    }
    if is(u, "EXPIRE") {
        return Some(match key_int_args(args, "EXPIRE") {
            Ok((k, n)) => Ok(Command::Expire { key: k, seconds: n as u64 }),
            Err(e) => Err(e),
        });
    }
    if is(u, "PEXPIRE") {
        return Some(match key_int_args(args, "PEXPIRE") {
            Ok((k, n)) => Ok(Command::PExpire { key: k, milliseconds: n as u64 }),
            Err(e) => Err(e),
        });
    }
    if is(u, "TTL") {
        return Some(match key_arg(args, "TTL") {
            Ok(k) => Ok(Command::Ttl(k)),
            Err(e) => Err(e),
        });
    }
    if is(u, "PTTL") {
        return Some(match key_arg(args, "PTTL") {
            Ok(k) => Ok(Command::PTtl(k)),
            Err(e) => Err(e),
        });
    }
    if is(u, "PERSIST") {
        return Some(match key_arg(args, "PERSIST") {
            Ok(k) => Ok(Command::Persist(k)),
            Err(e) => Err(e),
        });
    }
    if is(u, "MGET") {
        return Some(match keys_args(args, "MGET") {
            Ok(l) => Ok(Command::MGet(l)),
            Err(e) => Err(e),
        });
    }
    if is(u, "MSET") {
        return Some(mset_command(args));
    }
    None
}

/// Parse a connection or server command, if `u` names one.
#[verifier::rlimit(50)]
fn server_command(u: &[u8], args: &[RespValue]) -> (r: Option<Result<Command, String>>)
    ensures
        opt_outcome(r) == server_commands(u@, args@),
{
    if is(u, "PING") {
        return Some(ping_command(args));
    }
    if is(u, "ECHO") {
        return Some(match key_arg(args, "ECHO") {
            Ok(k) => Ok(Command::Echo(k)),
            Err(e) => Err(e),
        });
    }
    if is(u, "INFO") {
        return Some(info_command(args));
    }
    if is(u, "CONFIG") {
        return Some(match sub_rest_args(args, "CONFIG") {
            Ok((t, l)) => Ok(Command::Config { action: t, args: l }),
            Err(e) => Err(e),
        });
    }
    if is(u, "COMMAND") {
        return Some(command_command(args));
    }
    if is(u, "QUIT") {
        return Some(Ok(Command::Quit));
    }
    if is(u, "FLUSHDB") {
        return Some(Ok(Command::FlushDb));
    }
    if is(u, "KEYS") {
        return Some(keys_command(args));
    }
    if is(u, "SCAN") {
        return Some(scan_command(args));
    }
    if is(u, "JSONPATCH") {
        return Some(match two_args(args, "JSONPATCH") {
            Ok((a, b)) => Ok(Command::JsonPatch { key: a, patch: b }),
            Err(e) => Err(e),
        });
    }
    if is(u, "CAS") {
        return Some(cas_command(args));
    }
    None
}

/// Parse a list, authentication or pub/sub command, if `u` names one.
#[verifier::rlimit(50)]
fn list_command(u: &[u8], args: &[RespValue]) -> (r: Option<Result<Command, String>>)
    ensures
        opt_outcome(r) == list_commands(u@, args@),
{
    if is(u, "LPUSH") {
        return Some(match key_rest_args(args, "LPUSH") {
            Ok((k, l)) => Ok(Command::LPush { key: k, values: l }),
            Err(e) => Err(e),
        });
    }
    if is(u, "RPUSH") {
        return Some(match key_rest_args(args, "RPUSH") {
            Ok((k, l)) => Ok(Command::RPush { key: k, values: l }),
            Err(e) => Err(e),
        });
    }
    if is(u, "LPOP") {
        return Some(match key_count_args(args, "LPOP") {
            Ok((k, c)) => Ok(Command::LPop { key: k, count: c }),
            Err(e) => Err(e),
        });
    }
    if is(u, "RPOP") {
        return Some(match key_count_args(args, "RPOP") {
            Ok((k, c)) => Ok(Command::RPop { key: k, count: c }),
            Err(e) => Err(e),
        });
    }
    if is(u, "LLEN") {
        return Some(match key_arg(args, "LLEN") {
            Ok(k) => Ok(Command::LLen(k)),
            Err(e) => Err(e),
        });
    }
    if is(u, "LRANGE") {
        return Some(lrange_command(args));
    }
    if is(u, "LINDEX") {
        return Some(match key_int_args(args, "LINDEX") {
            Ok((k, n)) => Ok(Command::LIndex { key: k, index: n }),
            Err(e) => Err(e),
        });
    }
    if is(u, "AUTH") {
        return Some(match key_arg(args, "AUTH") {
            Ok(k) => Ok(Command::Auth(k)),
            Err(e) => Err(e),
        });
    }
    if is(u, "SUBSCRIBE") {
        return Some(match keys_args(args, "SUBSCRIBE") {
            Ok(l) => Ok(Command::Subscribe(l)),
            Err(e) => Err(e),
        });
    }
    if is(u, "UNSUBSCRIBE") {
        return Some(match optional_list_args(args) {
            Ok(o) => Ok(Command::Unsubscribe(o)),
            Err(e) => Err(e),
        });
    }
    if is(u, "PSUBSCRIBE") {
        return Some(match keys_args(args, "PSUBSCRIBE") {
            Ok(l) => Ok(Command::PSubscribe(l)),
            Err(e) => Err(e),
        });
    }
    if is(u, "PUNSUBSCRIBE") {
        return Some(match optional_list_args(args) {
            Ok(o) => Ok(Command::PUnsubscribe(o)),
            Err(e) => Err(e),
        });
    }
    if is(u, "PUBLISH") {
        return Some(match two_args(args, "PUBLISH") {
            Ok((a, b)) => Ok(Command::Publish { channel: a, message: b }),
            Err(e) => Err(e),
        });
    }
    if is(u, "PUBSUB") {
        return Some(match sub_rest_args(args, "PUBSUB") {
            Ok((t, l)) => Ok(Command::PubSub { subcommand: t, args: l }),
            Err(e) => Err(e),
        });
    }
    if is(u, "CLIENT") {
        return Some(match sub_rest_args(args, "CLIENT") {
            Ok((t, l)) => Ok(Command::Client { subcommand: t, args: l }),
            Err(e) => Err(e),
        });
    }
    None
}

/// Parse a hash or transaction command, if `u` names one.
#[verifier::rlimit(50)]
fn hash_command(u: &[u8], args: &[RespValue]) -> (r: Option<Result<Command, String>>)
    ensures
        opt_outcome(r) == hash_commands(u@, args@),
{
    if is(u, "HSET") {
        return Some(hset_command(args));
    }
    if is(u, "HGET") {
        return Some(match two_args(args, "HGET") {
            Ok((a, b)) => Ok(Command::HGet { key: a, field: b }),
            Err(e) => Err(e),
        });
    }
    if is(u, "HMGET") {
        return Some(match key_rest_args(args, "HMGET") {
            Ok((k, l)) => Ok(Command::HMGet { key: k, fields: l }),
            Err(e) => Err(e),
        });
    }
    if is(u, "HDEL") {
        return Some(match key_rest_args(args, "HDEL") {
            Ok((k, l)) => Ok(Command::HDel { key: k, fields: l }),
            Err(e) => Err(e),
        });
    }
    if is(u, "HEXISTS") {
        return Some(match two_args(args, "HEXISTS") {
            Ok((a, b)) => Ok(Command::HExists { key: a, field: b }),
            Err(e) => Err(e),
        });
    }
    if is(u, "HGETALL") {
        return Some(match key_arg(args, "HGETALL") {
            Ok(k) => Ok(Command::HGetAll(k)),
            Err(e) => Err(e),
        });
    }
    if is(u, "HLEN") {
        return Some(match key_arg(args, "HLEN") {
            Ok(k) => Ok(Command::HLen(k)),
            Err(e) => Err(e),
        });
    }
    if is(u, "HKEYS") {
        return Some(match key_arg(args, "HKEYS") {
            Ok(k) => Ok(Command::HKeys(k)),
            Err(e) => Err(e),
        });
    }
    if is(u, "HVALS") {
        return Some(match key_arg(args, "HVALS") {
            Ok(k) => Ok(Command::HVals(k)),
            Err(e) => Err(e),
        });
    }
    if is(u, "HINCRBY") {
        return Some(hincrby_command(args));
    }
    if is(u, "MULTI") {
        return Some(match no_args_check(args, "MULTI") {
            Ok(()) => Ok(Command::Multi),
            Err(e) => Err(e),
        });
    }
    if is(u, "EXEC") {
        return Some(match no_args_check(args, "EXEC") {
            Ok(()) => Ok(Command::Exec),
            Err(e) => Err(e),
        });
    }
    if is(u, "DISCARD") {
        return Some(match no_args_check(args, "DISCARD") {
            Ok(()) => Ok(Command::Discard),
            Err(e) => Err(e),
        });
    }
    if is(u, "WATCH") {
        return Some(match keys_args(args, "WATCH") {
            Ok(l) => Ok(Command::Watch(l)),
            Err(e) => Err(e),
        });
    }
    if is(u, "UNWATCH") {
        return Some(match no_args_check(args, "UNWATCH") {
            Ok(()) => Ok(Command::Unwatch),
            Err(e) => Err(e),
        });
    }
    None
}

/// Parse a command from a RESP array: the first element, a bulk string, names
/// the command in any ASCII case; the rest are its arguments.
pub fn parse_command(value: RespValue) -> (r: Result<Command, String>)
    ensures
        parse_outcome(r) == parse_spec(value),
{
    match value {
        RespValue::Array(Some(mut items)) => {
            if items.len() == 0 {
                return Err(owned("Commands must be arrays"));
            }
            let ghost all = items@;
            let head = items.remove(0);
            let name = match head {
                RespValue::BulkString(Some(s)) => s,
                _ => return Err(owned("Invalid command format")),
            };
            let upper = to_ascii_uppercase(name.as_slice());
            let args = items.as_slice();
            assert(args@ =~= all.drop_first());
            if let Some(r) = key_command(upper.as_slice(), args) {
                return r;
            }
            if let Some(r) = server_command(upper.as_slice(), args) {
                return r;
            }
            if let Some(r) = list_command(upper.as_slice(), args) {
                return r;
            }
            if let Some(r) = hash_command(upper.as_slice(), args) {
                return r;
            }
            let text = utf8_lossy(name.as_slice());
            Err(concat3("unknown command '", text.as_str(), "'"))
        },
        _ => Err(owned("Commands must be arrays")),
    }
}

proof fn lemma_word_get()
    ensures
        "GET".spec_bytes() == seq![71u8, 69u8, 84u8],
{
    broadcast use vstd::string::is_ascii_spec_bytes;

    reveal_strlit("GET");
    assert(vstd::string::is_ascii("GET"));
    assert("GET".spec_bytes() =~= seq![71u8, 69u8, 84u8]);
}

proof fn lemma_word_set()
    ensures
        "SET".spec_bytes() == seq![83u8, 69u8, 84u8],
{
    broadcast use vstd::string::is_ascii_spec_bytes;

    reveal_strlit("SET");
    assert(vstd::string::is_ascii("SET"));
    assert("SET".spec_bytes() =~= seq![83u8, 69u8, 84u8]);
}

proof fn lemma_word_del()
    ensures
        "DEL".spec_bytes() == seq![68u8, 69u8, 76u8],
{
    broadcast use vstd::string::is_ascii_spec_bytes;

    reveal_strlit("DEL");
    assert(vstd::string::is_ascii("DEL"));
    assert("DEL".spec_bytes() =~= seq![68u8, 69u8, 76u8]);
}

proof fn lemma_word_exists()
    ensures
        "EXISTS".spec_bytes() == seq![69u8, 88u8, 73u8, 83u8, 84u8, 83u8],
{
    broadcast use vstd::string::is_ascii_spec_bytes;

    reveal_strlit("EXISTS");
    assert(vstd::string::is_ascii("EXISTS"));
    assert("EXISTS".spec_bytes() =~= seq![69u8, 88u8, 73u8, 83u8, 84u8, 83u8]);
}

proof fn lemma_word_incr()
    ensures
        "INCR".spec_bytes() == seq![73u8, 78u8, 67u8, 82u8],
{
    broadcast use vstd::string::is_ascii_spec_bytes;

    reveal_strlit("INCR");
    assert(vstd::string::is_ascii("INCR"));
    assert("INCR".spec_bytes() =~= seq![73u8, 78u8, 67u8, 82u8]);
}

proof fn lemma_word_incrby()
    ensures
        "INCRBY".spec_bytes() == seq![73u8, 78u8, 67u8, 82u8, 66u8, 89u8],
{
    broadcast use vstd::string::is_ascii_spec_bytes;

    reveal_strlit("INCRBY");
    assert(vstd::string::is_ascii("INCRBY"));
    assert("INCRBY".spec_bytes() =~= seq![73u8, 78u8, 67u8, 82u8, 66u8, 89u8]);
}

proof fn lemma_word_decr()
    ensures
        "DECR".spec_bytes() == seq![68u8, 69u8, 67u8, 82u8],
{
    broadcast use vstd::string::is_ascii_spec_bytes;

    reveal_strlit("DECR");
    assert(vstd::string::is_ascii("DECR"));
    assert("DECR".spec_bytes() =~= seq![68u8, 69u8, 67u8, 82u8]);
}

proof fn lemma_word_decrby()
    ensures
        "DECRBY".spec_bytes() == seq![68u8, 69u8, 67u8, 82u8, 66u8, 89u8],
{
    broadcast use vstd::string::is_ascii_spec_bytes;

    reveal_strlit("DECRBY");
    assert(vstd::string::is_ascii("DECRBY"));
    assert("DECRBY".spec_bytes() =~= seq![68u8, 69u8, 67u8, 82u8, 66u8, 89u8]);
}

proof fn lemma_word_expire()
    ensures
        "EXPIRE".spec_bytes() == seq![69u8, 88u8, 80u8, 73u8, 82u8, 69u8],
{
    broadcast use vstd::string::is_ascii_spec_bytes;

    reveal_strlit("EXPIRE");
    assert(vstd::string::is_ascii("EXPIRE"));
    assert("EXPIRE".spec_bytes() =~= seq![69u8, 88u8, 80u8, 73u8, 82u8, 69u8]);
}

proof fn lemma_word_pexpire()
    ensures
        "PEXPIRE".spec_bytes() == seq![80u8, 69u8, 88u8, 80u8, 73u8, 82u8, 69u8],
{
    broadcast use vstd::string::is_ascii_spec_bytes;

    reveal_strlit("PEXPIRE");
    assert(vstd::string::is_ascii("PEXPIRE"));
    assert("PEXPIRE".spec_bytes() =~= seq![80u8, 69u8, 88u8, 80u8, 73u8, 82u8, 69u8]);
}

proof fn lemma_word_ttl()
    ensures
        "TTL".spec_bytes() == seq![84u8, 84u8, 76u8],
{
    broadcast use vstd::string::is_ascii_spec_bytes;

    reveal_strlit("TTL");
    assert(vstd::string::is_ascii("TTL"));
    assert("TTL".spec_bytes() =~= seq![84u8, 84u8, 76u8]);
}

proof fn lemma_word_pttl()
    ensures
        "PTTL".spec_bytes() == seq![80u8, 84u8, 84u8, 76u8],
{
    broadcast use vstd::string::is_ascii_spec_bytes;

    reveal_strlit("PTTL");
    assert(vstd::string::is_ascii("PTTL"));
    assert("PTTL".spec_bytes() =~= seq![80u8, 84u8, 84u8, 76u8]);
}

proof fn lemma_word_persist()
    ensures
        "PERSIST".spec_bytes() == seq![80u8, 69u8, 82u8, 83u8, 73u8, 83u8, 84u8],
{
    broadcast use vstd::string::is_ascii_spec_bytes;

    reveal_strlit("PERSIST");
    assert(vstd::string::is_ascii("PERSIST"));
    assert("PERSIST".spec_bytes() =~= seq![80u8, 69u8, 82u8, 83u8, 73u8, 83u8, 84u8]);
}

#[verifier::rlimit(100)]
proof fn lemma_word_parses_get(u: Seq<u8>, args: Seq<RespValue>)
    requires
        u == seq![71u8, 69u8, 84u8] && args.len() == 1 && arg_bytes(args[0]) is Ok,
    ensures
        key_commands(u, args) == Some(Ok::<CommandView, Seq<char>>(CommandView::Get(arg_bytes(args[0])->Ok_0))),
{
    assert(is_word(u, "GET")) by {
        reveal(is_word);
        lemma_word_get();
    }
}

#[verifier::rlimit(100)]
proof fn lemma_word_parses_incr(u: Seq<u8>, args: Seq<RespValue>)
    requires
        u == seq![73u8, 78u8, 67u8, 82u8] && args.len() == 1 && arg_bytes(args[0]) is Ok,
    ensures
        key_commands(u, args) == Some(Ok::<CommandView, Seq<char>>(CommandView::Incr(arg_bytes(args[0])->Ok_0))),
{
    assert(!is_word(u, "GET")) by {
        reveal(is_word);
        lemma_word_get();
        assert(u.len() != "GET".spec_bytes().len());
    }
    assert(!is_word(u, "SET")) by {
        reveal(is_word);
        lemma_word_set();
        assert(u.len() != "SET".spec_bytes().len());
    }
    assert(!is_word(u, "DEL")) by {
        reveal(is_word);
        lemma_word_del();
        assert(u.len() != "DEL".spec_bytes().len());
    }
    assert(!is_word(u, "EXISTS")) by {
        reveal(is_word);
        lemma_word_exists();
        assert(u.len() != "EXISTS".spec_bytes().len());
    }
    assert(is_word(u, "INCR")) by {
        reveal(is_word);
        lemma_word_incr();
    }
}

#[verifier::rlimit(100)]
proof fn lemma_word_parses_incrby(u: Seq<u8>, args: Seq<RespValue>)
    requires
        u == seq![73u8, 78u8, 67u8, 82u8, 66u8, 89u8] && args.len() == 2 && arg_bytes(args[0]) is Ok && arg_integer(args[1]) is Ok,
    ensures
        key_commands(u, args) == Some(Ok::<CommandView, Seq<char>>(CommandView::IncrBy { key: arg_bytes(args[0])->Ok_0, delta: arg_integer(args[1])->Ok_0 })),
{
    assert(!is_word(u, "GET")) by {
        reveal(is_word);
        lemma_word_get();
        assert(u.len() != "GET".spec_bytes().len());
    }
    assert(!is_word(u, "SET")) by {
        reveal(is_word);
        lemma_word_set();
        assert(u.len() != "SET".spec_bytes().len());
    }
    assert(!is_word(u, "DEL")) by {
        reveal(is_word);
        lemma_word_del();
        assert(u.len() != "DEL".spec_bytes().len());
    }
    assert(!is_word(u, "EXISTS")) by {
        reveal(is_word);
        lemma_word_exists();
        assert(u[0] != "EXISTS".spec_bytes()[0]);
    }
    assert(!is_word(u, "INCR")) by {
        reveal(is_word);
        lemma_word_incr();
        assert(u.len() != "INCR".spec_bytes().len());
    }
    assert(is_word(u, "INCRBY")) by {
        reveal(is_word);
        lemma_word_incrby();
    }
}

#[verifier::rlimit(100)]
proof fn lemma_word_parses_decr(u: Seq<u8>, args: Seq<RespValue>)
    requires
        u == seq![68u8, 69u8, 67u8, 82u8] && args.len() == 1 && arg_bytes(args[0]) is Ok,
    ensures
        key_commands(u, args) == Some(Ok::<CommandView, Seq<char>>(CommandView::Decr(arg_bytes(args[0])->Ok_0))),
{
    assert(!is_word(u, "GET")) by {
        reveal(is_word);
        lemma_word_get();
        assert(u.len() != "GET".spec_bytes().len());
    }
    assert(!is_word(u, "SET")) by {
        reveal(is_word);
        lemma_word_set();
        assert(u.len() != "SET".spec_bytes().len());
    }
    assert(!is_word(u, "DEL")) by {
        reveal(is_word);
        lemma_word_del();
        assert(u.len() != "DEL".spec_bytes().len());
    }
    assert(!is_word(u, "EXISTS")) by {
        reveal(is_word);
        lemma_word_exists();
        assert(u.len() != "EXISTS".spec_bytes().len());
    }
    assert(!is_word(u, "INCR")) by {
        reveal(is_word);
        lemma_word_incr();
        assert(u[0] != "INCR".spec_bytes()[0]);
    }
    assert(!is_word(u, "INCRBY")) by {
        reveal(is_word);
        lemma_word_incrby();
        assert(u.len() != "INCRBY".spec_bytes().len());
    }
    assert(is_word(u, "DECR")) by {
        reveal(is_word);
        lemma_word_decr();
    }
}

#[verifier::rlimit(100)]
proof fn lemma_word_parses_decrby(u: Seq<u8>, args: Seq<RespValue>)
    requires
        u == seq![68u8, 69u8, 67u8, 82u8, 66u8, 89u8] && args.len() == 2 && arg_bytes(args[0]) is Ok && arg_integer(args[1]) is Ok,
    ensures
        key_commands(u, args) == Some(Ok::<CommandView, Seq<char>>(CommandView::DecrBy { key: arg_bytes(args[0])->Ok_0, delta: arg_integer(args[1])->Ok_0 })),
{
    assert(!is_word(u, "GET")) by {
        reveal(is_word);
        lemma_word_get();
        assert(u.len() != "GET".spec_bytes().len());
    }
    assert(!is_word(u, "SET")) by {
        reveal(is_word);
        lemma_word_set();
        assert(u.len() != "SET".spec_bytes().len());
    }
    assert(!is_word(u, "DEL")) by {
        reveal(is_word);
        lemma_word_del();
        assert(u.len() != "DEL".spec_bytes().len());
    }
    assert(!is_word(u, "EXISTS")) by {
        reveal(is_word);
        lemma_word_exists();
        assert(u[0] != "EXISTS".spec_bytes()[0]);
    }
    assert(!is_word(u, "INCR")) by {
        reveal(is_word);
        lemma_word_incr();
        assert(u.len() != "INCR".spec_bytes().len());
    }
    assert(!is_word(u, "INCRBY")) by {
        reveal(is_word);
        lemma_word_incrby();
        assert(u[0] != "INCRBY".spec_bytes()[0]);
    }
    assert(!is_word(u, "DECR")) by {
        reveal(is_word);
        lemma_word_decr();
        assert(u.len() != "DECR".spec_bytes().len());
    }
    assert(is_word(u, "DECRBY")) by {
        reveal(is_word);
        lemma_word_decrby();
    }
}

#[verifier::rlimit(100)]
proof fn lemma_word_parses_expire(u: Seq<u8>, args: Seq<RespValue>)
    requires
        u == seq![69u8, 88u8, 80u8, 73u8, 82u8, 69u8] && args.len() == 2 && arg_bytes(args[0]) is Ok && arg_integer(args[1]) is Ok,
    ensures
        key_commands(u, args) == Some(Ok::<CommandView, Seq<char>>(CommandView::Expire { key: arg_bytes(args[0])->Ok_0, seconds: arg_integer(args[1])->Ok_0 as u64 })),
{
    assert(!is_word(u, "GET")) by {
        reveal(is_word);
        lemma_word_get();
        assert(u.len() != "GET".spec_bytes().len());
    }
    assert(!is_word(u, "SET")) by {
        reveal(is_word);
        lemma_word_set();
        assert(u.len() != "SET".spec_bytes().len());
    }
    assert(!is_word(u, "DEL")) by {
        reveal(is_word);
        lemma_word_del();
        assert(u.len() != "DEL".spec_bytes().len());
    }
    assert(!is_word(u, "EXISTS")) by {
        reveal(is_word);
        lemma_word_exists();
        assert(u[2] != "EXISTS".spec_bytes()[2]);
    }
    assert(!is_word(u, "INCR")) by {
        reveal(is_word);
        lemma_word_incr();
        assert(u.len() != "INCR".spec_bytes().len());
    }
    assert(!is_word(u, "INCRBY")) by {
        reveal(is_word);
        lemma_word_incrby();
        assert(u[0] != "INCRBY".spec_bytes()[0]);
    }
    assert(!is_word(u, "DECR")) by {
        reveal(is_word);
        lemma_word_decr();
        assert(u.len() != "DECR".spec_bytes().len());
    }
    assert(!is_word(u, "DECRBY")) by {
        reveal(is_word);
        lemma_word_decrby();
        assert(u[0] != "DECRBY".spec_bytes()[0]);
    }
    assert(is_word(u, "EXPIRE")) by {
        reveal(is_word);
        lemma_word_expire();
    }
}

#[verifier::rlimit(100)]
proof fn lemma_word_parses_pexpire(u: Seq<u8>, args: Seq<RespValue>)
    requires
        u == seq![80u8, 69u8, 88u8, 80u8, 73u8, 82u8, 69u8] && args.len() == 2 && arg_bytes(args[0]) is Ok && arg_integer(args[1]) is Ok,
    ensures
        key_commands(u, args) == Some(Ok::<CommandView, Seq<char>>(CommandView::PExpire { key: arg_bytes(args[0])->Ok_0, milliseconds: arg_integer(args[1])->Ok_0 as u64 })),
{
    assert(!is_word(u, "GET")) by {
        reveal(is_word);
        lemma_word_get();
        assert(u.len() != "GET".spec_bytes().len());
    }
    assert(!is_word(u, "SET")) by {
        reveal(is_word);
        lemma_word_set();
        assert(u.len() != "SET".spec_bytes().len());
    }
    assert(!is_word(u, "DEL")) by {
        reveal(is_word);
        lemma_word_del();
        assert(u.len() != "DEL".spec_bytes().len());
    }
    assert(!is_word(u, "EXISTS")) by {
        reveal(is_word);
        lemma_word_exists();
        assert(u.len() != "EXISTS".spec_bytes().len());
    }
    assert(!is_word(u, "INCR")) by {
        reveal(is_word);
        lemma_word_incr();
        assert(u.len() != "INCR".spec_bytes().len());
    }
    assert(!is_word(u, "INCRBY")) by {
        reveal(is_word);
        lemma_word_incrby();
        assert(u.len() != "INCRBY".spec_bytes().len());
    }
    assert(!is_word(u, "DECR")) by {
        reveal(is_word);
        lemma_word_decr();
        assert(u.len() != "DECR".spec_bytes().len());
    }
    assert(!is_word(u, "DECRBY")) by {
        reveal(is_word);
        lemma_word_decrby();
        assert(u.len() != "DECRBY".spec_bytes().len());
    }
    assert(!is_word(u, "EXPIRE")) by {
        reveal(is_word);
        lemma_word_expire();
        assert(u.len() != "EXPIRE".spec_bytes().len());
    }
    assert(is_word(u, "PEXPIRE")) by {
        reveal(is_word);
        lemma_word_pexpire();
    }
}

#[verifier::rlimit(100)]
proof fn lemma_word_parses_ttl(u: Seq<u8>, args: Seq<RespValue>)
    requires
        u == seq![84u8, 84u8, 76u8] && args.len() == 1 && arg_bytes(args[0]) is Ok,
    ensures
        key_commands(u, args) == Some(Ok::<CommandView, Seq<char>>(CommandView::Ttl(arg_bytes(args[0])->Ok_0))),
{
    assert(!is_word(u, "GET")) by {
        reveal(is_word);
        lemma_word_get();
        assert(u[0] != "GET".spec_bytes()[0]);
    }
    assert(!is_word(u, "SET")) by {
        reveal(is_word);
        lemma_word_set();
        assert(u[0] != "SET".spec_bytes()[0]);
    }
    assert(!is_word(u, "DEL")) by {
        reveal(is_word);
        lemma_word_del();
        assert(u[0] != "DEL".spec_bytes()[0]);
    }
    assert(!is_word(u, "EXISTS")) by {
        reveal(is_word);
        lemma_word_exists();
        assert(u.len() != "EXISTS".spec_bytes().len());
    }
    assert(!is_word(u, "INCR")) by {
        reveal(is_word);
        lemma_word_incr();
        assert(u.len() != "INCR".spec_bytes().len());
    }
    assert(!is_word(u, "INCRBY")) by {
        reveal(is_word);
        lemma_word_incrby();
        assert(u.len() != "INCRBY".spec_bytes().len());
    }
    assert(!is_word(u, "DECR")) by {
        reveal(is_word);
        lemma_word_decr();
        assert(u.len() != "DECR".spec_bytes().len());
    }
    assert(!is_word(u, "DECRBY")) by {
        reveal(is_word);
        lemma_word_decrby();
        assert(u.len() != "DECRBY".spec_bytes().len());
    }
    assert(!is_word(u, "EXPIRE")) by {
        reveal(is_word);
        lemma_word_expire();
        assert(u.len() != "EXPIRE".spec_bytes().len());
    }
    assert(!is_word(u, "PEXPIRE")) by {
        reveal(is_word);
        lemma_word_pexpire();
        assert(u.len() != "PEXPIRE".spec_bytes().len());
    }
    assert(is_word(u, "TTL")) by {
        reveal(is_word);
        lemma_word_ttl();
    }
}

#[verifier::rlimit(100)]
proof fn lemma_word_parses_pttl(u: Seq<u8>, args: Seq<RespValue>)
    requires
        u == seq![80u8, 84u8, 84u8, 76u8] && args.len() == 1 && arg_bytes(args[0]) is Ok,
    ensures
        key_commands(u, args) == Some(Ok::<CommandView, Seq<char>>(CommandView::PTtl(arg_bytes(args[0])->Ok_0))),
{
    assert(!is_word(u, "GET")) by {
        reveal(is_word);
        lemma_word_get();
        assert(u.len() != "GET".spec_bytes().len());
    }
    assert(!is_word(u, "SET")) by {
        reveal(is_word);
        lemma_word_set();
        assert(u.len() != "SET".spec_bytes().len());
    }
    assert(!is_word(u, "DEL")) by {
        reveal(is_word);
        lemma_word_del();
        assert(u.len() != "DEL".spec_bytes().len());
    }
    assert(!is_word(u, "EXISTS")) by {
        reveal(is_word);
        lemma_word_exists();
        assert(u.len() != "EXISTS".spec_bytes().len());
    }
    assert(!is_word(u, "INCR")) by {
        reveal(is_word);
        lemma_word_incr();
        assert(u[0] != "INCR".spec_bytes()[0]);
    }
    assert(!is_word(u, "INCRBY")) by {
        reveal(is_word);
        lemma_word_incrby();
        assert(u.len() != "INCRBY".spec_bytes().len());
    }
    assert(!is_word(u, "DECR")) by {
        reveal(is_word);
        lemma_word_decr();
        assert(u[0] != "DECR".spec_bytes()[0]);
    }
    assert(!is_word(u, "DECRBY")) by {
        reveal(is_word);
        lemma_word_decrby();
        assert(u.len() != "DECRBY".spec_bytes().len());
    }
    assert(!is_word(u, "EXPIRE")) by {
        reveal(is_word);
        lemma_word_expire();
        assert(u.len() != "EXPIRE".spec_bytes().len());
    }
    assert(!is_word(u, "PEXPIRE")) by {
        reveal(is_word);
        lemma_word_pexpire();
        assert(u.len() != "PEXPIRE".spec_bytes().len());
    }
    assert(!is_word(u, "TTL")) by {
        reveal(is_word);
        lemma_word_ttl();
        assert(u.len() != "TTL".spec_bytes().len());
    }
    assert(is_word(u, "PTTL")) by {
        reveal(is_word);
        lemma_word_pttl();
    }
}

#[verifier::rlimit(100)]
proof fn lemma_word_parses_persist(u: Seq<u8>, args: Seq<RespValue>)
    requires
        u == seq![80u8, 69u8, 82u8, 83u8, 73u8, 83u8, 84u8] && args.len() == 1 && arg_bytes(args[0]) is Ok,
    ensures
        key_commands(u, args) == Some(Ok::<CommandView, Seq<char>>(CommandView::Persist(arg_bytes(args[0])->Ok_0))),
{
    assert(!is_word(u, "GET")) by {
        reveal(is_word);
        lemma_word_get();
        assert(u.len() != "GET".spec_bytes().len());
    }
    assert(!is_word(u, "SET")) by {
        reveal(is_word);
        lemma_word_set();
        assert(u.len() != "SET".spec_bytes().len());
    }
    assert(!is_word(u, "DEL")) by {
        reveal(is_word);
        lemma_word_del();
        assert(u.len() != "DEL".spec_bytes().len());
    }
    assert(!is_word(u, "EXISTS")) by {
        reveal(is_word);
        lemma_word_exists();
        assert(u.len() != "EXISTS".spec_bytes().len());
    }
    assert(!is_word(u, "INCR")) by {
        reveal(is_word);
        lemma_word_incr();
        assert(u.len() != "INCR".spec_bytes().len());
    }
    assert(!is_word(u, "INCRBY")) by {
        reveal(is_word);
        lemma_word_incrby();
        assert(u.len() != "INCRBY".spec_bytes().len());
    }
    assert(!is_word(u, "DECR")) by {
        reveal(is_word);
        lemma_word_decr();
        assert(u.len() != "DECR".spec_bytes().len());
    }
    assert(!is_word(u, "DECRBY")) by {
        reveal(is_word);
        lemma_word_decrby();
        assert(u.len() != "DECRBY".spec_bytes().len());
    }
    assert(!is_word(u, "EXPIRE")) by {
        reveal(is_word);
        lemma_word_expire();
        assert(u.len() != "EXPIRE".spec_bytes().len());
    }
    assert(!is_word(u, "PEXPIRE")) by {
        reveal(is_word);
        lemma_word_pexpire();
        assert(u[2] != "PEXPIRE".spec_bytes()[2]);
    }
    assert(!is_word(u, "TTL")) by {
        reveal(is_word);
        lemma_word_ttl();
        assert(u.len() != "TTL".spec_bytes().len());
    }
    assert(!is_word(u, "PTTL")) by {
        reveal(is_word);
        lemma_word_pttl();
        assert(u.len() != "PTTL".spec_bytes().len());
    }
    assert(is_word(u, "PERSIST")) by {
        reveal(is_word);
        lemma_word_persist();
    }
}

/// The key commands' words parse to their own commands, in any ASCII case of
/// the name, with the key or number taken from the arguments:
/// GET k reads k; INCR, DECR, INCRBY n and DECRBY n change the counter k by 1,
/// -1, n and -n (DECR k is the decrement, never the increment); EXPIRE and
/// PEXPIRE set an expiry in seconds or milliseconds; TTL, PTTL and PERSIST
/// query or clear it.
pub proof fn law_command_names(name: Seq<u8>, args: Seq<RespValue>)
    ensures
        ascii_upper(name) == "GET".spec_bytes() && args.len() == 1 && arg_bytes(args[0]) is Ok ==> command_spec(name, args) == Ok::<CommandView, Seq<char>>(
            CommandView::Get(arg_bytes(args[0])->Ok_0),
        ),
        ascii_upper(name) == "INCR".spec_bytes() && args.len() == 1 && arg_bytes(args[0]) is Ok ==> command_spec(name, args) == Ok::<CommandView, Seq<char>>(
            CommandView::Incr(arg_bytes(args[0])->Ok_0),
        ),
        ascii_upper(name) == "INCRBY".spec_bytes() && args.len() == 2 && arg_bytes(args[0]) is Ok && arg_integer(args[1]) is Ok ==> command_spec(name, args) == Ok::<CommandView, Seq<char>>(
            CommandView::IncrBy { key: arg_bytes(args[0])->Ok_0, delta: arg_integer(args[1])->Ok_0 },
        ),
        ascii_upper(name) == "DECR".spec_bytes() && args.len() == 1 && arg_bytes(args[0]) is Ok ==> command_spec(name, args) == Ok::<CommandView, Seq<char>>(
            CommandView::Decr(arg_bytes(args[0])->Ok_0),
        ),
        ascii_upper(name) == "DECRBY".spec_bytes() && args.len() == 2 && arg_bytes(args[0]) is Ok && arg_integer(args[1]) is Ok ==> command_spec(name, args) == Ok::<CommandView, Seq<char>>(
            CommandView::DecrBy { key: arg_bytes(args[0])->Ok_0, delta: arg_integer(args[1])->Ok_0 },
        ),
        ascii_upper(name) == "EXPIRE".spec_bytes() && args.len() == 2 && arg_bytes(args[0]) is Ok && arg_integer(args[1]) is Ok ==> command_spec(name, args) == Ok::<CommandView, Seq<char>>(
            CommandView::Expire { key: arg_bytes(args[0])->Ok_0, seconds: arg_integer(args[1])->Ok_0 as u64 },
        ),
        ascii_upper(name) == "PEXPIRE".spec_bytes() && args.len() == 2 && arg_bytes(args[0]) is Ok && arg_integer(args[1]) is Ok ==> command_spec(name, args) == Ok::<CommandView, Seq<char>>(
            CommandView::PExpire { key: arg_bytes(args[0])->Ok_0, milliseconds: arg_integer(args[1])->Ok_0 as u64 },
        ),
        ascii_upper(name) == "TTL".spec_bytes() && args.len() == 1 && arg_bytes(args[0]) is Ok ==> command_spec(name, args) == Ok::<CommandView, Seq<char>>(
            CommandView::Ttl(arg_bytes(args[0])->Ok_0),
        ),
        ascii_upper(name) == "PTTL".spec_bytes() && args.len() == 1 && arg_bytes(args[0]) is Ok ==> command_spec(name, args) == Ok::<CommandView, Seq<char>>(
            CommandView::PTtl(arg_bytes(args[0])->Ok_0),
        ),
        ascii_upper(name) == "PERSIST".spec_bytes() && args.len() == 1 && arg_bytes(args[0]) is Ok ==> command_spec(name, args) == Ok::<CommandView, Seq<char>>(
            CommandView::Persist(arg_bytes(args[0])->Ok_0),
        ),
{
    if ascii_upper(name) == "GET".spec_bytes() && args.len() == 1 && arg_bytes(args[0]) is Ok {
        lemma_word_get();
        lemma_word_parses_get(ascii_upper(name), args);
    }
    if ascii_upper(name) == "INCR".spec_bytes() && args.len() == 1 && arg_bytes(args[0]) is Ok {
        lemma_word_incr();
        lemma_word_parses_incr(ascii_upper(name), args);
    }
    if ascii_upper(name) == "INCRBY".spec_bytes() && args.len() == 2 && arg_bytes(args[0]) is Ok && arg_integer(args[1]) is Ok {
        lemma_word_incrby();
        lemma_word_parses_incrby(ascii_upper(name), args);
    }
    if ascii_upper(name) == "DECR".spec_bytes() && args.len() == 1 && arg_bytes(args[0]) is Ok {
        lemma_word_decr();
        lemma_word_parses_decr(ascii_upper(name), args);
    }
    if ascii_upper(name) == "DECRBY".spec_bytes() && args.len() == 2 && arg_bytes(args[0]) is Ok && arg_integer(args[1]) is Ok {
        lemma_word_decrby();
        lemma_word_parses_decrby(ascii_upper(name), args);
    }
    if ascii_upper(name) == "EXPIRE".spec_bytes() && args.len() == 2 && arg_bytes(args[0]) is Ok && arg_integer(args[1]) is Ok {
        lemma_word_expire();
        lemma_word_parses_expire(ascii_upper(name), args);
    }
    if ascii_upper(name) == "PEXPIRE".spec_bytes() && args.len() == 2 && arg_bytes(args[0]) is Ok && arg_integer(args[1]) is Ok {
        lemma_word_pexpire();
        lemma_word_parses_pexpire(ascii_upper(name), args);
    }
    if ascii_upper(name) == "TTL".spec_bytes() && args.len() == 1 && arg_bytes(args[0]) is Ok {
        lemma_word_ttl();
        lemma_word_parses_ttl(ascii_upper(name), args);
    }
    if ascii_upper(name) == "PTTL".spec_bytes() && args.len() == 1 && arg_bytes(args[0]) is Ok {
        lemma_word_pttl();
        lemma_word_parses_pttl(ascii_upper(name), args);
    }
    if ascii_upper(name) == "PERSIST".spec_bytes() && args.len() == 1 && arg_bytes(args[0]) is Ok {
        lemma_word_persist();
        lemma_word_parses_persist(ascii_upper(name), args);
    }
}

} // verus!
