use super::glob::{
    extract_prefix, glob_matches, law_match_starts_with_prefix, lemma_prefix_end_bounds, match_pattern, prefix_end,
};
use super::hash::{
    byte_views, field_count, field_increment, field_prefix, field_value, fields_of, firsts, hash_error_text, pair_views,
    seconds, HashError, HashOperations, MetadataTracker,
};
use super::{bytes_list, opt_text, pair_list, Command, CommandView};
use crate::protocol::resp::{decimal_bytes, lemma_array_view, views, RespValue, RespView};
use crate::store::{
    atomic_increment, compare_and_swap, contains_key, delete, get_bytes, get_ttl, insert_bytes_with_timestamp,
    insert_bytes_with_ttl, insert_with_timestamp, json_patch, persist, range_query, store_error, update_ttl,
    StoreError, StoreErrorView, bytes_le,
};
use crate::text::{
    decimal_i64, i64_text, lossy_text, lower_text, owned, parse_i64, text_eq, to_lower_text,
    to_upper_text, trim_text, trimmed, upper_text, utf8_lossy,
};
use crate::watch_registry::{VersionTable, WatchRegistry};
use feoxdb::FeoxStore;
use std::sync::Arc;
use vstd::prelude::*;
use vstd::slice::slice_to_vec;
use vstd::string::StringSliceAdditionalSpecFns;

verus! {

/// `+OK`.
pub open spec fn ok_view() -> RespView {
    RespView::SimpleString(seq![0x4fu8, 0x4bu8])
}

/// An error reply `ERR ` + `message`.
pub open spec fn error_view(message: Seq<char>) -> RespView {
    RespView::Error("ERR "@ + message)
}

/// The null bulk string.
pub open spec fn nil_view() -> RespView {
    RespView::BulkString(None)
}

pub open spec fn bulk_view(b: Seq<u8>) -> RespView {
    RespView::BulkString(Some(b))
}

/// A store outcome with its value and error as views.
pub open spec fn store_outcome<T: View>(r: Result<T, StoreError>) -> Result<T::V, StoreErrorView> {
    match r {
        Ok(t) => Ok(t@),
        Err(e) => Err(e@),
    }
}

/// The reply to GET: the value, nil for a missing key, else the error.
pub open spec fn get_reply_view(r: Result<Seq<u8>, StoreErrorView>) -> RespView {
    match r {
        Ok(v) => bulk_view(v),
        Err(e) => if e.key_not_found {
            nil_view()
        } else {
            error_view(e.message)
        },
    }
}

/// The reply to a write: `+OK`, else the error.
pub open spec fn write_reply_view<T>(r: Result<T, StoreErrorView>) -> RespView {
    match r {
        Ok(_) => ok_view(),
        Err(e) => error_view(e.message),
    }
}

/// The reply to EXPIRE, PEXPIRE and PERSIST: 1 when done, 0 for a missing key.
pub open spec fn flag_reply_view(r: Result<(), StoreErrorView>) -> RespView {
    match r {
        Ok(_) => RespView::Integer(1),
        Err(e) => if e.key_not_found {
            RespView::Integer(0)
        } else {
            error_view(e.message)
        },
    }
}

/// The reply to TTL (seconds) and PTTL (milliseconds): -1 without expiry,
/// -2 for a missing key.
pub open spec fn ttl_reply_view(r: Result<Option<u64>, StoreErrorView>, millis: bool) -> RespView {
    match r {
        Ok(Some(t)) => RespView::Integer(
            if millis {
                (t * 1000) as i64
            } else {
                t as i64
            },
        ),
        Ok(None) => RespView::Integer(-1i64),
        Err(e) => if e.key_not_found {
            RespView::Integer(-2i64)
        } else {
            error_view(e.message)
        },
    }
}

/// The reply to CAS: `+OK` when swapped, an error when the value was not the
/// expected one, else the store's error.
pub open spec fn cas_reply_view(r: Result<bool, StoreErrorView>) -> RespView {
    match r {
        Ok(swapped) => if swapped {
            ok_view()
        } else {
            error_view("CAS failed: value does not match expected"@)
        },
        Err(e) => error_view(e.message),
    }
}

/// The reply to JSONPATCH: after a patch that took, what the key holds then
/// (the patched document), read as GET reads it; else the patch's error.
pub open spec fn json_patch_reply_view(patch: Result<(), StoreErrorView>, read: Result<Seq<u8>, StoreErrorView>) -> RespView {
    match patch {
        Ok(_) => get_reply_view(read),
        Err(e) => error_view(e.message),
    }
}

/// The time to live SET asks for, in seconds: EX, else PX rounded down to
/// seconds, else none.
pub open spec fn set_ttl(ex: Option<u64>, px: Option<u64>) -> Option<u64> {
    match ex {
        Some(s) => Some(s),
        None => match px {
            Some(m) => Some(m / 1000),
            None => None,
        },
    }
}

/// The reply to INCR and its kin, for the outcomes of the store's atomic
/// increment `a`, of the read `o` of the stored text and of writing the sum
/// back `w`: the counter when the atomic increment worked; else the stored
/// number (0 when missing) plus `delta`, wrapping, once written; else the
/// error met on the way.
pub open spec fn incr_reply_view(
    a: Result<i64, StoreErrorView>,
    o: Result<Seq<u8>, StoreErrorView>,
    w: Result<(), StoreErrorView>,
    delta: i64,
) -> RespView {
    match a {
        Ok(v) => RespView::Integer(v),
        Err(_) => match incr_base(o) {
            Err(reply) => reply,
            Ok(b) => match w {
                Ok(_) => RespView::Integer(b.wrapping_add(delta)),
                Err(e) => error_view(e.message),
            },
        },
    }
}

/// `+OK`.
pub fn ok_reply() -> (r: RespValue)
    ensures
        r@ == ok_view(),
{
    let mut text: Vec<u8> = Vec::new();
    text.push(0x4fu8);
    text.push(0x4bu8);
    assert(text@ =~= seq![0x4fu8, 0x4bu8]);
    RespValue::SimpleString(text)
}

/// An error reply `ERR ` + `message`.
pub fn error_reply(message: &str) -> (r: RespValue)
    ensures
        r@ == error_view(message@),
{
    let mut text = owned("ERR ");
    text.append(message);
    RespValue::Error(text)
}

/// An error reply with exactly the text `message`.
pub fn plain_error(message: &str) -> (r: RespValue)
    ensures
        r@ == RespView::Error(message@),
{
    RespValue::Error(owned(message))
}

fn outcome_of<T>(r: Result<T, feoxdb::FeoxError>) -> (o: Result<T, StoreError>)
    ensures
        r is Ok <==> o is Ok,
        r matches Ok(t) ==> o == Ok::<T, StoreError>(t),
{
    match r {
        Ok(t) => Ok(t),
        Err(e) => Err(store_error(e)),
    }
}

/// The reply to GET for a lookup's outcome.
pub fn get_reply(r: Result<Vec<u8>, StoreError>) -> (reply: RespValue)
    ensures
        reply@ == get_reply_view(store_outcome(r)),
{
    match r {
        Ok(v) => RespValue::BulkString(Some(v)),
        Err(e) => if e.key_not_found {
            RespValue::BulkString(None)
        } else {
            error_reply(e.message.as_str())
        },
    }
}

/// The reply to a write for its outcome.
pub fn write_reply<T: View>(r: Result<T, StoreError>) -> (reply: RespValue)
    ensures
        reply@ == write_reply_view(store_outcome(r)),
{
    match r {
        Ok(_) => ok_reply(),
        Err(e) => error_reply(e.message.as_str()),
    }
}

/// The reply to EXPIRE, PEXPIRE and PERSIST for the update's outcome.
pub fn flag_reply(r: Result<(), StoreError>) -> (reply: RespValue)
    ensures
        reply@ == flag_reply_view(store_outcome(r)),
{
    match r {
        Ok(_) => RespValue::Integer(1),
        Err(e) => if e.key_not_found {
            RespValue::Integer(0)
        } else {
            error_reply(e.message.as_str())
        },
    }
}

/// The reply to TTL or PTTL for the lookup's outcome.
pub fn ttl_reply(r: Result<Option<u64>, StoreError>, millis: bool) -> (reply: RespValue)
    requires
        r matches Ok(Some(t)) ==> t <= u64::MAX / 1_000_000_000,
    ensures
        reply@ == ttl_reply_view(store_outcome(r), millis),
{
    match r {
        Ok(Some(t)) => if millis {
            RespValue::Integer((t * 1000) as i64)
        } else {
            RespValue::Integer(t as i64)
        },
        Ok(None) => RespValue::Integer(-1),
        Err(e) => if e.key_not_found {
            RespValue::Integer(-2)
        } else {
            error_reply(e.message.as_str())
        },
    }
}

/// The reply to CAS for the swap's outcome.
pub fn cas_reply(r: Result<bool, StoreError>) -> (reply: RespValue)
    ensures
        reply@ == cas_reply_view(store_outcome(r)),
{
    match r {
        Ok(swapped) => if swapped {
            ok_reply()
        } else {
            error_reply("CAS failed: value does not match expected")
        },
        Err(e) => error_reply(e.message.as_str()),
    }
}

/// The time to live SET asks for, in seconds.
pub fn ttl_seconds(ex: Option<u64>, px: Option<u64>) -> (r: Option<u64>)
    ensures
        r == set_ttl(ex, px),
{
    match ex {
        Some(s) => Some(s),
        None => match px {
            Some(m) => Some(m / 1000),
            None => None,
        },
    }
}

/// The counter the fallback path of INCR writes back: `base` plus `delta`,
/// wrapping, with its decimal text.
pub fn counter_after(base: i64, delta: i64) -> (r: (i64, Vec<u8>))
    ensures
        r.0 == base.wrapping_add(delta),
        r.1@ == decimal_bytes(r.0 as int),
{
    let n = base.wrapping_add(delta);
    let text = i64_text(n);
    (n, slice_to_vec(text.as_str().as_bytes()))
}

/// Bulk strings holding `items`.
pub open spec fn bulk_items(items: Seq<Seq<u8>>) -> Seq<RespView> {
    items.map_values(|b: Seq<u8>| bulk_view(b))
}

/// HGETALL's items for field-value pairs: each field followed by its value.
pub open spec fn field_value_views(pairs: Seq<(Seq<u8>, Seq<u8>)>) -> Seq<RespView>
    decreases pairs.len(),
{
    if pairs.len() == 0 {
        Seq::empty()
    } else {
        field_value_views(pairs.drop_last()) + seq![bulk_view(pairs.last().0), bulk_view(pairs.last().1)]
    }
}

/// HINCRBY's reply for what the hash operation returned.
pub open spec fn hincrby_reply_view(r: Result<i64, HashError>) -> RespView {
    match r {
        Ok(v) => RespView::Integer(v),
        Err(e) => error_view(hash_error_text(e)),
    }
}

/// A RESP array of bulk strings.
pub open spec fn bulk_array(items: Seq<Seq<u8>>) -> RespView {
    RespView::Array(Some(bulk_items(items)))
}

/// An array reply of bulk strings holding `items`.
pub fn bulk_list(items: Vec<Vec<u8>>) -> (r: RespValue)
    ensures
        r@ == bulk_array(byte_views(items@)),
{
    let mut out: Vec<RespValue> = Vec::new();
    let mut k: usize = 0;
    while k < items.len()
        invariant
            k <= items@.len(),
            out@.len() == k,
            forall|j: int| 0 <= j < k ==> (#[trigger] out@[j])@ == bulk_view(items@[j]@),
        decreases items@.len() - k,
    {
        let item = RespValue::BulkString(Some(slice_to_vec(items[k].as_slice())));
        assert(item@ == bulk_view(items@[k as int]@));
        out.push(item);
        k += 1;
    }
    proof {
        lemma_array_view(out);
        assert(views(out@) =~= bulk_items(byte_views(items@)));
    }
    RespValue::Array(Some(out))
}

/// The counter the fallback path of INCR starts from: the stored text, trimmed,
/// read as a decimal `i64`; 0 for a missing key.
pub open spec fn incr_base(r: Result<Seq<u8>, StoreErrorView>) -> Result<i64, RespView> {
    match r {
        Ok(bytes) => match decimal_i64(trimmed(lossy_text(bytes))) {
            Some(v) => Ok(v),
            None => Err(RespView::Error("ERR value is not an integer or out of range"@)),
        },
        Err(e) => if e.key_not_found {
            Ok(0)
        } else {
            Err(error_view(e.message))
        },
    }
}

/// The counter the fallback path of INCR starts from, for a read's outcome;
/// the reply to give instead when there is none.
pub fn incr_base_value(r: Result<Vec<u8>, StoreError>) -> (v: Result<i64, RespValue>)
    ensures
        match v {
            Ok(n) => incr_base(store_outcome(r)) == Ok::<i64, RespView>(n),
            Err(reply) => incr_base(store_outcome(r)) == Err::<i64, RespView>(reply@),
        },
{
    match r {
        Ok(bytes) => {
            let text = utf8_lossy(bytes.as_slice());
            match parse_i64(trim_text(text.as_str())) {
                Some(n) => Ok(n),
                None => Err(plain_error("ERR value is not an integer or out of range")),
            }
        },
        Err(e) => if e.key_not_found {
            Ok(0)
        } else {
            Err(error_reply(e.message.as_str()))
        },
    }
}

/// The value CONFIG GET reports for a parameter.
pub open spec fn config_value(name: Seq<char>) -> Seq<char> {
    if name == "maxmemory"@ {
        "0"@
    } else if name == "maxclients"@ {
        "10000"@
    } else if name == "timeout"@ {
        "0"@
    } else if name == "tcp-keepalive"@ {
        "300"@
    } else if name == "databases"@ {
        "16"@
    } else {
        "0"@
    }
}

/// Each requested parameter followed by its value.
pub open spec fn config_pairs(args: Seq<Seq<u8>>) -> Seq<RespView>
    decreases args.len(),
{
    if args.len() == 0 {
        Seq::empty()
    } else {
        config_pairs(args.drop_last()).push(bulk_view(args.last())).push(
            bulk_view(vstd::utf8::encode_utf8(config_value(lower_text(lossy_text(args.last()))))),
        )
    }
}

/// The reply to CONFIG: GET lists fixed values, SET pretends to succeed.
pub open spec fn config_reply_view(action: Seq<char>, args: Seq<Seq<u8>>) -> RespView {
    if upper_text(action) == "GET"@ {
        RespView::Array(Some(config_pairs(args)))
    } else if upper_text(action) == "SET"@ {
        ok_view()
    } else {
        error_view("Unknown CONFIG subcommand '"@ + action + "'"@)
    }
}

fn config_lookup(name: &str) -> (r: &'static str)
    ensures
        r@ == config_value(name@),
{
    if text_eq(name, "maxmemory") {
        "0"
    } else if text_eq(name, "maxclients") {
        "10000"
    } else if text_eq(name, "timeout") {
        "0"
    } else if text_eq(name, "tcp-keepalive") {
        "300"
    } else if text_eq(name, "databases") {
        "16"
    } else {
        "0"
    }
}

/// The reply to CONFIG `action` with `args`.
pub fn config_reply(action: &str, args: Vec<Vec<u8>>) -> (r: RespValue)
    ensures
        r@ == config_reply_view(action@, byte_views(args@)),
{
    let upper = to_upper_text(action);
    if text_eq(upper.as_str(), "GET") {
        let mut results: Vec<RespValue> = Vec::new();
        let mut k: usize = 0;
        while k < args.len()
            invariant
                k <= args@.len(),
                views(results@) == config_pairs(byte_views(args@).take(k as int)),
            decreases args@.len() - k,
        {
            let ghost before = results@;
            let name = to_lower_text(utf8_lossy(args[k].as_slice()).as_str());
            let value = config_lookup(name.as_str());
            let first = RespValue::BulkString(Some(slice_to_vec(args[k].as_slice())));
            let second = RespValue::BulkString(Some(slice_to_vec(value.as_bytes())));
            results.push(first);
            results.push(second);
            proof {
                let prefix = byte_views(args@).take(k + 1);
                assert(prefix.drop_last() =~= byte_views(args@).take(k as int));
                assert(views(results@) =~= views(before).push(first@).push(second@));
            }
            k += 1;
        }
        proof {
            assert(byte_views(args@).take(k as int) =~= byte_views(args@));
            lemma_array_view(results);
        }
        RespValue::Array(Some(results))
    } else if text_eq(upper.as_str(), "SET") {
        ok_reply()
    } else {
        RespValue::Error(concat_error3("Unknown CONFIG subcommand '", action, "'"))
    }
}

/// `ERR ` + `a` + `b` + `c`.
fn concat_error3(a: &str, b: &str, c: &str) -> (r: String)
    ensures
        r@ == "ERR "@ + (a@ + b@ + c@),
{
    let mut text = owned("ERR ");
    text.append(a);
    text.append(b);
    text.append(c);
    proof {
        assert(text@ =~= "ERR "@ + (a@ + b@ + c@));
    }
    text
}

/// Whether a key, read as text, matches a glob pattern.
pub open spec fn key_matches(key: Seq<u8>, pattern: Seq<u8>) -> bool {
    glob_matches(pattern, vstd::utf8::encode_utf8(lossy_text(key)))
}

/// The keys of a range read that match `pattern`, in order.
pub open spec fn matching_keys(pairs: Seq<(Seq<u8>, Seq<u8>)>, pattern: Seq<u8>) -> Seq<Seq<u8>>
    decreases pairs.len(),
{
    if pairs.len() == 0 {
        Seq::empty()
    } else {
        let rest = matching_keys(pairs.drop_last(), pattern);
        if key_matches(pairs.last().0, pattern) {
            rest.push(pairs.last().0)
        } else {
            rest
        }
    }
}

/// The keys of a range read that match `pattern`.
pub fn keys_matching(pairs: Vec<(Vec<u8>, Vec<u8>)>, pattern: &str) -> (r: Vec<Vec<u8>>)
    ensures
        byte_views(r@) == matching_keys(pair_views(pairs@), pattern.spec_bytes()),
{
    let mut r: Vec<Vec<u8>> = Vec::new();
    let mut k: usize = 0;
    while k < pairs.len()
        invariant
            k <= pairs@.len(),
            byte_views(r@) == matching_keys(pair_views(pairs@.take(k as int)), pattern.spec_bytes()),
        decreases pairs@.len() - k,
    {
        assert(pair_views(pairs@.take(k + 1)).drop_last() =~= pair_views(pairs@.take(k as int)));
        if match_pattern(pairs[k].0.as_slice(), pattern) {
            let ghost before = r@;
            let key = slice_to_vec(pairs[k].0.as_slice());
            r.push(key);
            assert(byte_views(r@) =~= byte_views(before).push(key@));
        }
        k += 1;
    }
    assert(pairs@.take(k as int) =~= pairs@);
    r
}

/// What SCAN collects from a range read, from index `i` on: up to `count`
/// keys (matching the pattern, if any), and the key after them when more remain.
pub open spec fn scan_walk(
    keys: Seq<Seq<u8>>,
    i: int,
    count: nat,
    pattern: Option<Seq<u8>>,
    found: Seq<Seq<u8>>,
) -> (Seq<Seq<u8>>, Option<Seq<u8>>)
    decreases keys.len() - i,
{
    if i < 0 || i >= keys.len() {
        (found, None)
    } else if found.len() >= count {
        (found, Some(keys[i]))
    } else if pattern is Some && !key_matches(keys[i], pattern->0) {
        scan_walk(keys, i + 1, count, pattern, found)
    } else {
        scan_walk(keys, i + 1, count, pattern, found.push(keys[i]))
    }
}

/// One page of SCAN over the keys of a range read.
pub fn scan_page(pairs: Vec<(Vec<u8>, Vec<u8>)>, count: usize, pattern: Option<&str>) -> (r: (
    Vec<Vec<u8>>,
    Option<Vec<u8>>,
))
    ensures
        (byte_views(r.0@), match r.1 {
            Some(c) => Some(c@),
            None => None,
        }) == scan_walk(
            firsts(pair_views(pairs@)),
            0,
            count as nat,
            match pattern {
                Some(p) => Some(p.spec_bytes()),
                None => None,
            },
            Seq::empty(),
        ),
{
    let ghost keys = firsts(pair_views(pairs@));
    let ghost pat = match pattern {
        Some(p) => Some(p.spec_bytes()),
        None => None,
    };
    let mut found: Vec<Vec<u8>> = Vec::new();
    let mut k: usize = 0;
    assert(byte_views(found@) =~= Seq::<Seq<u8>>::empty());
    while k < pairs.len()
        invariant
            keys == firsts(pair_views(pairs@)),
            pat == (match pattern {
                Some(p) => Some(p.spec_bytes()),
                None => None,
            }),
            k <= pairs@.len(),
            scan_walk(keys, k as int, count as nat, pat, byte_views(found@)) == scan_walk(
                keys,
                0,
                count as nat,
                pat,
                Seq::empty(),
            ),
        decreases pairs@.len() - k,
    {
        assert(keys[k as int] == pairs@[k as int].0@);
        if found.len() >= count {
            let next = slice_to_vec(pairs[k].0.as_slice());
            return (found, Some(next));
        }
        let keep = match pattern {
            Some(p) => match_pattern(pairs[k].0.as_slice(), p),
            None => true,
        };
        if keep {
            let ghost before = found@;
            let key = slice_to_vec(pairs[k].0.as_slice());
            found.push(key);
            assert(byte_views(found@) =~= byte_views(before).push(key@));
        }
        k += 1;
    }
    (found, None)
}

/// Once `found` is within `count` and matches the pattern, so is all SCAN
/// collects.
proof fn lemma_scan_walk(keys: Seq<Seq<u8>>, i: int, count: nat, pattern: Option<Seq<u8>>, found: Seq<Seq<u8>>)
    requires
        found.len() <= count,
        pattern matches Some(p) ==> forall|j: int| 0 <= j < found.len() ==> key_matches(#[trigger] found[j], p),
    ensures
        scan_walk(keys, i, count, pattern, found).0.len() <= count,
        pattern matches Some(p) ==> forall|j: int|
            0 <= j < scan_walk(keys, i, count, pattern, found).0.len() ==> key_matches(
                #[trigger] scan_walk(keys, i, count, pattern, found).0[j],
                p,
            ),
    decreases keys.len() - i,
{
    if i < 0 || i >= keys.len() {
    } else if found.len() >= count {
    } else if pattern is Some && !key_matches(keys[i], pattern->0) {
        lemma_scan_walk(keys, i + 1, count, pattern, found);
    } else {
        let next = found.push(keys[i]);
        assert forall|j: int| 0 <= j < next.len() && pattern is Some implies key_matches(#[trigger] next[j], pattern->0) by {
            if j < found.len() {
                assert(next[j] == found[j]);
            }
        }
        lemma_scan_walk(keys, i + 1, count, pattern, next);
    }
}

/// Keys in strictly ascending byte order, all at or after `lo`.
pub open spec fn ascending_from(keys: Seq<Seq<u8>>, lo: Seq<u8>) -> bool {
    &&& forall|i: int| 0 <= i < keys.len() ==> bytes_le(lo, #[trigger] keys[i])
    &&& forall|i: int, j: int|
        0 <= i < j < keys.len() ==> bytes_le(#[trigger] keys[i], #[trigger] keys[j]) && keys[i] != keys[j]
}

/// Every collected key is at or after `lo`, and before every key from `i` on.
pub open spec fn collected_before(keys: Seq<Seq<u8>>, i: int, found: Seq<Seq<u8>>, lo: Seq<u8>) -> bool {
    forall|j: int|
        0 <= j < found.len() ==> bytes_le(lo, #[trigger] found[j]) && forall|m: int|
            i <= m < keys.len() ==> bytes_le(found[j], #[trigger] keys[m]) && found[j] != keys[m]
}

proof fn lemma_scan_order(
    keys: Seq<Seq<u8>>,
    i: int,
    count: nat,
    pattern: Option<Seq<u8>>,
    found: Seq<Seq<u8>>,
    lo: Seq<u8>,
)
    requires
        0 <= i,
        ascending_from(keys, lo),
        collected_before(keys, i, found, lo),
    ensures
        forall|j: int|
            0 <= j < scan_walk(keys, i, count, pattern, found).0.len() ==> bytes_le(
                lo,
                #[trigger] scan_walk(keys, i, count, pattern, found).0[j],
            ),
        scan_walk(keys, i, count, pattern, found).1 matches Some(n) ==> bytes_le(lo, n) && forall|j: int|
            0 <= j < scan_walk(keys, i, count, pattern, found).0.len() ==> bytes_le(
                #[trigger] scan_walk(keys, i, count, pattern, found).0[j],
                n,
            ) && scan_walk(keys, i, count, pattern, found).0[j] != n,
    decreases keys.len() - i,
{
    if i >= keys.len() {
    } else if found.len() >= count {
        assert forall|j: int| 0 <= j < found.len() implies bytes_le(#[trigger] found[j], keys[i]) && found[j]
            != keys[i] by {
            assert(i <= i < keys.len());
        }
    } else if pattern is Some && !key_matches(keys[i], pattern->0) {
        lemma_scan_order(keys, i + 1, count, pattern, found, lo);
    } else {
        let next = found.push(keys[i]);
        assert forall|j: int| 0 <= j < next.len() implies bytes_le(lo, #[trigger] next[j]) && forall|m: int|
            i + 1 <= m < keys.len() ==> bytes_le(next[j], #[trigger] keys[m]) && next[j] != keys[m] by {
            if j < found.len() {
                assert(next[j] == found[j]);
            } else {
                assert(next[j] == keys[i]);
                assert forall|m: int| i + 1 <= m < keys.len() implies bytes_le(next[j], #[trigger] keys[m])
                    && next[j] != keys[m] by {
                    assert(bytes_le(keys[i], keys[m]) && keys[i] != keys[m]);
                }
            }
        }
        lemma_scan_order(keys, i + 1, count, pattern, next, lo);
    }
}

/// SCAN pages progress through the key space: over keys read in ascending
/// byte order from `lo` on, a page lists only keys at or after `lo`, and the
/// next cursor it gives is at or after `lo` and after every key listed.
pub proof fn law_scan_page_progresses(keys: Seq<Seq<u8>>, count: nat, pattern: Option<Seq<u8>>, lo: Seq<u8>)
    requires
        ascending_from(keys, lo),
    ensures
        forall|j: int|
            0 <= j < scan_walk(keys, 0, count, pattern, Seq::empty()).0.len() ==> bytes_le(
                lo,
                #[trigger] scan_walk(keys, 0, count, pattern, Seq::empty()).0[j],
            ),
        scan_walk(keys, 0, count, pattern, Seq::empty()).1 matches Some(n) ==> bytes_le(lo, n) && forall|j: int|
            0 <= j < scan_walk(keys, 0, count, pattern, Seq::empty()).0.len() ==> bytes_le(
                #[trigger] scan_walk(keys, 0, count, pattern, Seq::empty()).0[j],
                n,
            ) && scan_walk(keys, 0, count, pattern, Seq::empty()).0[j] != n,
{
    lemma_scan_order(keys, 0, count, pattern, Seq::empty(), lo);
}

/// Where a SCAN cursor starts the read: nowhere in particular (the first
/// key) for an empty cursor or `0`, else at the cursor key.
pub open spec fn scan_floor(cursor: Seq<u8>) -> Seq<u8> {
    if cursor.len() == 0 || cursor == seq![0x30u8] {
        Seq::empty()
    } else {
        cursor
    }
}

/// A SCAN reply for `cursor`: every key listed is at or after the cursor key,
/// and the next cursor is `0` or a key at or after the cursor key and after
/// every key listed.
pub open spec fn scan_reply_from(r: RespView, cursor: Seq<u8>) -> bool {
    match r {
        RespView::Array(Some(parts)) => parts.len() == 2 ==> match parts[1] {
            RespView::Array(Some(items)) => listed_from(items, scan_floor(cursor)) && match bulk_key(parts[0]) {
                Some(n) => n == seq![0x30u8] || next_after(items, n, scan_floor(cursor)),
                None => false,
            },
            _ => true,
        },
        _ => true,
    }
}

/// Every item is a key at or after `lo`.
pub open spec fn listed_from(items: Seq<RespView>, lo: Seq<u8>) -> bool {
    forall|i: int|
        0 <= i < items.len() ==> (#[trigger] bulk_key(items[i])) is Some && bytes_le(lo, bulk_key(items[i])->0)
}

/// `n` is at or after `lo` and after every key listed.
pub open spec fn next_after(items: Seq<RespView>, n: Seq<u8>, lo: Seq<u8>) -> bool {
    bytes_le(lo, n) && forall|i: int|
        0 <= i < items.len() ==> bytes_le(#[trigger] bulk_key(items[i])->0, n) && bulk_key(items[i])->0 != n
}

/// The key a bulk string reply holds.
pub open spec fn bulk_key(v: RespView) -> Option<Seq<u8>> {
    match v {
        RespView::BulkString(Some(k)) => Some(k),
        _ => None,
    }
}

/// Whether a SCAN reply is an error, or a cursor and at most `count` keys,
/// all matching `pattern` when one is given.
pub open spec fn scan_reply_ok(r: RespView, count: usize, pattern: Option<Seq<u8>>) -> bool {
    match r {
        RespView::Error(_) => true,
        RespView::Array(Some(parts)) => parts.len() == 2 && parts[0] is BulkString && match parts[1] {
            RespView::Array(Some(items)) => items.len() <= count && forall|i: int|
                0 <= i < items.len() ==> #[trigger] bulk_key(items[i]) is Some && (pattern is Some ==> key_matches(
                    bulk_key(items[i])->0,
                    pattern->0,
                )),
            _ => false,
        },
        _ => false,
    }
}

/// Whether a KEYS reply is an error or lists keys that match `pattern` (or are
/// `pattern` itself, for a pattern without wildcards).
pub open spec fn keys_reply_ok(r: RespView, pattern: Seq<u8>) -> bool {
    match r {
        RespView::Error(_) => true,
        RespView::Array(Some(items)) => forall|i: int|
            0 <= i < items.len() ==> #[trigger] bulk_key(items[i]) is Some && (key_matches(bulk_key(items[i])->0, pattern)
                || bulk_key(items[i])->0 == pattern),
        _ => false,
    }
}

/// A copy of `bytes` followed by `~`.
fn with_tilde(bytes: &[u8]) -> (r: Vec<u8>)
    ensures
        r@ == bytes@.push(0x7eu8),
{
    let mut r = slice_to_vec(bytes);
    r.push(0x7eu8);
    r
}

/// The upper bound of a whole-keyspace range read: 255 bytes of 0xFF.
fn top_key() -> (r: Vec<u8>)
    ensures
        r@ == Seq::new(255, |i: int| 0xffu8),
{
    let mut r: Vec<u8> = Vec::new();
    let mut k: usize = 0;
    while k < 255
        invariant
            k <= 255,
            r@ == Seq::new(k as nat, |i: int| 0xffu8),
        decreases 255 - k,
    {
        r.push(0xffu8);
        k += 1;
        assert(r@ =~= Seq::new(k as nat, |i: int| 0xffu8));
    }
    r
}

/// Where KEYS stops reading for a pattern's literal prefix: 255 bytes of
/// 0xFF for an empty prefix, else the prefix followed by `~`.
pub open spec fn keys_end(prefix: Seq<u8>) -> Seq<u8> {
    if prefix.len() == 0 {
        Seq::new(255, |i: int| 0xffu8)
    } else {
        prefix.push(0x7eu8)
    }
}

/// The range KEYS reads for a pattern's literal prefix: from the prefix to
/// `keys_end(prefix)`.
fn keys_range(prefix: &[u8]) -> (r: (Vec<u8>, Vec<u8>))
    ensures
        r.0@ == prefix@,
        r.1@ == keys_end(prefix@),
{
    if prefix.len() == 0 {
        (Vec::new(), top_key())
    } else {
        (slice_to_vec(prefix), with_tilde(prefix))
    }
}

proof fn lemma_le_of_prefix(a: Seq<u8>, b: Seq<u8>)
    requires
        a.is_prefix_of(b),
    ensures
        bytes_le(a, b),
    decreases a.len(),
{
    if a.len() > 0 {
        assert(a[0] == b[0]);
        assert(a.drop_first().is_prefix_of(b.drop_first())) by {
            assert forall|i: int| 0 <= i < a.drop_first().len() implies a.drop_first()[i] == b.drop_first()[i] by {
                assert(a[i + 1] == b[i + 1]);
            }
        }
        lemma_le_of_prefix(a.drop_first(), b.drop_first());
    }
}

proof fn lemma_le_top(k: Seq<u8>, n: nat)
    requires
        k.len() <= n,
    ensures
        bytes_le(k, Seq::new(n, |i: int| 0xffu8)),
    decreases k.len(),
{
    let top = Seq::new(n, |i: int| 0xffu8);
    if k.len() > 0 && k[0] == 0xffu8 {
        assert(top.drop_first() =~= Seq::new((n - 1) as nat, |i: int| 0xffu8));
        lemma_le_top(k.drop_first(), (n - 1) as nat);
    }
}

proof fn lemma_le_tilde(prefix: Seq<u8>, k: Seq<u8>)
    requires
        prefix.is_prefix_of(k),
        k.len() > prefix.len() ==> k[prefix.len() as int] < 0x7eu8,
    ensures
        bytes_le(k, prefix.push(0x7eu8)),
    decreases prefix.len(),
{
    let end = prefix.push(0x7eu8);
    if prefix.len() == 0 {
        if k.len() > 0 {
            assert(k[0] < 0x7eu8);
            assert(end[0] == 0x7eu8);
        }
    } else {
        assert(k[0] == end[0]);
        assert(end.drop_first() =~= prefix.drop_first().push(0x7eu8));
        assert(prefix.drop_first().is_prefix_of(k.drop_first())) by {
            assert forall|i: int|
                0 <= i < prefix.drop_first().len() implies prefix.drop_first()[i] == k.drop_first()[i] by {
                assert(prefix[i + 1] == k[i + 1]);
            }
        }
        if k.drop_first().len() > prefix.drop_first().len() {
            assert(k.drop_first()[prefix.drop_first().len() as int] == k[prefix.len() as int]);
        }
        lemma_le_tilde(prefix.drop_first(), k.drop_first());
    }
}

/// KEYS reads every key its pattern can match: a key the glob pattern `p`
/// matches lies between the pattern's literal prefix and `keys_end` of it,
/// when it is at most 255 bytes long (for a pattern with no literal prefix)
/// or its byte after the prefix, if any, is below `~`.
pub proof fn law_keys_range_covers_matches(p: Seq<u8>, t: Seq<u8>)
    requires
        glob_matches(p, t),
        prefix_end(p, 0) == 0 ==> t.len() <= 255,
        prefix_end(p, 0) > 0 && t.len() > prefix_end(p, 0) ==> t[prefix_end(p, 0)] < 0x7eu8,
    ensures
        bytes_le(p.take(prefix_end(p, 0)), t),
        bytes_le(t, keys_end(p.take(prefix_end(p, 0)))),
{
    law_match_starts_with_prefix(p, t);
    let prefix = p.take(prefix_end(p, 0));
    lemma_prefix_end_bounds(p, 0);
    lemma_le_of_prefix(prefix, t);
    if prefix.len() == 0 {
        lemma_le_top(t, 255);
    } else {
        lemma_le_tilde(prefix, t);
    }
}

/// Whether `bytes` is the single character `0`.
fn is_zero_cursor(bytes: &[u8]) -> (r: bool)
    ensures
        r == (bytes@ == seq![0x30u8]),
{
    if bytes.len() != 1 {
        return false;
    }
    let r = bytes[0] == 0x30u8;
    assert(r ==> bytes@ =~= seq![0x30u8]);
    r
}

/// Whether `text` holds a `*`.
fn has_star(text: &str) -> (r: bool)
    ensures
        r == text.spec_bytes().contains(0x2au8),
{
    let bytes = text.as_bytes();
    let mut k: usize = 0;
    while k < bytes.len()
        invariant
            k <= bytes@.len(),
            bytes@ == text.spec_bytes(),
            forall|j: int| 0 <= j < k ==> bytes@[j] != 0x2au8,
        decreases bytes@.len() - k,
    {
        if bytes[k] == 0x2au8 {
            return true;
        }
        k += 1;
    }
    false
}

/// The bytes of a text pattern, if any.
pub open spec fn pattern_bytes(p: Option<String>) -> Option<Seq<u8>> {
    match p {
        Some(t) => Some(vstd::utf8::encode_utf8(t@)),
        None => None,
    }
}

/// Commands whose replies the library leaves to its caller: INFO, whose report
/// holds floating-point figures, and the list, CLIENT and COMMAND commands,
/// whose handlers are not part of this library.
pub open spec fn answered_elsewhere(c: CommandView) -> bool {
    ||| c is Info
    ||| c is LPush
    ||| c is RPush
    ||| c is LPop
    ||| c is RPop
    ||| c is LLen
    ||| c is LRange
    ||| c is LIndex
    ||| c is Client
    ||| (c matches CommandView::Command { subcommand, .. } && needs_command_table(subcommand))
}

/// Whether a COMMAND request is answered from the table of command
/// descriptions: COMMAND alone, COUNT, INFO and LIST.
pub open spec fn needs_command_table(subcommand: Option<Seq<char>>) -> bool {
    match subcommand {
        None => true,
        Some(s) => upper_text(s) == "COUNT"@ || upper_text(s) == "INFO"@ || upper_text(s) == "LIST"@,
    }
}

/// A help line of COMMAND HELP, as a bulk string.
pub open spec fn help_line(text: Seq<char>) -> RespView {
    bulk_view(vstd::utf8::encode_utf8(text))
}

/// The reply to COMMAND HELP.
pub open spec fn command_help_view() -> RespView {
    RespView::Array(
        Some(
            seq![
                help_line("COMMAND"@),
                help_line("COMMAND COUNT"@),
                help_line("COMMAND INFO <command-name> [<command-name> ...]"@),
                help_line("COMMAND LIST"@),
                help_line("COMMAND DOCS [<command-name> ...]"@),
            ],
        ),
    )
}

/// The reply to a COMMAND subcommand that needs no command table: DOCS lists
/// nothing, HELP lists the forms of COMMAND, anything else is refused.
pub open spec fn command_reply_view(sub: Seq<char>) -> RespView {
    if upper_text(sub) == "DOCS"@ {
        RespView::Array(Some(Seq::empty()))
    } else if upper_text(sub) == "HELP"@ {
        command_help_view()
    } else {
        error_view("Unknown subcommand '"@ + sub + "'. Try COMMAND HELP."@)
    }
}

/// Whether a COMMAND request is answered from the table of command descriptions.
pub fn uses_command_table(subcommand: &Option<String>) -> (r: bool)
    ensures
        r == needs_command_table(opt_text(*subcommand)),
{
    match subcommand {
        None => true,
        Some(s) => {
            let upper = to_upper_text(s.as_str());
            text_eq(upper.as_str(), "COUNT") || text_eq(upper.as_str(), "INFO") || text_eq(upper.as_str(), "LIST")
        },
    }
}

fn help_line_value(text: &str) -> (r: RespValue)
    ensures
        r@ == help_line(text@),
{
    RespValue::BulkString(Some(slice_to_vec(text.as_bytes())))
}

/// The reply to a COMMAND subcommand that needs no command table.
fn command_subcommand_reply(sub: &str) -> (r: RespValue)
    ensures
        r@ == command_reply_view(sub@),
{
    let upper = to_upper_text(sub);
    if text_eq(upper.as_str(), "DOCS") {
        let none: Vec<RespValue> = Vec::new();
        proof {
            lemma_array_view(none);
            assert(views(none@) =~= Seq::<RespView>::empty());
        }
        RespValue::Array(Some(none))
    } else if text_eq(upper.as_str(), "HELP") {
        let mut lines: Vec<RespValue> = Vec::new();
        lines.push(help_line_value("COMMAND"));
        lines.push(help_line_value("COMMAND COUNT"));
        lines.push(help_line_value("COMMAND INFO <command-name> [<command-name> ...]"));
        lines.push(help_line_value("COMMAND LIST"));
        lines.push(help_line_value("COMMAND DOCS [<command-name> ...]"));
        proof {
            lemma_array_view(lines);
            assert(views(lines@) =~= seq![
                help_line("COMMAND"@),
                help_line("COMMAND COUNT"@),
                help_line("COMMAND INFO <command-name> [<command-name> ...]"@),
                help_line("COMMAND LIST"@),
                help_line("COMMAND DOCS [<command-name> ...]"@),
            ]);
        }
        RespValue::Array(Some(lines))
    } else {
        RespValue::Error(concat_error3("Unknown subcommand '", sub, "'. Try COMMAND HELP."))
    }
}

/// `+PONG`.
pub open spec fn pong_view() -> RespView {
    RespView::SimpleString(seq![0x50u8, 0x4fu8, 0x4eu8, 0x47u8])
}

/// The reply of the commands that do not touch the store.
pub open spec fn fixed_reply(c: CommandView, password_set: bool) -> Option<RespView> {
    match c {
        CommandView::Ping(None) => Some(pong_view()),
        CommandView::Ping(Some(m)) => Some(bulk_view(m)),
        CommandView::Echo(m) => Some(bulk_view(m)),
        CommandView::Quit => Some(ok_view()),
        CommandView::FlushDb => Some(
            RespView::Error("ERR FLUSHDB requires server restart. For persistent mode, also delete data files."@),
        ),
        CommandView::Config { action, args } => Some(config_reply_view(action, args)),
        CommandView::Auth(_) => Some(
            RespView::Error(
                if password_set {
                    "-ERR AUTH failed"@
                } else {
                    "-ERR Client sent AUTH, but no password is set"@
                },
            ),
        ),
        CommandView::Subscribe(_) | CommandView::Unsubscribe(_) | CommandView::PSubscribe(_)
        | CommandView::PUnsubscribe(_) | CommandView::Publish { .. } | CommandView::PubSub { .. } => Some(
            RespView::Error("-ERR Pub/Sub commands should be handled in connection layer"@),
        ),
        CommandView::Multi | CommandView::Exec | CommandView::Discard | CommandView::Watch(_)
        | CommandView::Unwatch => Some(
            RespView::Error("-ERR Transaction commands should be handled in connection layer"@),
        ),
        CommandView::Command { subcommand: Some(sub), .. } => if needs_command_table(Some(sub)) {
            None
        } else {
            Some(command_reply_view(sub))
        },
        _ => None,
    }
}

/// How many of the answers are yes.
pub open spec fn trues(s: Seq<bool>) -> nat
    decreases s.len(),
{
    if s.len() == 0 {
        0
    } else {
        trues(s.drop_last()) + if s.last() {
            1nat
        } else {
            0nat
        }
    }
}

pub proof fn lemma_trues_len(s: Seq<bool>)
    ensures
        trues(s) <= s.len(),
    decreases s.len(),
{
    if s.len() > 0 {
        lemma_trues_len(s.drop_last());
    }
}

/// How many of the store's answers are yes.
pub fn count_true(answers: &Vec<bool>) -> (r: i64)
    requires
        answers@.len() <= i64::MAX,
    ensures
        r == trues(answers@),
{
    let mut count: i64 = 0;
    let mut k: usize = 0;
    while k < answers.len()
        invariant
            answers@.len() <= i64::MAX,
            k <= answers@.len(),
            count == trues(answers@.take(k as int)),
        decreases answers@.len() - k,
    {
        proof {
            assert(answers@.take(k + 1).drop_last() =~= answers@.take(k as int));
            lemma_trues_len(answers@.take(k as int));
        }
        if answers[k] {
            count += 1;
        }
        k += 1;
    }
    assert(answers@.take(k as int) =~= answers@);
    count
}

/// Milliseconds, rounded down to whole seconds.
pub fn millis_to_seconds(ms: u64) -> (r: u64)
    ensures
        r == ms / 1000,
{
    ms / 1000
}

/// MGET's item for a read's outcome: the value, nil when it cannot be read.
pub open spec fn mget_item(o: Result<Seq<u8>, StoreErrorView>) -> RespView {
    match o {
        Ok(v) => bulk_view(v),
        Err(_) => nil_view(),
    }
}

/// MGET's items for the reads' outcomes.
pub open spec fn mget_items(reads: Seq<Result<Seq<u8>, StoreErrorView>>) -> Seq<RespView> {
    reads.map_values(|o: Result<Seq<u8>, StoreErrorView>| mget_item(o))
}

/// MGET's item for a read's outcome.
pub fn mget_item_value(read: Result<Vec<u8>, StoreError>) -> (r: RespValue)
    ensures
        r@ == mget_item(store_outcome(read)),
{
    match read {
        Ok(value) => RespValue::BulkString(Some(value)),
        Err(_) => RespValue::BulkString(None),
    }
}

/// The keys whose mark is set, in order.
pub open spec fn picked(keys: Seq<Seq<u8>>, mask: Seq<bool>) -> Seq<Seq<u8>>
    decreases keys.len(),
{
    if keys.len() == 0 || mask.len() == 0 {
        Seq::empty()
    } else {
        let front = picked(keys.drop_last(), mask.drop_last());
        if mask.last() {
            front.push(keys.last())
        } else {
            front
        }
    }
}

/// DEL's effect: the keys whose deletion succeeded, `n` of them, each taken
/// once in the order given, get new versions.
pub open spec fn deleted_some(keys: Seq<Seq<u8>>, n: int, before: VersionTable, after: VersionTable) -> bool {
    exists|mask: Seq<bool>|
        mask.len() == keys.len() && (#[trigger] picked(keys, mask)).len() == n && after == before.bumped_all(
            picked(keys, mask),
        )
}

/// At most every key is picked.
pub proof fn lemma_picked_len(keys: Seq<Seq<u8>>, mask: Seq<bool>)
    ensures
        picked(keys, mask).len() <= keys.len(),
    decreases keys.len(),
{
    if keys.len() > 0 && mask.len() > 0 {
        lemma_picked_len(keys.drop_last(), mask.drop_last());
    }
}

/// A write to one key: on success (`ok` reply shape) its version moves on,
/// on an error nothing changes.
pub open spec fn single_write(ok: bool, is_error: bool, key: Seq<u8>, before: VersionTable, after: VersionTable) -> bool {
    ||| ok && after == before.bumped(key)
    ||| is_error && after == before
}

/// How a command changes the key versions WATCH relies on: every key it
/// modifies gets a new version, and nothing else changes.
pub open spec fn watch_effect(c: CommandView, reply: RespView, before: VersionTable, after: VersionTable) -> bool {
    match c {
        CommandView::SetValue { key, .. } => single_write(reply == ok_view(), reply is Error, key, before, after),
        CommandView::Del(keys) => match reply {
            RespView::Integer(n) => deleted_some(keys, n as int, before, after),
            _ => false,
        },
        CommandView::MSet(pairs) => {
            ||| reply == ok_view() && after == before.bumped_all(firsts(pairs))
            ||| reply is Error && exists|m: int|
                0 <= m < pairs.len() && after == before.bumped_all(
                    #[trigger] firsts(pairs).take(m),
                )
        },
        CommandView::Incr(key) => single_write(reply is Integer, reply is Error, key, before, after),
        CommandView::IncrBy { key, .. } => single_write(reply is Integer, reply is Error, key, before, after),
        CommandView::Decr(key) => single_write(reply is Integer, reply is Error, key, before, after),
        CommandView::DecrBy { key, .. } => single_write(reply is Integer, reply is Error, key, before, after),
        CommandView::HSet { key, .. } => single_write(reply is Integer, reply is Error, key, before, after),
        CommandView::HIncrBy { key, .. } => single_write(reply is Integer, reply is Error, key, before, after),
        CommandView::HDel { key, .. } => single_write(
            reply matches RespView::Integer(n) && n > 0,
            reply is Error || reply == RespView::Integer(0),
            key,
            before,
            after,
        ),
        _ => after == before,
    }
}

/// What the reply of a command that reads the store is, whatever the store held.
pub open spec fn store_reply_ok(c: CommandView, reply: RespView) -> bool {
    match c {
        CommandView::Get(_) => exists|o: Result<Seq<u8>, StoreErrorView>| reply == #[trigger] get_reply_view(o),
        CommandView::Expire { .. } | CommandView::PExpire { .. } | CommandView::Persist(_) => exists|
            o: Result<(), StoreErrorView>,
        | reply == #[trigger] flag_reply_view(o),
        CommandView::Ttl(_) => exists|o: Result<Option<u64>, StoreErrorView>| reply == #[trigger] ttl_reply_view(o, false),
        CommandView::PTtl(_) => exists|o: Result<Option<u64>, StoreErrorView>| reply == #[trigger] ttl_reply_view(o, true),
        CommandView::Cas { .. } => exists|o: Result<bool, StoreErrorView>| reply == #[trigger] cas_reply_view(o),
        CommandView::JsonPatch { .. } => exists|p: Result<(), StoreErrorView>, o: Result<Seq<u8>, StoreErrorView>|
            reply == #[trigger] json_patch_reply_view(p, o),
        CommandView::SetValue { .. } => exists|o: Result<(), StoreErrorView>| reply == #[trigger] write_reply_view(o),
        CommandView::Incr(_) => exists|
            a: Result<i64, StoreErrorView>,
            o: Result<Seq<u8>, StoreErrorView>,
            w: Result<(), StoreErrorView>,
        | reply == #[trigger] incr_reply_view(a, o, w, 1),
        CommandView::IncrBy { delta, .. } => exists|
            a: Result<i64, StoreErrorView>,
            o: Result<Seq<u8>, StoreErrorView>,
            w: Result<(), StoreErrorView>,
        | reply == #[trigger] incr_reply_view(a, o, w, delta),
        CommandView::Decr(_) => exists|
            a: Result<i64, StoreErrorView>,
            o: Result<Seq<u8>, StoreErrorView>,
            w: Result<(), StoreErrorView>,
        | reply == #[trigger] incr_reply_view(a, o, w, -1i64),
        CommandView::DecrBy { delta, .. } => exists|
            a: Result<i64, StoreErrorView>,
            o: Result<Seq<u8>, StoreErrorView>,
            w: Result<(), StoreErrorView>,
        | reply == #[trigger] incr_reply_view(a, o, w, 0i64.wrapping_sub(delta)),
        CommandView::Exists(keys) => (reply matches RespView::Integer(n) && 0 <= n <= keys.len()) && exists|
            found: Seq<bool>,
        | found.len() == keys.len() && reply == RespView::Integer(#[trigger] trues(found) as i64),
        CommandView::MGet(keys) => (match reply {
            RespView::Array(Some(items)) => items.len() == keys.len() && forall|i: int|
                0 <= i < items.len() ==> #[trigger] items[i] is BulkString,
            _ => false,
        }) && exists|reads: Seq<Result<Seq<u8>, StoreErrorView>>|
            reads.len() == keys.len() && reply == RespView::Array(Some(#[trigger] mget_items(reads))),
        CommandView::Keys(pattern) => keys_reply_ok(reply, vstd::utf8::encode_utf8(pattern)),
        CommandView::Scan { cursor, count, pattern } => scan_reply_ok(
            reply,
            count,
            match pattern {
                Some(p) => Some(vstd::utf8::encode_utf8(p)),
                None => None,
            },
        ) && scan_reply_from(reply, cursor),
        CommandView::HGet { .. } => exists|o: Result<Seq<u8>, StoreErrorView>|
            reply == RespView::BulkString(#[trigger] field_value(o)),
        CommandView::HGetAll(key) => reply is Error || exists|pairs: Seq<(Seq<u8>, Seq<u8>)>|
            pairs.len() <= 10000 && reply == RespView::Array(
                Some(#[trigger] field_value_views(fields_of(field_prefix(key), pairs))),
            ),
        CommandView::HKeys(key) => reply is Error || exists|pairs: Seq<(Seq<u8>, Seq<u8>)>|
            pairs.len() <= 10000 && reply == #[trigger] bulk_array(firsts(fields_of(field_prefix(key), pairs))),
        CommandView::HVals(key) => reply is Error || exists|pairs: Seq<(Seq<u8>, Seq<u8>)>|
            pairs.len() <= 10000 && reply == #[trigger] bulk_array(seconds(fields_of(field_prefix(key), pairs))),
        CommandView::HIncrBy { delta, .. } => match reply {
            RespView::Integer(v) => exists|read: Option<Result<Seq<u8>, StoreErrorView>>|
                #[trigger] field_increment(read, delta) == Some(v),
            RespView::Error(_) => true,
            _ => false,
        },
        CommandView::HMGet { fields, .. } => match reply {
            RespView::Array(Some(items)) => items.len() == fields.len() && forall|i: int|
                0 <= i < items.len() ==> #[trigger] items[i] is BulkString,
            _ => false,
        },
        CommandView::HExists { .. } => reply == RespView::Integer(0) || reply == RespView::Integer(1),
        CommandView::HLen(_) => exists|o: Result<Seq<u8>, StoreErrorView>|
            reply == RespView::Integer(#[trigger] field_count(o)),
        CommandView::HSet { fields, .. } => reply is Error || (reply matches RespView::Integer(n) && 0 <= n
            <= fields.len()),
        CommandView::HDel { fields, .. } => reply matches RespView::Integer(n) && 0 <= n <= fields.len(),
        _ => true,
    }
}

/// DECR k does what INCRBY k -1 does, and INCR k what INCRBY k 1 does: a
/// reply and a change of key versions are allowed for the one exactly when
/// they are for the other.
pub proof fn law_decr_and_incr_are_increments(k: Seq<u8>, reply: RespView, wb: VersionTable, wa: VersionTable)
    ensures
        store_reply_ok(CommandView::Decr(k), reply) == store_reply_ok(CommandView::IncrBy { key: k, delta: -1i64 }, reply),
        watch_effect(CommandView::Decr(k), reply, wb, wa) == watch_effect(
            CommandView::IncrBy { key: k, delta: -1i64 },
            reply,
            wb,
            wa,
        ),
        store_reply_ok(CommandView::Incr(k), reply) == store_reply_ok(CommandView::IncrBy { key: k, delta: 1i64 }, reply),
        watch_effect(CommandView::Incr(k), reply, wb, wa) == watch_effect(
            CommandView::IncrBy { key: k, delta: 1i64 },
            reply,
            wb,
            wa,
        ),
{
}

/// Whether a command's counters fit in an `i64`.
pub open spec fn counts_fit(c: CommandView) -> bool {
    match c {
        CommandView::Del(keys) => keys.len() <= i64::MAX,
        CommandView::Exists(keys) => keys.len() <= i64::MAX,
        CommandView::HSet { fields, .. } => fields.len() <= i64::MAX,
        CommandView::HDel { fields, .. } => fields.len() <= i64::MAX,
        _ => true,
    }
}

/// Executes parsed commands against the store, and keeps WATCH's key versions
/// and the hash field counts up to date.
pub struct CommandExecutor {
    store: Arc<FeoxStore>,
    hash_ops: HashOperations,
    requirepass: Option<String>,
}

impl CommandExecutor {
    /// The password clients must give, if any.
    pub closed spec fn password(&self) -> Option<Seq<char>> {
        match self.requirepass {
            Some(p) => Some(p@),
            None => None,
        }
    }

    /// An executor over `store`; clients must authenticate with `requirepass`
    /// when one is given.
    pub fn new(store: Arc<FeoxStore>, requirepass: Option<String>) -> (r: Self)
        ensures
            r.password() == opt_text(requirepass),
    {
        let hash_ops = HashOperations::new(store.clone());
        CommandExecutor { store, hash_ops, requirepass }
    }

    /// Whether `password` is the configured password.
    pub fn check_auth(&self, password: &str) -> (r: bool)
        ensures
            r == (self.password() == Some(password@)),
    {
        match &self.requirepass {
            Some(p) => text_eq(p.as_str(), password),
            None => false,
        }
    }

    /// Stores `value` under `key`; on success the key's version moves on.
    pub fn fast_set(&self, watch: &mut WatchRegistry, key: &[u8], value: &[u8]) -> (r: Result<(), StoreError>)
        ensures
            r is Ok ==> final(watch)@ == old(watch)@.bumped(key@),
            r is Err ==> final(watch)@ == old(watch)@,
    {
        match insert_with_timestamp(&self.store, key, value) {
            Ok(_) => {
                watch.notify_key_modified(key);
                Ok(())
            },
            Err(e) => Err(store_error(e)),
        }
    }

    /// Stores `value` under `key`, handing the buffer over; on success the
    /// key's version moves on.
    pub fn fast_set_bytes(&self, watch: &mut WatchRegistry, key: &[u8], value: Vec<u8>) -> (r: Result<
        (),
        StoreError,
    >)
        ensures
            r is Ok ==> final(watch)@ == old(watch)@.bumped(key@),
            r is Err ==> final(watch)@ == old(watch)@,
    {
        match insert_bytes_with_timestamp(&self.store, key, value) {
            Ok(_) => {
                watch.notify_key_modified(key);
                Ok(())
            },
            Err(e) => Err(store_error(e)),
        }
    }

    /// The value under `key`.
    pub fn fast_get(&self, key: &[u8]) -> (r: Result<Vec<u8>, StoreError>) {
        outcome_of(get_bytes(&self.store, key))
    }

    /// SET, with a time to live from EX (seconds) or else PX (milliseconds,
    /// rounded down to seconds).
    fn set_command(
        &self,
        watch: &mut WatchRegistry,
        key: Vec<u8>,
        value: Vec<u8>,
        ex: Option<u64>,
        px: Option<u64>,
    ) -> (r: RespValue)
        ensures
            watch_effect(CommandView::SetValue { key: key@, value: value@, ex, px }, r@, old(watch)@, final(watch)@),
            exists|o: Result<(), StoreErrorView>| r@ == #[trigger] write_reply_view(o),
    {
        let result = match ttl_seconds(ex, px) {
            Some(seconds) => insert_bytes_with_ttl(&self.store, key.as_slice(), value, seconds),
            None => insert_bytes_with_timestamp(&self.store, key.as_slice(), value),
        };
        match outcome_of(result) {
            Ok(_) => {
                watch.notify_key_modified(key.as_slice());
                let r = ok_reply();
                assert(r@ == write_reply_view(Ok::<(), StoreErrorView>(())));
                r
            },
            Err(e) => {
                let r = error_reply(e.message.as_str());
                assert(r@ == write_reply_view(Err::<(), StoreErrorView>(e@)));
                r
            },
        }
    }

    /// JSONPATCH: applies the patch, then answers with what the key holds.
    fn json_patch_command(&self, key: &[u8], patch: &[u8]) -> (r: RespValue)
        ensures
            exists|p: Result<(), StoreErrorView>, o: Result<Seq<u8>, StoreErrorView>|
                r@ == #[trigger] json_patch_reply_view(p, o),
    {
        match outcome_of(json_patch(&self.store, key, patch)) {
            Ok(_) => {
                let read = outcome_of(get_bytes(&self.store, key));
                let r = get_reply(read);
                assert(r@ == json_patch_reply_view(Ok(()), store_outcome(read)));
                r
            },
            Err(e) => {
                let r = error_reply(e.message.as_str());
                assert(r@ == json_patch_reply_view(Err(e@), Err(e@)));
                r
            },
        }
    }

    /// DEL: deletes each key, counting those the store deleted.
    fn del_command(&self, watch: &mut WatchRegistry, keys: Vec<Vec<u8>>) -> (r: RespValue)
        requires
            keys@.len() <= i64::MAX,
        ensures
            watch_effect(CommandView::Del(bytes_list(keys@)), r@, old(watch)@, final(watch)@),
    {
        let ghost all = bytes_list(keys@);
        let ghost mut mask: Seq<bool> = Seq::empty();
        let mut count: i64 = 0;
        let mut k: usize = 0;
        while k < keys.len()
            invariant
                all == bytes_list(keys@),
                all.len() == keys@.len(),
                keys@.len() <= i64::MAX,
                k <= keys@.len(),
                mask.len() == k,
                picked(all.take(k as int), mask).len() == count,
                watch@ == old(watch)@.bumped_all(picked(all.take(k as int), mask)),
            decreases keys@.len() - k,
        {
            let ghost before = picked(all.take(k as int), mask);
            let done = delete(&self.store, keys[k].as_slice()).is_ok();
            proof {
                lemma_picked_len(all.take(k as int), mask);
                assert(all.take(k + 1).drop_last() =~= all.take(k as int));
                assert(all.take(k + 1).last() == keys@[k as int]@);
                assert(mask.push(done).drop_last() =~= mask);
            }
            if done {
                watch.notify_key_modified(keys[k].as_slice());
                count += 1;
            }
            proof {
                let keys_next = all.take(k + 1);
                let mask_next = mask.push(done);
                assert(keys_next.drop_last() == all.take(k as int));
                assert(mask_next.drop_last() == mask);
                assert(picked(keys_next, mask_next) == if done {
                    before.push(keys_next.last())
                } else {
                    before
                });
                if done {
                    assert(before.push(keys_next.last()).drop_last() =~= before);
                    assert(old(watch)@.bumped_all(before.push(keys_next.last())) == old(watch)@.bumped_all(
                        before,
                    ).bumped(keys_next.last()));
                }
                mask = mask_next;
            }
            k += 1;
        }
        proof {
            assert(all.take(k as int) =~= all);
            assert(picked(all, mask).len() == count);
            assert(mask.len() == all.len());
            assert(watch@ == old(watch)@.bumped_all(picked(all, mask)));
            assert(exists|m: Seq<bool>|
                m.len() == all.len() && #[trigger] picked(all, m).len() == count && watch@ == old(watch)@.bumped_all(
                    picked(all, m),
                ));
        }
        let r = RespValue::Integer(count);
        proof {
            assert(r@ == RespView::Integer(count));
            let m = mask;
            assert(m.len() == all.len() && picked(all, m).len() == count && watch@ == old(watch)@.bumped_all(
                picked(all, m),
            ));
            assert(deleted_some(all, count as int, old(watch)@, watch@));
        }
        r
    }

    /// EXISTS: how many of the keys the store holds.
    fn exists_command(&self, keys: Vec<Vec<u8>>) -> (r: RespValue)
        requires
            keys@.len() <= i64::MAX,
        ensures
            r@ matches RespView::Integer(n) && 0 <= n <= keys@.len(),
            exists|found: Seq<bool>| found.len() == keys@.len() && r@ == RespView::Integer(#[trigger] trues(found) as i64),
    {
        let mut found: Vec<bool> = Vec::new();
        let mut k: usize = 0;
        while k < keys.len()
            invariant
                k <= keys@.len(),
                found@.len() == k,
            decreases keys@.len() - k,
        {
            found.push(contains_key(&self.store, keys[k].as_slice()));
            k += 1;
        }
        let count = count_true(&found);
        proof {
            lemma_trues_len(found@);
        }
        RespValue::Integer(count)
    }

    /// MGET: the value of each key, nil where it cannot be read.
    fn mget_command(&self, keys: Vec<Vec<u8>>) -> (r: RespValue)
        ensures
            r@ matches RespView::Array(Some(items)) && items.len() == keys@.len() && forall|i: int|
                0 <= i < items.len() ==> #[trigger] items[i] is BulkString,
            exists|reads: Seq<Result<Seq<u8>, StoreErrorView>>|
                reads.len() == keys@.len() && r@ == RespView::Array(Some(#[trigger] mget_items(reads))),
    {
        let mut values: Vec<RespValue> = Vec::new();
        let ghost mut reads: Seq<Result<Seq<u8>, StoreErrorView>> = Seq::empty();
        let mut k: usize = 0;
        while k < keys.len()
            invariant
                k <= keys@.len(),
                values@.len() == k,
                reads.len() == k,
                views(values@) == mget_items(reads),
                forall|i: int| 0 <= i < k ==> (#[trigger] values@[i])@ is BulkString,
            decreases keys@.len() - k,
        {
            let read = outcome_of(get_bytes(&self.store, keys[k].as_slice()));
            let ghost o = store_outcome(read);
            let item = mget_item_value(read);
            let ghost before = values@;
            values.push(item);
            proof {
                assert(views(values@) =~= views(before).push(item@));
                assert(mget_items(reads.push(o)) =~= mget_items(reads).push(mget_item(o)));
                reads = reads.push(o);
            }
            k += 1;
        }
        proof {
            lemma_array_view(values);
        }
        RespValue::Array(Some(values))
    }

    /// MSET: stores each pair in order, stopping at the first failure.
    fn mset_command(&self, watch: &mut WatchRegistry, pairs: Vec<(Vec<u8>, Vec<u8>)>) -> (r: RespValue)
        ensures
            watch_effect(CommandView::MSet(pair_list(pairs@)), r@, old(watch)@, final(watch)@),
    {
        let ghost keys = firsts(pair_list(pairs@));
        let mut k: usize = 0;
        while k < pairs.len()
            invariant
                keys == firsts(pair_list(pairs@)),
                k <= pairs@.len(),
                watch@ == old(watch)@.bumped_all(keys.take(k as int)),
            decreases pairs@.len() - k,
        {
            match insert_with_timestamp(&self.store, pairs[k].0.as_slice(), pairs[k].1.as_slice()) {
                Err(e) => {
                    let reply = error_reply(store_error(e).message.as_str());
                    assert(watch@ == old(watch)@.bumped_all(firsts(pair_list(pairs@)).take(k as int)));
                    assert((k as int) < pair_list(pairs@).len());
                    assert(reply@ is Error);
                    assert(exists|m: int|
                        0 <= m < pair_list(pairs@).len() && watch@ == old(watch)@.bumped_all(
                            #[trigger] firsts(pair_list(pairs@)).take(m),
                        ));
                    let ghost cv = CommandView::MSet(pair_list(pairs@));
                    assert(cv matches CommandView::MSet(ps) && ps == pair_list(pairs@));
                    assert(watch_effect(cv, reply@, old(watch)@, watch@));
                    return reply;
                },
                Ok(_) => {},
            }
            watch.notify_key_modified(pairs[k].0.as_slice());
            proof {
                assert(keys.take(k + 1).drop_last() =~= keys.take(k as int));
                assert(keys[k as int] == pairs@[k as int].0@);
            }
            k += 1;
        }
        assert(keys.take(k as int) =~= keys);
        ok_reply()
    }

    /// INCR and its kin: the store's atomic counter when the key holds one,
    /// else the stored text read as a number (0 when missing), `delta` added
    /// (wrapping) and written back as text.
    fn string_incr(&self, watch: &mut WatchRegistry, key: &[u8], delta: i64) -> (r: RespValue)
        ensures
            single_write(r@ is Integer, r@ is Error, key@, old(watch)@, final(watch)@),
            r@ is Integer || r@ is Error,
            exists|a: Result<i64, StoreErrorView>, o: Result<Seq<u8>, StoreErrorView>, w: Result<(), StoreErrorView>|
                r@ == #[trigger] incr_reply_view(a, o, w, delta),
    {
        let atomic = outcome_of(atomic_increment(&self.store, key, delta));
        let ghost a = store_outcome(atomic);
        match atomic {
            Ok(value) => {
                watch.notify_key_modified(key);
                let r = RespValue::Integer(value);
                assert(r@ == incr_reply_view(a, Err(a->Err_0), Err(a->Err_0), delta)) by {
                    assert(a == Ok::<i64, StoreErrorView>(value));
                }
                return r;
            },
            Err(_) => {},
        }
        let read = outcome_of(get_bytes(&self.store, key));
        let ghost o = store_outcome(read);
        let current = match incr_base_value(read) {
            Ok(n) => n,
            Err(reply) => {
                proof {
                    assert(reply@ is Error);
                    assert(reply@ == incr_reply_view(a, o, Err(a->Err_0), delta));
                }
                return reply;
            },
        };
        let (new_value, text) = counter_after(current, delta);
        match outcome_of(insert_bytes_with_timestamp(&self.store, key, text)) {
            Ok(_) => {
                watch.notify_key_modified(key);
                let r = RespValue::Integer(new_value);
                assert(r@ == incr_reply_view(a, o, Ok(()), delta));
                r
            },
            Err(e) => {
                let r = error_reply(e.message.as_str());
                assert(r@ == incr_reply_view(a, o, Err(e@), delta));
                r
            },
        }
    }

    /// KEYS: a pattern without wildcards is looked up directly; otherwise the
    /// keys from the pattern's literal prefix on (everything, for none) are
    /// read and filtered by the pattern.
    fn keys_command(&self, pattern: String) -> (r: RespValue)
        ensures
            keys_reply_ok(r@, vstd::utf8::encode_utf8(pattern@)),
    {
        let prefix = extract_prefix(pattern.as_str());
        if prefix.len() != 0 && text_eq(pattern.as_str(), prefix) {
            return match get_bytes(&self.store, prefix.as_bytes()) {
                Ok(_) => {
                    let mut keys: Vec<Vec<u8>> = Vec::new();
                    keys.push(slice_to_vec(prefix.as_bytes()));
                    let r = bulk_list(keys);
                    assert(byte_views(keys@)[0] == vstd::utf8::encode_utf8(pattern@));
                    r
                },
                Err(_) => bulk_list(Vec::new()),
            };
        }
        let (start, end) = keys_range(prefix.as_bytes());
        match range_query(&self.store, start.as_slice(), end.as_slice(), 100000) {
            Ok(pairs) => {
                let ghost read = pair_views(pairs@);
                let keys = keys_matching(pairs, pattern.as_str());
                proof {
                    lemma_matching_keys(read, vstd::utf8::encode_utf8(pattern@));
                }
                bulk_list(keys)
            },
            Err(e) => error_reply(store_error(e).message.as_str()),
        }
    }

    /// SCAN: reads from the cursor (the start for an empty cursor or `0`) up
    /// to 255 bytes of 0xFF, or over the literal prefix of a pattern holding
    /// `*`, fetching twice `count` keys (plus one) when filtering, and returns
    /// up to `count` keys with the key after them as the next cursor (`0` when
    /// none remain).
    fn scan_command(&self, cursor: Vec<u8>, count: usize, pattern: Option<String>) -> (r: RespValue)
        ensures
            scan_reply_ok(r@, count, pattern_bytes(pattern)),
            scan_reply_from(r@, cursor@),
    {
        let ghost lo = scan_floor(cursor@);
        let start_key: Vec<u8> = if cursor.len() == 0 || is_zero_cursor(cursor.as_slice()) {
            Vec::new()
        } else {
            cursor
        };
        let scan_start: Vec<u8>;
        let scan_end: Vec<u8>;
        match &pattern {
            Some(pat) => {
                let prefix = extract_prefix(pat.as_str());
                if prefix.len() != 0 && has_star(pat.as_str()) {
                    scan_end = with_tilde(prefix.as_bytes());
                    scan_start = if start_key.len() == 0 {
                        slice_to_vec(prefix.as_bytes())
                    } else {
                        start_key
                    };
                } else {
                    scan_start = start_key;
                    scan_end = top_key();
                }
            },
            None => {
                scan_start = start_key;
                scan_end = top_key();
            },
        }
        let fetch_count = if pattern.is_some() {
            count.wrapping_mul(2)
        } else {
            count
        };
        match range_query(&self.store, scan_start.as_slice(), scan_end.as_slice(), fetch_count.wrapping_add(1)) {
            Ok(pairs) => {
                let ghost keys = firsts(pair_views(pairs@));
                let ghost pat = pattern_bytes(pattern);
                let page = match &pattern {
                    Some(p) => scan_page(pairs, count, Some(p.as_str())),
                    None => scan_page(pairs, count, None),
                };
                proof {
                    lemma_scan_walk(keys, 0, count as nat, pat, Seq::empty());
                    assert forall|i: int| 0 <= i < keys.len() implies keys[i] == pairs@[i].0@ by {}
                    assert forall|i: int| 0 <= i < keys.len() implies bytes_le(lo, #[trigger] keys[i]) by {
                        if lo.len() != 0 {
                            assert(bytes_le(scan_start@, pairs@[i].0@));
                        }
                    }
                    assert forall|i: int, j: int| 0 <= i < j < keys.len() implies bytes_le(
                        #[trigger] keys[i],
                        #[trigger] keys[j],
                    ) && keys[i] != keys[j] by {
                        assert(bytes_le(pairs@[i].0@, pairs@[j].0@) && pairs@[i].0@ != pairs@[j].0@);
                    }
                    law_scan_page_progresses(keys, count as nat, pat, lo);
                }
                let (found, next) = page;
                let cursor_reply = match next {
                    Some(n) => RespValue::BulkString(Some(n)),
                    None => {
                        let mut zero: Vec<u8> = Vec::new();
                        zero.push(0x30u8);
                        RespValue::BulkString(Some(zero))
                    },
                };
                let listed = bulk_list(found);
                let mut parts: Vec<RespValue> = Vec::new();
                parts.push(cursor_reply);
                parts.push(listed);
                proof {
                    lemma_array_view(parts);
                }
                RespValue::Array(Some(parts))
            },
            Err(e) => error_reply(store_error(e).message.as_str()),
        }
    }

    /// HGETALL's reply: each field followed by its value.
    pub fn field_value_list(fields: Vec<(Vec<u8>, Vec<u8>)>) -> (r: RespValue)
        ensures
            r@ == RespView::Array(Some(field_value_views(pair_views(fields@)))),
    {
        let mut result: Vec<RespValue> = Vec::new();
        let mut k: usize = 0;
        while k < fields.len()
            invariant
                k <= fields@.len(),
                views(result@) == field_value_views(pair_views(fields@).take(k as int)),
            decreases fields@.len() - k,
        {
            let ghost before = result@;
            result.push(RespValue::BulkString(Some(slice_to_vec(fields[k].0.as_slice()))));
            result.push(RespValue::BulkString(Some(slice_to_vec(fields[k].1.as_slice()))));
            proof {
                let ps = pair_views(fields@);
                assert(ps.take(k + 1).drop_last() =~= ps.take(k as int));
                assert(ps.take(k + 1).last() == (fields@[k as int].0@, fields@[k as int].1@));
                assert(views(result@) =~= views(before) + seq![
                    bulk_view(fields@[k as int].0@),
                    bulk_view(fields@[k as int].1@),
                ]);
            }
            k += 1;
        }
        assert(pair_views(fields@).take(k as int) =~= pair_views(fields@));
        proof {
            lemma_array_view(result);
        }
        RespValue::Array(Some(result))
    }

    /// HMGET's reply: each value, nil where missing.
    fn optional_list(values: Vec<Option<Vec<u8>>>) -> (r: RespValue)
        ensures
            r@ matches RespView::Array(Some(items)) && items.len() == values@.len() && forall|i: int|
                0 <= i < items.len() ==> #[trigger] items[i] is BulkString,
    {
        let mut result: Vec<RespValue> = Vec::new();
        let mut k: usize = 0;
        while k < values.len()
            invariant
                k <= values@.len(),
                result@.len() == k,
                forall|i: int| 0 <= i < k ==> (#[trigger] result@[i])@ is BulkString,
            decreases values@.len() - k,
        {
            let item = match &values[k] {
                Some(v) => RespValue::BulkString(Some(slice_to_vec(v.as_slice()))),
                None => RespValue::BulkString(None),
            };
            result.push(item);
            k += 1;
        }
        proof {
            lemma_array_view(result);
        }
        RespValue::Array(Some(result))
    }

    /// An error reply `ERR ` + the hash error's text.
    fn hash_failure(e: HashError) -> (r: RespValue)
        ensures
            r@ == error_view(hash_error_text(e)),
    {
        error_reply(e.message().as_str())
    }

    /// HSET: the number of new fields; the hash's version moves on.
    fn hset_command(
        &self,
        watch: &mut WatchRegistry,
        tracker: &mut MetadataTracker,
        key: Vec<u8>,
        fields: Vec<(Vec<u8>, Vec<u8>)>,
    ) -> (r: RespValue)
        requires
            old(tracker).well_formed(),
            fields@.len() <= i64::MAX,
        ensures
            watch_effect(CommandView::HSet { key: key@, fields: pair_list(fields@) }, r@, old(watch)@, final(watch)@),
            store_reply_ok(CommandView::HSet { key: key@, fields: pair_list(fields@) }, r@),
            final(tracker).well_formed(),
    {
        match self.hash_ops.hset(tracker, key.as_slice(), fields.as_slice()) {
            Ok(count) => {
                watch.notify_key_modified(key.as_slice());
                RespValue::Integer(count)
            },
            Err(e) => Self::hash_failure(e),
        }
    }

    /// HDEL: the number of fields deleted; when any, the hash's version moves on.
    fn hdel_command(
        &self,
        watch: &mut WatchRegistry,
        tracker: &mut MetadataTracker,
        key: Vec<u8>,
        fields: Vec<Vec<u8>>,
    ) -> (r: RespValue)
        requires
            old(tracker).well_formed(),
            fields@.len() <= i64::MAX,
        ensures
            watch_effect(CommandView::HDel { key: key@, fields: bytes_list(fields@) }, r@, old(watch)@, final(watch)@),
            store_reply_ok(CommandView::HDel { key: key@, fields: bytes_list(fields@) }, r@),
            final(tracker).well_formed(),
    {
        let ghost n = fields@.len();
        match self.hash_ops.hdel(tracker, key.as_slice(), fields) {
            Ok(count) => {
                if count > 0 {
                    watch.notify_key_modified(key.as_slice());
                }
                RespValue::Integer(count)
            },
            Err(e) => Self::hash_failure(e),
        }
    }

    /// HGET: the field's value, nil when it cannot be read.
    fn hget_command(&self, key: Vec<u8>, field: Vec<u8>) -> (r: RespValue)
        ensures
            store_reply_ok(CommandView::HGet { key: key@, field: field@ }, r@),
    {
        let got = self.hash_ops.hget(key.as_slice(), field.as_slice());
        let ghost o = choose|o: Result<Seq<u8>, StoreErrorView>|
            #[trigger] field_value(o) == match got {
                Ok(Some(v)) => Some(v@),
                _ => None,
            };
        match got {
            Ok(Some(value)) => RespValue::BulkString(Some(value)),
            _ => {
                assert(RespView::BulkString(field_value(o)) == nil_view());
                RespValue::BulkString(None)
            },
        }
    }

    /// HLEN: the hash's field count.
    fn hlen_command(&self, tracker: &mut MetadataTracker, key: Vec<u8>) -> (r: RespValue)
        requires
            old(tracker).well_formed(),
        ensures
            store_reply_ok(CommandView::HLen(key@), r@),
            final(tracker).well_formed(),
    {
        match self.hash_ops.hlen(tracker, key.as_slice()) {
            Ok(count) => RespValue::Integer(count),
            Err(e) => Self::hash_failure(e),
        }
    }

    /// HGETALL: each field of the hash followed by its value.
    fn hgetall_command(&self, key: Vec<u8>) -> (r: RespValue)
        ensures
            store_reply_ok(CommandView::HGetAll(key@), r@),
    {
        match self.hash_ops.hgetall(key.as_slice()) {
            Ok(fields) => {
                let ghost pairs = choose|pairs: Seq<(Seq<u8>, Seq<u8>)>|
                    pairs.len() <= 10000 && #[trigger] pair_views(fields@) == fields_of(field_prefix(key@), pairs);
                Self::field_value_list(fields)
            },
            Err(e) => Self::hash_failure(e),
        }
    }

    /// HKEYS: the hash's field names.
    fn hkeys_command(&self, key: Vec<u8>) -> (r: RespValue)
        ensures
            store_reply_ok(CommandView::HKeys(key@), r@),
    {
        match self.hash_ops.hkeys(key.as_slice()) {
            Ok(names) => {
                let ghost pairs = choose|pairs: Seq<(Seq<u8>, Seq<u8>)>|
                    pairs.len() <= 10000 && #[trigger] byte_views(names@) == firsts(fields_of(field_prefix(key@), pairs));
                bulk_list(names)
            },
            Err(e) => Self::hash_failure(e),
        }
    }

    /// HVALS: the hash's values.
    fn hvals_command(&self, key: Vec<u8>) -> (r: RespValue)
        ensures
            store_reply_ok(CommandView::HVals(key@), r@),
    {
        match self.hash_ops.hvals(key.as_slice()) {
            Ok(values) => {
                let ghost pairs = choose|pairs: Seq<(Seq<u8>, Seq<u8>)>|
                    pairs.len() <= 10000 && #[trigger] byte_views(values@) == seconds(fields_of(field_prefix(key@), pairs));
                bulk_list(values)
            },
            Err(e) => Self::hash_failure(e),
        }
    }

    /// HINCRBY's reply for what the hash operation returned.
    pub fn hincrby_reply(result: Result<i64, HashError>) -> (r: RespValue)
        ensures
            r@ == hincrby_reply_view(result),
    {
        match result {
            Ok(value) => RespValue::Integer(value),
            Err(e) => Self::hash_failure(e),
        }
    }

    /// HINCRBY: the field's new value; the hash's version moves on.
    fn hincrby_command(
        &self,
        watch: &mut WatchRegistry,
        tracker: &mut MetadataTracker,
        key: Vec<u8>,
        field: Vec<u8>,
        delta: i64,
    ) -> (r: RespValue)
        requires
            old(tracker).well_formed(),
        ensures
            watch_effect(CommandView::HIncrBy { key: key@, field: field@, delta }, r@, old(watch)@, final(watch)@),
            store_reply_ok(CommandView::HIncrBy { key: key@, field: field@, delta }, r@),
            final(tracker).well_formed(),
    {
        let result = self.hash_ops.hincrby(tracker, key.as_slice(), field.as_slice(), delta);
        if result.is_ok() {
            watch.notify_key_modified(key.as_slice());
        }
        Self::hincrby_reply(result)
    }

    /// Executes `cmd`: the reply, or `None` for the commands answered outside
    /// the library. Every key a command modifies gets a new version in `watch`.
    #[verifier::spinoff_prover]
    #[verifier::rlimit(40)]
    pub fn execute(&self, cmd: Command, watch: &mut WatchRegistry, tracker: &mut MetadataTracker) -> (r: Option<RespValue>)
        requires
            old(tracker).well_formed(),
            counts_fit(cmd@),
        ensures
            r is None <==> answered_elsewhere(cmd@),
            r is None ==> final(watch)@ == old(watch)@,
            r matches Some(v) ==> watch_effect(cmd@, v@, old(watch)@, final(watch)@),
            r matches Some(v) ==> store_reply_ok(cmd@, v@),
            r matches Some(v) ==> (fixed_reply(cmd@, self.password() is Some) matches Some(f) ==> v@ == f),
            final(tracker).well_formed(),
    {
        let ghost c = cmd@;
        match cmd {
            Command::Get(key) => Some(get_reply(self.fast_get(key.as_slice()))),
            Command::SetValue { key, value, ex, px } => Some(self.set_command(watch, key, value, ex, px)),
            Command::Del(keys) => Some(self.del_command(watch, keys)),
            Command::Exists(keys) => Some(self.exists_command(keys)),
            Command::Incr(key) => Some(self.string_incr(watch, key.as_slice(), 1)),
            Command::IncrBy { key, delta } => Some(self.string_incr(watch, key.as_slice(), delta)),
            Command::Decr(key) => Some(self.string_incr(watch, key.as_slice(), -1)),
            Command::DecrBy { key, delta } => Some(self.string_incr(watch, key.as_slice(), 0i64.wrapping_sub(delta))),
            Command::Expire { key, seconds } => Some(flag_reply(outcome_of(update_ttl(&self.store, key.as_slice(), seconds)))),
            Command::PExpire { key, milliseconds } => Some(
                flag_reply(outcome_of(update_ttl(&self.store, key.as_slice(), millis_to_seconds(milliseconds)))),
            ),
            Command::Ttl(key) => Some(ttl_reply(outcome_of(get_ttl(&self.store, key.as_slice())), false)),
            Command::PTtl(key) => Some(ttl_reply(outcome_of(get_ttl(&self.store, key.as_slice())), true)),
            Command::Persist(key) => Some(flag_reply(outcome_of(persist(&self.store, key.as_slice())))),
            Command::MGet(keys) => Some(self.mget_command(keys)),
            Command::MSet(pairs) => Some(self.mset_command(watch, pairs)),
            Command::Ping(msg) => match msg {
                Some(m) => Some(RespValue::BulkString(Some(m))),
                None => {
                    let mut text: Vec<u8> = Vec::new();
                    text.push(0x50u8);
                    text.push(0x4fu8);
                    text.push(0x4eu8);
                    text.push(0x47u8);
                    assert(text@ =~= seq![0x50u8, 0x4fu8, 0x4eu8, 0x47u8]);
                    Some(RespValue::SimpleString(text))
                },
            },
            Command::Echo(msg) => Some(RespValue::BulkString(Some(msg))),
            Command::Config { action, args } => Some(config_reply(action.as_str(), args)),
            Command::Quit => Some(ok_reply()),
            Command::FlushDb => Some(
                plain_error("ERR FLUSHDB requires server restart. For persistent mode, also delete data files."),
            ),
            Command::Keys(pattern) => Some(self.keys_command(pattern)),
            Command::Scan { cursor, count, pattern } => Some(self.scan_command(cursor, count, pattern)),
            Command::JsonPatch { key, patch } => Some(self.json_patch_command(key.as_slice(), patch.as_slice())),
            Command::Cas { key, expected, new_value } => Some(
                cas_reply(
                    outcome_of(
                        compare_and_swap(&self.store, key.as_slice(), expected.as_slice(), new_value.as_slice()),
                    ),
                ),
            ),
            Command::HSet { key, fields } => Some(self.hset_command(watch, tracker, key, fields)),
            Command::HGet { key, field } => Some(self.hget_command(key, field)),
            Command::HMGet { key, fields } => match self.hash_ops.hmget(key.as_slice(), fields) {
                Ok(values) => Some(Self::optional_list(values)),
                Err(e) => Some(Self::hash_failure(e)),
            },
            Command::HDel { key, fields } => Some(self.hdel_command(watch, tracker, key, fields)),
            Command::HExists { key, field } => match self.hash_ops.hexists(key.as_slice(), field.as_slice()) {
                Ok(exists) => Some(
                    RespValue::Integer(
                        if exists {
                            1
                        } else {
                            0
                        },
                    ),
                ),
                Err(e) => Some(Self::hash_failure(e)),
            },
            Command::HGetAll(key) => Some(self.hgetall_command(key)),
            Command::HLen(key) => Some(self.hlen_command(tracker, key)),
            Command::HKeys(key) => Some(self.hkeys_command(key)),
            Command::HVals(key) => Some(self.hvals_command(key)),
            Command::HIncrBy { key, field, delta } => Some(self.hincrby_command(watch, tracker, key, field, delta)),
            Command::Auth(_) => if self.requirepass.is_none() {
                Some(plain_error("-ERR Client sent AUTH, but no password is set"))
            } else {
                Some(plain_error("-ERR AUTH failed"))
            },
            Command::Subscribe(_) | Command::Unsubscribe(_) | Command::PSubscribe(_) | Command::PUnsubscribe(_)
            | Command::Publish { .. } | Command::PubSub { .. } => Some(
                plain_error("-ERR Pub/Sub commands should be handled in connection layer"),
            ),
            Command::Multi | Command::Exec | Command::Discard | Command::Watch(_) | Command::Unwatch => Some(
                plain_error("-ERR Transaction commands should be handled in connection layer"),
            ),
            Command::Info(_) | Command::LPush { .. } | Command::RPush { .. } | Command::LPop { .. } | Command::RPop {
                ..
            } | Command::LLen(_) | Command::LRange { .. } | Command::LIndex { .. } | Command::Client { .. } => None,
            Command::Command { subcommand, .. } => if uses_command_table(&subcommand) {
                None
            } else {
                match subcommand {
                    Some(sub) => Some(command_subcommand_reply(sub.as_str())),
                    None => None,
                }
            },
        }
    }
}

/// The keys KEYS keeps all match the pattern.
proof fn lemma_matching_keys(pairs: Seq<(Seq<u8>, Seq<u8>)>, p: Seq<u8>)
    ensures
        forall|i: int|
            0 <= i < matching_keys(pairs, p).len() ==> key_matches(#[trigger] matching_keys(pairs, p)[i], p),
    decreases pairs.len(),
{
    if pairs.len() > 0 {
        let rest = matching_keys(pairs.drop_last(), p);
        lemma_matching_keys(pairs.drop_last(), p);
        if key_matches(pairs.last().0, p) {
            let all = rest.push(pairs.last().0);
            assert forall|i: int| 0 <= i < all.len() implies key_matches(#[trigger] all[i], p) by {
                if i < rest.len() {
                    assert(all[i] == rest[i]);
                }
            }
        }
    }
}

} // verus!
