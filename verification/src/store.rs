//! The FeOx store, as the library calls it. The store is shared by every
//! connection and changes under them, so what a call returns is stated only as
//! far as it holds whatever the store holds; the library's own functions take
//! each outcome as it comes.
use feoxdb::{FeoxError, FeoxStore};
use std::sync::Arc;
use vstd::prelude::*;

verus! {

#[verifier::external_type_specification]
#[verifier::external_body]
pub struct ExFeoxStore(FeoxStore);

#[verifier::external_type_specification]
#[verifier::external_body]
pub struct ExFeoxError(FeoxError);

/// A failed store operation: whether the key was missing, and the error's text.
#[derive(Debug)]
pub struct StoreError {
    pub key_not_found: bool,
    pub message: String,
}

/// The parts of a store error the replies depend on.
pub struct StoreErrorView {
    pub key_not_found: bool,
    pub message: Seq<char>,
}

impl View for StoreError {
    type V = StoreErrorView;

    open spec fn view(&self) -> StoreErrorView {
        StoreErrorView { key_not_found: self.key_not_found, message: self.message@ }
    }
}

/// `FeoxError` as the library sees it: the `KeyNotFound` variant told apart,
/// and the error's `Display` text.
#[verifier::external_body]
pub(crate) fn store_error(e: FeoxError) -> (r: StoreError) {
    StoreError { key_not_found: matches!(e, FeoxError::KeyNotFound), message: e.to_string() }
}

/// `FeoxStore::get_bytes`: the value stored under `key`, copied out.
#[verifier::external_body]
pub(crate) fn get_bytes(store: &Arc<FeoxStore>, key: &[u8]) -> (r: Result<Vec<u8>, FeoxError>) {
    store.get_bytes(key).map(|b| b.to_vec())
}

/// `FeoxStore::insert`: `Ok(true)` for a new key, `Ok(false)` for an update.
#[verifier::external_body]
pub(crate) fn insert(store: &Arc<FeoxStore>, key: &[u8], value: &[u8]) -> (r: Result<bool, FeoxError>) {
    store.insert(key, value)
}

/// `FeoxStore::insert_with_timestamp` with the store's own clock.
#[verifier::external_body]
pub(crate) fn insert_with_timestamp(store: &Arc<FeoxStore>, key: &[u8], value: &[u8]) -> (r: Result<bool, FeoxError>) {
    store.insert_with_timestamp(key, value, None)
}

/// `FeoxStore::insert_bytes`.
#[verifier::external_body]
pub(crate) fn insert_bytes(store: &Arc<FeoxStore>, key: &[u8], value: Vec<u8>) -> (r: Result<bool, FeoxError>) {
    store.insert_bytes(key, bytes::Bytes::from(value))
}

/// `FeoxStore::insert_bytes_with_timestamp` with the store's own clock.
#[verifier::external_body]
pub(crate) fn insert_bytes_with_timestamp(store: &Arc<FeoxStore>, key: &[u8], value: Vec<u8>) -> (r: Result<bool, FeoxError>) {
    store.insert_bytes_with_timestamp(key, bytes::Bytes::from(value), None)
}

/// `FeoxStore::insert_bytes_with_ttl_and_timestamp` with the store's own clock.
#[verifier::external_body]
pub(crate) fn insert_bytes_with_ttl(
    store: &Arc<FeoxStore>,
    key: &[u8],
    value: Vec<u8>,
    ttl_seconds: u64,
) -> (r: Result<bool, FeoxError>) {
    store.insert_bytes_with_ttl_and_timestamp(key, bytes::Bytes::from(value), ttl_seconds, None)
}

/// `FeoxStore::delete`.
#[verifier::external_body]
pub(crate) fn delete(store: &Arc<FeoxStore>, key: &[u8]) -> (r: Result<(), FeoxError>) {
    store.delete(key)
}

/// `FeoxStore::contains_key`.
#[verifier::external_body]
pub(crate) fn contains_key(store: &Arc<FeoxStore>, key: &[u8]) -> (r: bool) {
    store.contains_key(key)
}

/// `FeoxStore::update_ttl`.
#[verifier::external_body]
pub(crate) fn update_ttl(store: &Arc<FeoxStore>, key: &[u8], ttl_seconds: u64) -> (r: Result<(), FeoxError>) {
    store.update_ttl(key, ttl_seconds)
}

/// `FeoxStore::get_ttl`: the whole seconds left, computed from nanosecond
/// timestamps divided by 10^9, so never above `u64::MAX / 10^9`.
#[verifier::external_body]
pub(crate) fn get_ttl(store: &Arc<FeoxStore>, key: &[u8]) -> (r: Result<Option<u64>, FeoxError>)
    ensures
        r matches Ok(Some(t)) ==> t <= u64::MAX / 1_000_000_000,
{
    store.get_ttl(key)
}

/// `FeoxStore::persist`.
#[verifier::external_body]
pub(crate) fn persist(store: &Arc<FeoxStore>, key: &[u8]) -> (r: Result<(), FeoxError>) {
    store.persist(key)
}

/// Byte strings in lexicographic order: `a` is at most `b`.
pub open spec fn bytes_le(a: Seq<u8>, b: Seq<u8>) -> bool
    decreases a.len(),
{
    if a.len() == 0 {
        true
    } else if b.len() == 0 {
        false
    } else if a[0] != b[0] {
        a[0] < b[0]
    } else {
        bytes_le(a.drop_first(), b.drop_first())
    }
}

/// `FeoxStore::range_query`: at most `limit` key-value pairs, whose keys lie
/// between `start` and `end` (both included), in ascending key order.
#[verifier::external_body]
pub(crate) fn range_query(store: &Arc<FeoxStore>, start: &[u8], end: &[u8], limit: usize) -> (r: Result<
    Vec<(Vec<u8>, Vec<u8>)>,
    FeoxError,
>)
    ensures
        r matches Ok(pairs) ==> pairs@.len() <= limit,
        r matches Ok(pairs) ==> forall|i: int|
            0 <= i < pairs@.len() ==> bytes_le(start@, #[trigger] pairs@[i].0@) && bytes_le(pairs@[i].0@, end@),
        r matches Ok(pairs) ==> forall|i: int, j: int|
            0 <= i < j < pairs@.len() ==> bytes_le(#[trigger] pairs@[i].0@, #[trigger] pairs@[j].0@)
                && pairs@[i].0@ != pairs@[j].0@,
{
    store.range_query(start, end, limit)
}

/// `FeoxStore::json_patch`.
#[verifier::external_body]
pub(crate) fn json_patch(store: &Arc<FeoxStore>, key: &[u8], patch: &[u8]) -> (r: Result<(), FeoxError>) {
    store.json_patch(key, patch)
}

/// `FeoxStore::compare_and_swap`: whether the swap took place.
#[verifier::external_body]
pub(crate) fn compare_and_swap(store: &Arc<FeoxStore>, key: &[u8], expected: &[u8], new_value: &[u8]) -> (r: Result<
    bool,
    FeoxError,
>) {
    store.compare_and_swap(key, expected, new_value)
}

/// `FeoxStore::atomic_increment`: the counter's new value.
#[verifier::external_body]
pub(crate) fn atomic_increment(store: &Arc<FeoxStore>, key: &[u8], delta: i64) -> (r: Result<i64, FeoxError>) {
    store.atomic_increment(key, delta)
}

} // verus!
