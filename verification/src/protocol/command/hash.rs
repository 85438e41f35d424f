use crate::store::{
    atomic_increment, contains_key, delete, get_bytes, insert, insert_bytes, range_query, store_error, StoreError,
    StoreErrorView,
    };
use crate::text::{
    owned, bytes_eq, decimal_i64, i64_from_le, i64_text, le_i64, parse_i64, saturating_add_i64, saturating_sum,
    utf8_str,
};
use super::executor::{count_true, lemma_trues_len, trues};
use crate::protocol::resp::decimal_bytes;
use feoxdb::FeoxStore;
use std::sync::Arc;
use std::time::Instant;
use vstd::prelude::*;
use vstd::slice::slice_to_vec;

verus! {

/// Whether each key occurs once among the entries.
pub open spec fn distinct_keys<V>(entries: Seq<(Vec<u8>, V)>) -> bool {
    forall|i: int, j: int|
        0 <= i < entries.len() && 0 <= j < entries.len() && i != j ==> #[trigger] entries[i].0@
            != #[trigger] entries[j].0@
}

/// Whether some entry is for key `k`.
pub open spec fn has_key<V>(entries: Seq<(Vec<u8>, V)>, k: Seq<u8>) -> bool {
    exists|i: int| 0 <= i < entries.len() && #[trigger] entries[i].0@ == k
}

/// The entries as a map from key to value.
pub open spec fn entries_map<V>(entries: Seq<(Vec<u8>, V)>) -> Map<Seq<u8>, V> {
    Map::new(
        |k: Seq<u8>| has_key(entries, k),
        |k: Seq<u8>| entries[choose|i: int| 0 <= i < entries.len() && #[trigger] entries[i].0@ == k].1,
    )
}

pub proof fn lemma_entry_in_map<V>(entries: Seq<(Vec<u8>, V)>, j: int)
    requires
        distinct_keys(entries),
        0 <= j < entries.len(),
    ensures
        entries_map(entries).contains_key(entries[j].0@),
        entries_map(entries)[entries[j].0@] == entries[j].1,
{
    assert(has_key(entries, entries[j].0@));
    let i = choose|i: int| 0 <= i < entries.len() && #[trigger] entries[i].0@ == entries[j].0@;
    assert(i == j);
}

/// A `wrapping_add` on `i64`.
pub open spec fn wrapped_sum(a: i64, b: i64) -> i64 {
    vstd::wrapping::i64_specs::wrapping_add(a, b)
}

/// The pending delta of `key` after adding `delta` to it.
pub open spec fn accumulated(pending: Map<Seq<u8>, i64>, key: Seq<u8>, delta: i64) -> Map<Seq<u8>, i64> {
    pending.insert(
        key,
        if pending.contains_key(key) {
            wrapped_sum(pending[key], delta)
        } else {
            delta
        },
    )
}

#[verifier::external_type_specification]
#[verifier::external_body]
pub struct ExInstant(Instant);

/// `Instant::now`: a point of the monotonic clock.
#[verifier::external_body]
fn instant_now() -> (r: Instant) {
    Instant::now()
}

/// `Instant::elapsed`: the whole milliseconds since `start`.
#[verifier::external_body]
fn millis_since(start: &Instant) -> (r: u64) {
    start.elapsed().as_millis() as u64
}

/// Field-count changes of hashes that are not yet written to their metadata
/// records, written out in batches. Times are milliseconds of the monotonic
/// clock since the tracker was made.
pub struct MetadataTracker {
    started: Instant,
    pending_updates: Vec<(Vec<u8>, i64)>,
    last_flush_ms: u64,
    flush_interval_ms: u64,
    max_batch_size: usize,
}

impl MetadataTracker {
    /// The pending change of each metadata key.
    pub closed spec fn pending(&self) -> Map<Seq<u8>, i64> {
        entries_map(self.pending_updates@)
    }

    /// How many metadata keys have a pending change.
    pub closed spec fn batch_len(&self) -> nat {
        self.pending_updates@.len()
    }

    /// When the pending changes were last taken, in milliseconds.
    pub closed spec fn last_flush(&self) -> u64 {
        self.last_flush_ms
    }

    /// How long pending changes may wait, in milliseconds.
    pub closed spec fn flush_interval(&self) -> u64 {
        self.flush_interval_ms
    }

    /// How many metadata keys may wait before a flush is due.
    pub closed spec fn max_batch(&self) -> usize {
        self.max_batch_size
    }

    pub closed spec fn well_formed(&self) -> bool {
        distinct_keys(self.pending_updates@)
    }

    /// The time now.
    pub fn clock(&self) -> (r: u64) {
        millis_since(&self.started)
    }

    /// Whether a flush is due at time `now_ms`.
    pub open spec fn flush_due(&self, now_ms: u64) -> bool {
        self.batch_len() >= self.max_batch() || (if now_ms >= self.last_flush() {
            now_ms - self.last_flush()
        } else {
            0
        }) >= self.flush_interval()
    }

    /// A tracker with nothing pending, last flushed at `now_ms`, flushing
    /// every 100 ms or at 1000 pending keys.
    pub fn new(now_ms: u64) -> (r: Self)
        ensures
            r.well_formed(),
            r.pending() == Map::<Seq<u8>, i64>::empty(),
            r.batch_len() == 0,
            r.last_flush() == now_ms,
            r.flush_interval() == 100,
            r.max_batch() == 1000,
    {
        let r = MetadataTracker {
            started: instant_now(),
            pending_updates: Vec::new(),
            last_flush_ms: now_ms,
            flush_interval_ms: 100,
            max_batch_size: 1000,
        };
        assert(r.pending() =~= Map::<Seq<u8>, i64>::empty());
        r
    }

    /// Adds `delta` to the pending change of `key`.
    pub fn add_update(&mut self, key: Vec<u8>, delta: i64)
        requires
            old(self).well_formed(),
        ensures
            final(self).well_formed(),
            final(self).pending() == accumulated(old(self).pending(), key@, delta),
            final(self).batch_len() == old(self).batch_len() + (if old(self).pending().contains_key(key@) {
                0int
            } else {
                1int
            }),
            final(self).last_flush() == old(self).last_flush(),
            final(self).flush_interval() == old(self).flush_interval(),
            final(self).max_batch() == old(self).max_batch(),
    {
        let ghost before = self.pending_updates@;
        let mut i: usize = 0;
        while i < self.pending_updates.len()
            invariant
                self.pending_updates@ == before,
                before == old(self).pending_updates@,
                distinct_keys(before),
                self.last_flush_ms == old(self).last_flush_ms,
                self.flush_interval_ms == old(self).flush_interval_ms,
                self.max_batch_size == old(self).max_batch_size,
                i <= before.len(),
                forall|j: int| 0 <= j < i ==> before[j].0@ != key@,
            decreases before.len() - i,
        {
            if bytes_eq(self.pending_updates[i].0.as_slice(), key.as_slice()) {
                proof {
                    lemma_entry_in_map(before, i as int);
                }
                let sum = self.pending_updates[i].1.wrapping_add(delta);
                let name = slice_to_vec(self.pending_updates[i].0.as_slice());
                self.pending_updates.set(i, (name, sum));
                proof {
                    let after = self.pending_updates@;
                    assert forall|a: int, b: int|
                        0 <= a < after.len() && 0 <= b < after.len() && a != b implies #[trigger] after[a].0@
                        != #[trigger] after[b].0@ by {
                        if a == i {
                            assert(after[a].0@ == before[a].0@);
                        }
                        if b == i {
                            assert(after[b].0@ == before[b].0@);
                        }
                        assert(after[a].0@ == before[a].0@);
                        assert(after[b].0@ == before[b].0@);
                    }
                    assert forall|k: Seq<u8>| has_key(after, k) <==> has_key(before, k) by {
                        if has_key(after, k) {
                            let a = choose|a: int| 0 <= a < after.len() && #[trigger] after[a].0@ == k;
                            assert(before[a].0@ == k);
                        }
                        if has_key(before, k) {
                            let a = choose|a: int| 0 <= a < before.len() && #[trigger] before[a].0@ == k;
                            assert(after[a].0@ == k);
                        }
                    }
                    assert forall|k: Seq<u8>| #[trigger] entries_map(after).contains_key(k) implies entries_map(after)[k]
                        == accumulated(entries_map(before), key@, delta)[k] by {
                        let a = choose|a: int| 0 <= a < after.len() && #[trigger] after[a].0@ == k;
                        lemma_entry_in_map(after, a);
                        lemma_entry_in_map(before, a);
                    }
                    assert(entries_map(after) =~= accumulated(entries_map(before), key@, delta));
                }
                return;
            }
            i += 1;
        }
        proof {
            assert(!has_key(before, key@));
        }
        self.pending_updates.push((key, delta));
        proof {
            let after = self.pending_updates@;
            assert(after.drop_last() == before);
            assert forall|a: int, b: int|
                0 <= a < after.len() && 0 <= b < after.len() && a != b implies #[trigger] after[a].0@
                != #[trigger] after[b].0@ by {
                if a == before.len() {
                    assert(before[b].0@ == after[b].0@);
                } else if b == before.len() {
                    assert(before[a].0@ == after[a].0@);
                } else {
                    assert(before[a].0@ == after[a].0@);
                    assert(before[b].0@ == after[b].0@);
                }
            }
            assert forall|k: Seq<u8>| has_key(after, k) <==> (has_key(before, k) || k == key@) by {
                if has_key(after, k) {
                    let a = choose|a: int| 0 <= a < after.len() && #[trigger] after[a].0@ == k;
                    if a < before.len() {
                        assert(before[a].0@ == k);
                    }
                }
                if has_key(before, k) {
                    let a = choose|a: int| 0 <= a < before.len() && #[trigger] before[a].0@ == k;
                    assert(after[a].0@ == k);
                }
                if k == key@ {
                    assert(after[before.len() as int].0@ == k);
                }
            }
            assert forall|k: Seq<u8>| #[trigger] entries_map(after).contains_key(k) implies entries_map(after)[k]
                == accumulated(entries_map(before), key@, delta)[k] by {
                let a = choose|a: int| 0 <= a < after.len() && #[trigger] after[a].0@ == k;
                lemma_entry_in_map(after, a);
                if a < before.len() {
                    lemma_entry_in_map(before, a);
                }
            }
            assert(entries_map(after) =~= accumulated(entries_map(before), key@, delta));
        }
    }

    /// Whether the pending changes are due to be written at time `now_ms`:
    /// enough keys are waiting, or the interval has passed since the last flush.
    pub fn should_flush(&self, now_ms: u64) -> (r: bool)
        ensures
            r == self.flush_due(now_ms),
    {
        self.pending_updates.len() >= self.max_batch_size || now_ms.saturating_sub(self.last_flush_ms)
            >= self.flush_interval_ms
    }

    /// Takes the pending changes, leaving none, and records `now_ms` as the
    /// time of the last flush.
    pub fn take_updates(&mut self, now_ms: u64) -> (r: Vec<(Vec<u8>, i64)>)
        requires
            old(self).well_formed(),
        ensures
            distinct_keys(r@),
            entries_map(r@) == old(self).pending(),
            final(self).well_formed(),
            final(self).pending() == Map::<Seq<u8>, i64>::empty(),
            final(self).batch_len() == 0,
            final(self).last_flush() == now_ms,
            final(self).flush_interval() == old(self).flush_interval(),
            final(self).max_batch() == old(self).max_batch(),
    {
        self.last_flush_ms = now_ms;
        let mut taken: Vec<(Vec<u8>, i64)> = Vec::new();
        std::mem::swap(&mut taken, &mut self.pending_updates);
        assert(self.pending() =~= Map::<Seq<u8>, i64>::empty());
        taken
    }
}

/// `H:` + key + `:f:`, the prefix of the store keys of a hash's fields.
pub open spec fn field_prefix(key: Seq<u8>) -> Seq<u8> {
    seq![0x48u8, 0x3au8] + key + seq![0x3au8, 0x66u8, 0x3au8]
}

/// The store key of field `field` of hash `key`.
pub open spec fn field_key_of(key: Seq<u8>, field: Seq<u8>) -> Seq<u8> {
    field_prefix(key) + field
}

/// `H:` + key + `:meta`, the store key of a hash's field count.
pub open spec fn meta_key_of(key: Seq<u8>) -> Seq<u8> {
    seq![0x48u8, 0x3au8] + key + seq![0x3au8, 0x6du8, 0x65u8, 0x74u8, 0x61u8]
}

/// The pairs of a range read whose key starts with `prefix`, the prefix cut off.
pub open spec fn fields_of(prefix: Seq<u8>, pairs: Seq<(Seq<u8>, Seq<u8>)>) -> Seq<(Seq<u8>, Seq<u8>)>
    decreases pairs.len(),
{
    if pairs.len() == 0 {
        Seq::empty()
    } else {
        let rest = fields_of(prefix, pairs.drop_last());
        let (k, v) = pairs.last();
        if prefix.is_prefix_of(k) {
            rest.push((k.subrange(prefix.len() as int, k.len() as int), v))
        } else {
            rest
        }
    }
}

/// Key-value pairs as sequences.
pub open spec fn pair_views(pairs: Seq<(Vec<u8>, Vec<u8>)>) -> Seq<(Seq<u8>, Seq<u8>)> {
    pairs.map_values(|p: (Vec<u8>, Vec<u8>)| (p.0@, p.1@))
}

/// The first halves of pairs.
pub open spec fn firsts(pairs: Seq<(Seq<u8>, Seq<u8>)>) -> Seq<Seq<u8>> {
    pairs.map_values(|p: (Seq<u8>, Seq<u8>)| p.0)
}

/// The second halves of pairs.
pub open spec fn seconds(pairs: Seq<(Seq<u8>, Seq<u8>)>) -> Seq<Seq<u8>> {
    pairs.map_values(|p: (Seq<u8>, Seq<u8>)| p.1)
}

/// Byte strings as sequences.
pub open spec fn byte_views(items: Seq<Vec<u8>>) -> Seq<Seq<u8>> {
    items.map_values(|x: Vec<u8>| x@)
}

/// The number a stored field value stands for when incremented: decimal text,
/// or else eight bytes of a little-endian `i64`.
pub open spec fn stored_integer(current: Seq<u8>) -> Option<i64> {
    if vstd::utf8::valid_utf8(current) {
        decimal_i64(vstd::utf8::decode_utf8(current))
    } else if current.len() == 8 {
        Some(le_i64(current))
    } else {
        None
    }
}

/// HGET's answer for the read of a field's store key: the value, or none.
pub open spec fn field_value(o: Result<Seq<u8>, StoreErrorView>) -> Option<Seq<u8>> {
    match o {
        Ok(v) => Some(v),
        Err(_) => None,
    }
}

/// HLEN's answer for the read of a hash's counter: the little-endian count in
/// its first eight bytes, 0 for fewer bytes or no counter.
pub open spec fn field_count(o: Result<Seq<u8>, StoreErrorView>) -> i64 {
    match o {
        Ok(b) => if b.len() < 8 {
            0
        } else {
            le_i64(b)
        },
        Err(_) => 0,
    }
}

/// A failed hash operation.
#[derive(Debug)]
pub enum HashError {
    /// A stored value is not what the operation needs.
    Protocol(String),
    /// The store failed.
    Database(StoreError),
}

/// A hash error's text.
pub open spec fn hash_error_text(e: HashError) -> Seq<char> {
    match e {
        HashError::Protocol(t) => t@,
        HashError::Database(s) => s.message@,
    }
}

impl HashError {
    /// The error's text.
    pub fn message(&self) -> (r: String)
        ensures
            r@ == hash_error_text(*self),
    {
        match self {
            HashError::Protocol(t) => owned(t.as_str()),
            HashError::Database(s) => owned(s.message.as_str()),
        }
    }
}

/// The tracker after recording `delta` for `meta`: either the change waits in
/// the batch, or a flush took the whole batch to the store.
pub open spec fn recorded(before: MetadataTracker, after: MetadataTracker, meta: Seq<u8>, delta: i64) -> bool {
    &&& after.well_formed()
    &&& after.flush_interval() == before.flush_interval()
    &&& after.max_batch() == before.max_batch()
    &&& (after.pending() == accumulated(before.pending(), meta, delta) || after.pending()
        == Map::<Seq<u8>, i64>::empty())
}

/// The store key of a field: `H:` + key + `:f:` + field.
pub fn field_key(key: &[u8], field: &[u8]) -> (r: Vec<u8>)
    ensures
        r@ == field_key_of(key@, field@),
{
    let mut r = field_prefix_bytes(key);
    append_bytes(&mut r, field);
    r
}

/// The prefix of a hash's field keys: `H:` + key + `:f:`.
pub fn field_prefix_bytes(key: &[u8]) -> (r: Vec<u8>)
    ensures
        r@ == field_prefix(key@),
{
    let mut r: Vec<u8> = Vec::new();
    r.push(0x48u8);
    r.push(0x3au8);
    append_bytes(&mut r, key);
    r.push(0x3au8);
    r.push(0x66u8);
    r.push(0x3au8);
    assert(r@ =~= field_prefix(key@));
    r
}

/// The store key of a hash's field count: `H:` + key + `:meta`.
pub fn meta_key(key: &[u8]) -> (r: Vec<u8>)
    ensures
        r@ == meta_key_of(key@),
{
    let mut r: Vec<u8> = Vec::new();
    r.push(0x48u8);
    r.push(0x3au8);
    append_bytes(&mut r, key);
    r.push(0x3au8);
    r.push(0x6du8);
    r.push(0x65u8);
    r.push(0x74u8);
    r.push(0x61u8);
    assert(r@ =~= meta_key_of(key@));
    r
}

/// Appends `bytes` to `out`.
pub fn append_bytes(out: &mut Vec<u8>, bytes: &[u8])
    ensures
        final(out)@ == old(out)@ + bytes@,
{
    let ghost start = out@;
    let mut k: usize = 0;
    while k < bytes.len()
        invariant
            k <= bytes@.len(),
            out@ == start + bytes@.take(k as int),
        decreases bytes@.len() - k,
    {
        out.push(bytes[k]);
        assert(bytes@.take(k + 1) =~= bytes@.take(k as int).push(bytes@[k as int]));
        k += 1;
    }
    assert(bytes@.take(k as int) =~= bytes@);
}

/// Whether `prefix` starts `bytes`.
pub fn starts_with(bytes: &[u8], prefix: &[u8]) -> (r: bool)
    ensures
        r == prefix@.is_prefix_of(bytes@),
{
    if prefix.len() > bytes.len() {
        return false;
    }
    let mut k: usize = 0;
    while k < prefix.len()
        invariant
            prefix@.len() <= bytes@.len(),
            k <= prefix@.len(),
            forall|j: int| 0 <= j < k ==> prefix@[j] == bytes@[j],
        decreases prefix@.len() - k,
    {
        if prefix[k] != bytes[k] {
            return false;
        }
        k += 1;
    }
    true
}

/// The bytes of `bytes` from index `start` on.
pub fn tail_from(bytes: &[u8], start: usize) -> (r: Vec<u8>)
    requires
        start <= bytes@.len(),
    ensures
        r@ == bytes@.subrange(start as int, bytes@.len() as int),
{
    let mut r: Vec<u8> = Vec::new();
    let mut k: usize = start;
    while k < bytes.len()
        invariant
            start <= k <= bytes@.len(),
            r@ == bytes@.subrange(start as int, k as int),
        decreases bytes@.len() - k,
    {
        r.push(bytes[k]);
        assert(bytes@.subrange(start as int, k + 1) =~= bytes@.subrange(start as int, k as int).push(bytes@[k as int]));
        k += 1;
    }
    r
}

/// The pairs of a range read whose key starts with `prefix`, the prefix cut off.
pub fn fields_under(prefix: &[u8], pairs: Vec<(Vec<u8>, Vec<u8>)>) -> (r: Vec<(Vec<u8>, Vec<u8>)>)
    ensures
        pair_views(r@) == fields_of(prefix@, pair_views(pairs@)),
{
    let mut r: Vec<(Vec<u8>, Vec<u8>)> = Vec::new();
    let mut k: usize = 0;
    while k < pairs.len()
        invariant
            k <= pairs@.len(),
            pair_views(r@) == fields_of(prefix@, pair_views(pairs@.take(k as int))),
        decreases pairs@.len() - k,
    {
        assert(pair_views(pairs@.take(k + 1)).drop_last() =~= pair_views(pairs@.take(k as int)));
        if starts_with(pairs[k].0.as_slice(), prefix) {
            let name = tail_from(pairs[k].0.as_slice(), prefix.len());
            let value = slice_to_vec(pairs[k].1.as_slice());
            r.push((name, value));
            assert(pair_views(r@) =~= fields_of(prefix@, pair_views(pairs@.take(k as int))).push(
                (name@, value@),
            ));
        }
        k += 1;
    }
    assert(pairs@.take(k as int) =~= pairs@);
    r
}

/// The end of the range read of a hash's fields: its field prefix followed by
/// the byte 255.
pub fn field_range_end(key: &[u8]) -> (r: Vec<u8>)
    ensures
        r@ == field_prefix(key@).push(255u8),
{
    let mut end_key = field_prefix_bytes(key);
    end_key.push(255u8);
    end_key
}

/// A field read: absent (`None`), or what the store answered.
pub open spec fn read_view(read: Option<Result<Vec<u8>, StoreError>>) -> Option<Result<Seq<u8>, StoreErrorView>> {
    match read {
        Some(Ok(b)) => Some(Ok(b@)),
        Some(Err(e)) => Some(Err(e@)),
        None => None,
    }
}

/// HINCRBY's new value for the field read: the stored number plus `delta`,
/// saturating; `delta` for a field absent or unreadable; none when the stored
/// value is no number.
pub open spec fn field_increment(read: Option<Result<Seq<u8>, StoreErrorView>>, delta: i64) -> Option<i64> {
    match read {
        Some(Ok(b)) => match stored_integer(b) {
            Some(n) => Some(saturating_sum(n, delta)),
            None => None,
        },
        _ => Some(delta),
    }
}

/// HINCRBY's step from the field read: the new value and the decimal text
/// written back, or the error for a stored value that is no number.
pub fn field_after(read: Option<Result<Vec<u8>, StoreError>>, delta: i64) -> (r: Result<(i64, Vec<u8>), HashError>)
    ensures
        match field_increment(read_view(read), delta) {
            Some(v) => r matches Ok((x, t)) && x == v && t@ == decimal_bytes(v as int),
            None => r matches Err(HashError::Protocol(t)) && t@ == "hash value is not an integer"@,
        },
{
    let v = match read {
        Some(Ok(bytes)) => match incremented_value(bytes.as_slice(), delta) {
            Ok(v) => v,
            Err(e) => return Err(e),
        },
        _ => delta,
    };
    let text = i64_text(v);
    Ok((v, slice_to_vec(text.as_str().as_bytes())))
}

/// The number a stored field value stands for, plus `delta`, saturating.
pub fn incremented_value(current: &[u8], delta: i64) -> (r: Result<i64, HashError>)
    ensures
        match stored_integer(current@) {
            Some(n) => r matches Ok(v) && v == saturating_sum(n, delta),
            None => r matches Err(HashError::Protocol(t)) && t@ == "hash value is not an integer"@,
        },
{
    match utf8_str(current) {
        Some(text) => match parse_i64(text) {
            Some(n) => Ok(saturating_add_i64(n, delta)),
            None => Err(HashError::Protocol(owned("hash value is not an integer"))),
        },
        None => if current.len() == 8 {
            Ok(saturating_add_i64(i64_from_le(current), delta))
        } else {
            Err(HashError::Protocol(owned("hash value is not an integer")))
        },
    }
}

/// Hash commands over the store: field `f` of hash `k` is the store key
/// `H:k:f:f`, and the field count sits under `H:k:meta` as a little-endian
/// counter, its changes batched in a tracker shared by all connections.
pub struct HashOperations {
    store: Arc<FeoxStore>,
}

impl HashOperations {
    /// The store the operations work on.
    pub closed spec fn store_handle(&self) -> Arc<FeoxStore> {
        self.store
    }

    pub fn new(store: Arc<FeoxStore>) -> (r: Self)
        ensures
            r.store_handle() == store,
    {
        HashOperations { store }
    }

    /// Writes every pending field-count change to its counter.
    pub fn flush_metadata(&self, tracker: &mut MetadataTracker)
        requires
            old(tracker).well_formed(),
        ensures
            final(tracker).well_formed(),
            final(tracker).pending() == Map::<Seq<u8>, i64>::empty(),
            final(tracker).batch_len() == 0,
            final(tracker).flush_interval() == old(tracker).flush_interval(),
            final(tracker).max_batch() == old(tracker).max_batch(),
    {
        let now = tracker.clock();
        let updates = tracker.take_updates(now);
        let mut k: usize = 0;
        while k < updates.len()
            decreases updates@.len() - k,
        {
            if updates[k].1 != 0 {
                let _ = atomic_increment(&self.store, updates[k].0.as_slice(), updates[k].1);
            }
            k += 1;
        }
    }

    /// Flushes the pending field-count changes when a flush is due.
    fn maybe_flush_metadata(&self, tracker: &mut MetadataTracker)
        requires
            old(tracker).well_formed(),
        ensures
            final(tracker).well_formed(),
            final(tracker).flush_interval() == old(tracker).flush_interval(),
            final(tracker).max_batch() == old(tracker).max_batch(),
            *final(tracker) == *old(tracker) || (final(tracker).pending() == Map::<Seq<u8>, i64>::empty()
                && final(tracker).batch_len() == 0),
            old(tracker).batch_len() >= old(tracker).max_batch() ==> final(tracker).pending() == Map::<
                Seq<u8>,
                i64,
            >::empty(),
    {
        let now = tracker.clock();
        if tracker.should_flush(now) {
            self.flush_metadata(tracker);
        }
    }

    /// A stored field count: the little-endian `i64` in the first eight bytes,
    /// 0 when there are fewer.
    pub fn parse_metadata(data: &[u8]) -> (r: i64)
        ensures
            r == (if data@.len() < 8 {
                0
            } else {
                le_i64(data@)
            }),
    {
        if data.len() < 8 {
            return 0;
        }
        i64_from_le(data)
    }

    /// Stores each field's value; returns how many fields were new, and adds
    /// that many to the hash's pending field count.
    pub fn hset(&self, tracker: &mut MetadataTracker, key: &[u8], fields: &[(Vec<u8>, Vec<u8>)]) -> (r: Result<
        i64,
        HashError,
    >)
        requires
            old(tracker).well_formed(),
            fields@.len() <= i64::MAX,
        ensures
            r matches Ok(n) ==> 0 <= n <= fields@.len(),
            match r {
                Ok(n) => if n > 0 {
                    recorded(*old(tracker), *final(tracker), meta_key_of(key@), n)
                } else {
                    *final(tracker) == *old(tracker)
                },
                Err(e) => e is Database && *final(tracker) == *old(tracker),
            },
            fields@.len() == 0 ==> r == Ok::<i64, HashError>(0),
            r matches Ok(n) ==> exists|added: Seq<bool>|
                added.len() == fields@.len() && n == #[trigger] trues(added),
    {
        let mut added: Vec<bool> = Vec::new();
        let mut k: usize = 0;
        while k < fields.len()
            invariant
                k <= fields@.len(),
                added@.len() == k,
                fields@.len() <= i64::MAX,
            decreases fields@.len() - k,
        {
            let name = field_key(key, fields[k].0.as_slice());
            let value = slice_to_vec(fields[k].1.as_slice());
            match insert_bytes(&self.store, name.as_slice(), value) {
                Ok(is_new) => added.push(is_new),
                Err(e) => return Err(HashError::Database(store_error(e))),
            }
            k += 1;
        }
        let new_fields_count = count_true(&added);
        proof {
            lemma_trues_len(added@);
        }
        if new_fields_count > 0 {
            tracker.add_update(meta_key(key), new_fields_count);
            self.maybe_flush_metadata(tracker);
        }
        Ok(new_fields_count)
    }

    /// The value of field `field` of hash `key`, if the store has it.
    pub fn hget(&self, key: &[u8], field: &[u8]) -> (r: Result<Option<Vec<u8>>, HashError>)
        ensures
            r is Ok,
            exists|o: Result<Seq<u8>, StoreErrorView>|
                #[trigger] field_value(o) == match r {
                    Ok(Some(v)) => Some(v@),
                    _ => None,
                },
    {
        let name = field_key(key, field);
        let read = get_bytes(&self.store, name.as_slice());
        let r = match read {
            Ok(value) => {
                assert(field_value(Ok(value@)) == Some(value@));
                Ok(Some(value))
            },
            Err(_) => {
                assert(field_value(Err(StoreErrorView { key_not_found: true, message: Seq::empty() })) is None);
                Ok(None)
            },
        };
        r
    }

    /// The values of the given fields, in order; `None` where missing.
    pub fn hmget(&self, key: &[u8], fields: Vec<Vec<u8>>) -> (r: Result<Vec<Option<Vec<u8>>>, HashError>)
        ensures
            r matches Ok(values) && values@.len() == fields@.len(),
    {
        let mut results: Vec<Option<Vec<u8>>> = Vec::new();
        let mut k: usize = 0;
        while k < fields.len()
            invariant
                k <= fields@.len(),
                results@.len() == k,
            decreases fields@.len() - k,
        {
            match self.hget(key, fields[k].as_slice()) {
                Ok(v) => results.push(v),
                Err(e) => return Err(e),
            }
            k += 1;
        }
        Ok(results)
    }

    /// Deletes the given fields; returns how many existed, and takes that many
    /// from the hash's pending field count.
    pub fn hdel(&self, tracker: &mut MetadataTracker, key: &[u8], fields: Vec<Vec<u8>>) -> (r: Result<
        i64,
        HashError,
    >)
        requires
            old(tracker).well_formed(),
            fields@.len() <= i64::MAX,
        ensures
            r matches Ok(n) && 0 <= n <= fields@.len(),
            r matches Ok(n) ==> if n > 0 {
                recorded(*old(tracker), *final(tracker), meta_key_of(key@), (-n) as i64)
            } else {
                *final(tracker) == *old(tracker)
            },
            fields@.len() == 0 ==> r == Ok::<i64, HashError>(0),
            r matches Ok(n) ==> exists|removed: Seq<bool>|
                removed.len() == fields@.len() && n == #[trigger] trues(removed),
    {
        if fields.len() == 0 {
            assert(trues(Seq::<bool>::empty()) == 0);
            return Ok(0);
        }
        let meta = meta_key(key);
        let mut removed: Vec<bool> = Vec::new();
        let mut k: usize = 0;
        while k < fields.len()
            invariant
                k <= fields@.len(),
                removed@.len() == k,
                fields@.len() <= i64::MAX,
            decreases fields@.len() - k,
        {
            let name = field_key(key, fields[k].as_slice());
            removed.push(delete(&self.store, name.as_slice()).is_ok());
            k += 1;
        }
        let deleted_count = count_true(&removed);
        proof {
            lemma_trues_len(removed@);
        }
        if deleted_count > 0 {
            tracker.add_update(meta, -deleted_count);
            self.maybe_flush_metadata(tracker);
        }
        Ok(deleted_count)
    }

    /// Whether the store has field `field` of hash `key`.
    pub fn hexists(&self, key: &[u8], field: &[u8]) -> (r: Result<bool, HashError>)
        ensures
            r is Ok,
    {
        let name = field_key(key, field);
        Ok(contains_key(&self.store, name.as_slice()))
    }

    /// Reads up to 10000 keys from `H:key:f:` to that prefix followed by 255.
    fn read_fields(&self, key: &[u8]) -> (r: Result<Vec<(Vec<u8>, Vec<u8>)>, HashError>)
        ensures
            match r {
                Ok(fields) => exists|pairs: Seq<(Seq<u8>, Seq<u8>)>|
                    pairs.len() <= 10000 && #[trigger] pair_views(fields@) == fields_of(field_prefix(key@), pairs),
                Err(e) => e is Database,
            },
    {
        let prefix = field_prefix_bytes(key);
        let end_key = field_range_end(key);
        match range_query(&self.store, prefix.as_slice(), end_key.as_slice(), 10000) {
            Ok(pairs) => {
                let ghost read = pair_views(pairs@);
                let fields = fields_under(prefix.as_slice(), pairs);
                Ok(fields)
            },
            Err(e) => Err(HashError::Database(store_error(e))),
        }
    }

    /// The fields and values of hash `key`, as a range read of its field keys
    /// gives them.
    pub fn hgetall(&self, key: &[u8]) -> (r: Result<Vec<(Vec<u8>, Vec<u8>)>, HashError>)
        ensures
            match r {
                Ok(fields) => exists|pairs: Seq<(Seq<u8>, Seq<u8>)>|
                    pairs.len() <= 10000 && #[trigger] pair_views(fields@) == fields_of(field_prefix(key@), pairs),
                Err(e) => e is Database,
            },
    {
        self.read_fields(key)
    }

    /// The number of fields of hash `key`, after writing out every pending
    /// field-count change: its counter, or 0 without one.
    pub fn hlen(&self, tracker: &mut MetadataTracker, key: &[u8]) -> (r: Result<i64, HashError>)
        requires
            old(tracker).well_formed(),
        ensures
            r is Ok,
            exists|o: Result<Seq<u8>, StoreErrorView>| r == Ok::<i64, HashError>(#[trigger] field_count(o)),
            final(tracker).well_formed(),
            final(tracker).pending() == Map::<Seq<u8>, i64>::empty(),
            final(tracker).flush_interval() == old(tracker).flush_interval(),
            final(tracker).max_batch() == old(tracker).max_batch(),
    {
        self.flush_metadata(tracker);
        let meta = meta_key(key);
        match get_bytes(&self.store, meta.as_slice()) {
            Ok(bytes) => {
                let n = Self::parse_metadata(bytes.as_slice());
                assert(n == field_count(Ok(bytes@)));
                Ok(n)
            },
            Err(_) => {
                assert(field_count(Err(StoreErrorView { key_not_found: true, message: Seq::empty() })) == 0);
                Ok(0)
            },
        }
    }

    /// The field names of hash `key`.
    pub fn hkeys(&self, key: &[u8]) -> (r: Result<Vec<Vec<u8>>, HashError>)
        ensures
            match r {
                Ok(names) => exists|pairs: Seq<(Seq<u8>, Seq<u8>)>|
                    pairs.len() <= 10000 && #[trigger] byte_views(names@) == firsts(fields_of(field_prefix(key@), pairs)),
                Err(e) => e is Database,
            },
    {
        match self.read_fields(key) {
            Ok(fields) => {
                let mut names: Vec<Vec<u8>> = Vec::new();
                let mut k: usize = 0;
                while k < fields.len()
                    invariant
                        k <= fields@.len(),
                        byte_views(names@) == firsts(pair_views(fields@).take(k as int)),
                    decreases fields@.len() - k,
                {
                    let item = slice_to_vec(fields[k].0.as_slice());
                    let ghost before = names@;
                    names.push(item);
                    assert(pair_views(fields@)[k as int].0 == item@);
                    assert(byte_views(names@) =~= byte_views(before).push(item@));
                    assert(firsts(pair_views(fields@).take(k + 1)) =~= firsts(pair_views(fields@).take(k as int)).push(
                        pair_views(fields@)[k as int].0,
                    ));
                    k += 1;
                }
                assert(pair_views(fields@).take(k as int) =~= pair_views(fields@));
                Ok(names)
            },
            Err(e) => Err(e),
        }
    }

    /// The values of hash `key`.
    pub fn hvals(&self, key: &[u8]) -> (r: Result<Vec<Vec<u8>>, HashError>)
        ensures
            match r {
                Ok(values) => exists|pairs: Seq<(Seq<u8>, Seq<u8>)>|
                    pairs.len() <= 10000 && #[trigger] byte_views(values@) == seconds(fields_of(field_prefix(key@), pairs)),
                Err(e) => e is Database,
            },
    {
        match self.read_fields(key) {
            Ok(fields) => {
                let mut values: Vec<Vec<u8>> = Vec::new();
                let mut k: usize = 0;
                while k < fields.len()
                    invariant
                        k <= fields@.len(),
                        byte_views(values@) == seconds(pair_views(fields@).take(k as int)),
                    decreases fields@.len() - k,
                {
                    let item = slice_to_vec(fields[k].1.as_slice());
                    let ghost before = values@;
                    values.push(item);
                    assert(pair_views(fields@)[k as int].1 == item@);
                    assert(byte_views(values@) =~= byte_views(before).push(item@));
                    assert(seconds(pair_views(fields@).take(k + 1)) =~= seconds(pair_views(fields@).take(k as int)).push(
                        pair_views(fields@)[k as int].1,
                    ));
                    k += 1;
                }
                assert(pair_views(fields@).take(k as int) =~= pair_views(fields@));
                Ok(values)
            },
            Err(e) => Err(e),
        }
    }

    /// Adds `delta` to field `field` of hash `key`: an existing value counts as
    /// the number it spells (or little-endian `i64`), a missing one as 0 and
    /// adds one to the hash's pending field count. The sum saturates and is
    /// stored as decimal text.
    pub fn hincrby(&self, tracker: &mut MetadataTracker, key: &[u8], field: &[u8], delta: i64) -> (r: Result<
        i64,
        HashError,
    >)
        requires
            old(tracker).well_formed(),
        ensures
            final(tracker).well_formed(),
            *final(tracker) == *old(tracker) || recorded(*old(tracker), *final(tracker), meta_key_of(key@), 1),
            r matches Err(e) ==> (e is Database || (e matches HashError::Protocol(t) && t@
                == "hash value is not an integer"@)),
            *final(tracker) != *old(tracker) ==> (r is Err || r == Ok::<i64, HashError>(delta)),
            r is Err && !(r matches Err(HashError::Database(_))) ==> *final(tracker) == *old(tracker),
            r matches Ok(v) ==> exists|read: Option<Result<Seq<u8>, StoreErrorView>>|
                #[trigger] field_increment(read, delta) == Some(v),
    {
        let name = field_key(key, field);
        let meta = meta_key(key);
        let field_exists = contains_key(&self.store, name.as_slice());
        let read = if field_exists {
            match get_bytes(&self.store, name.as_slice()) {
                Ok(bytes) => Some(Ok(bytes)),
                Err(e) => Some(Err(store_error(e))),
            }
        } else {
            tracker.add_update(meta, 1);
            self.maybe_flush_metadata(tracker);
            None
        };
        let ghost read_v = read_view(read);
        let (new_value, text) = match field_after(read, delta) {
            Ok(next) => next,
            Err(e) => return Err(e),
        };
        match insert(&self.store, name.as_slice(), text.as_slice()) {
            Ok(_) => {
                assert(field_increment(read_v, delta) == Some(new_value));
                Ok(new_value)
            },
            Err(e) => Err(HashError::Database(store_error(e))),
        }
    }
}

} // verus!
