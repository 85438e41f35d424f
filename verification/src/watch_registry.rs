use dashmap::DashMap;
use vstd::prelude::*;
use vstd::slice::slice_to_vec;

verus! {

#[verifier::external_type_specification]
#[verifier::external_body]
#[verifier::reject_recursive_types(K)]
#[verifier::reject_recursive_types(V)]
#[verifier::reject_recursive_types(S)]
pub struct ExDashMap<K, V, S>(DashMap<K, V, S>);

/// A map from keys to the version of their last modification.
pub type VersionMap = DashMap<Vec<u8>, u64>;

/// The key-to-version entries held by a version map.
pub uninterp spec fn version_entries(m: VersionMap) -> Map<Seq<u8>, u64>;

/// `DashMap::new`: an empty map.
#[verifier::external_body]
fn new_version_map() -> (fresh: VersionMap)
    ensures
        version_entries(fresh).dom().is_empty(),
{
    DashMap::new()
}

/// `DashMap::insert`: afterwards `key` maps to `version`, other entries are kept.
#[verifier::external_body]
fn set_version(m: &mut VersionMap, key: Vec<u8>, version: u64)
    ensures
        version_entries(*final(m)) == version_entries(*old(m)).insert(key@, version),
{
    m.insert(key, version);
}

/// `DashMap::get`: the version stored for `key`, if any.
#[verifier::external_body]
fn lookup_version(m: &VersionMap, key: &[u8]) -> (r: Option<u64>)
    ensures
        r == (if version_entries(*m).contains_key(key@) {
            Some(version_entries(*m)[key@])
        } else {
            None
        }),
{
    match m.get(key) {
        Some(entry) => Some(*entry),
        None => None,
    }
}

/// The abstract state of the registry: the next version to hand out and the
/// version of the last modification of each key.
pub struct VersionTable {
    pub next: u64,
    pub versions: Map<Seq<u8>, u64>,
}

impl VersionTable {
    /// The version a key has now; 0 for a key never modified.
    pub open spec fn version_of(self, key: Seq<u8>) -> u64 {
        if self.versions.contains_key(key) {
            self.versions[key]
        } else {
            0
        }
    }

    /// Every recorded version is below the next one, which is at least 1.
    pub open spec fn well_formed(self) -> bool {
        &&& 1 <= self.next
        &&& forall|k: Seq<u8>| #[trigger] self.versions.contains_key(k) ==> self.versions[k] < self.next
    }

    /// The table after a modification of `key`.
    pub open spec fn bumped(self, key: Seq<u8>) -> VersionTable {
        VersionTable {
            next: if self.next == u64::MAX {
                0
            } else {
                (self.next + 1) as u64
            },
            versions: self.versions.insert(key, self.next),
        }
    }

    /// The table after modifications of `keys`, in order.
    pub open spec fn bumped_all(self, keys: Seq<Seq<u8>>) -> VersionTable
        decreases keys.len(),
    {
        if keys.len() == 0 {
            self
        } else {
            self.bumped_all(keys.drop_last()).bumped(keys.last())
        }
    }

    /// Whether every watched key still has the version recorded for it.
    pub open spec fn all_unchanged(self, watched: Seq<(Seq<u8>, u64)>) -> bool {
        forall|i: int| 0 <= i < watched.len() ==> self.version_of(#[trigger] watched[i].0) == watched[i].1
    }
}

/// Watched keys with their versions, the keys as sequences.
pub open spec fn version_list(w: Seq<(Vec<u8>, u64)>) -> Seq<(Seq<u8>, u64)> {
    w.map_values(|e: (Vec<u8>, u64)| (e.0@, e.1))
}

/// Per-key modification versions, for WATCH: a transaction checks at EXEC that
/// the keys it watched still have the versions seen when they were watched.
pub struct WatchRegistry {
    global_version: u64,
    key_versions: VersionMap,
}

impl View for WatchRegistry {
    type V = VersionTable;

    closed spec fn view(&self) -> VersionTable {
        VersionTable { next: self.global_version, versions: version_entries(self.key_versions) }
    }
}

impl WatchRegistry {
    pub fn new() -> (r: Self)
        ensures
            r@.next == 1,
            r@.versions == Map::<Seq<u8>, u64>::empty(),
            r@.well_formed(),
    {
        WatchRegistry { global_version: 1, key_versions: new_version_map() }
    }

    /// Records a modification of `key`: it takes the next version, and the next
    /// version advances (wrapping at `u64::MAX`).
    pub fn notify_key_modified(&mut self, key: &[u8])
        ensures
            final(self)@ == old(self)@.bumped(key@),
            old(self)@.well_formed() && old(self)@.next < u64::MAX ==> final(self)@.well_formed(),
    {
        let version = self.global_version;
        self.global_version = if self.global_version == u64::MAX {
            0
        } else {
            self.global_version + 1
        };
        set_version(&mut self.key_versions, slice_to_vec(key), version);
    }

    /// The version of the last modification of `key`, 0 if never modified.
    pub fn get_key_version(&self, key: &[u8]) -> (r: u64)
        ensures
            r == self@.version_of(key@),
    {
        match lookup_version(&self.key_versions, key) {
            Some(v) => v,
            None => 0,
        }
    }

    /// Whether every watched key still has the version it was watched with.
    pub fn check_keys_unchanged(&self, watched_versions: &[(Vec<u8>, u64)]) -> (r: bool)
        ensures
            r == self@.all_unchanged(version_list(watched_versions@)),
    {
        let ghost watched = version_list(watched_versions@);
        let mut k: usize = 0;
        while k < watched_versions.len()
            invariant
                k <= watched_versions@.len(),
                watched == version_list(watched_versions@),
                forall|i: int| 0 <= i < k ==> self@.version_of(#[trigger] watched[i].0) == watched[i].1,
            decreases watched_versions@.len() - k,
        {
            let current_version = self.get_key_version(watched_versions[k].0.as_slice());
            if current_version != watched_versions[k].1 {
                assert(self@.version_of(watched[k as int].0) != watched[k as int].1);
                return false;
            }
            k += 1;
        }
        true
    }
}

/// Modifying keys changes exactly their versions: after the modifications
/// `keys`, a key has the version it had before if and only if it is not among
/// them (as long as the version counter does not wrap around).
pub proof fn law_modified_keys_change_version(t: VersionTable, keys: Seq<Seq<u8>>, k: Seq<u8>)
    requires
        t.well_formed(),
        t.next + keys.len() <= u64::MAX,
    ensures
        (t.bumped_all(keys).version_of(k) == t.version_of(k)) <==> !keys.contains(k),
{
    lemma_bumped_all(t, keys);
}

/// A transaction aborts once a key it watched is modified: if the key was
/// watched at the version it had, and it is among the keys modified since
/// (with the version counter not wrapping around), the check at EXEC fails.
pub proof fn law_modified_watch_aborts(
    t: VersionTable,
    watched: Seq<(Seq<u8>, u64)>,
    modified: Seq<Seq<u8>>,
    k: Seq<u8>,
)
    requires
        t.well_formed(),
        t.next + modified.len() <= u64::MAX,
        watched.contains((k, t.version_of(k))),
        modified.contains(k),
    ensures
        !t.bumped_all(modified).all_unchanged(watched),
{
    lemma_bumped_all(t, modified);
    let i = choose|i: int| 0 <= i < watched.len() && watched[i] == (k, t.version_of(k));
    assert(t.bumped_all(modified).version_of(watched[i].0) != watched[i].1);
}

/// A transaction goes through when none of its watched keys is modified: if
/// every key was watched at the version it had, and none is among the keys
/// modified since (with the counter not wrapping around), the check passes.
pub proof fn law_untouched_watch_passes(t: VersionTable, watched: Seq<(Seq<u8>, u64)>, modified: Seq<Seq<u8>>)
    requires
        t.well_formed(),
        t.next + modified.len() <= u64::MAX,
        t.all_unchanged(watched),
        forall|i: int| 0 <= i < watched.len() ==> !modified.contains(#[trigger] watched[i].0),
    ensures
        t.bumped_all(modified).all_unchanged(watched),
{
    lemma_bumped_all(t, modified);
}

/// Every registry is well formed until its version counter wraps around:
/// starting from the empty table of `new`, after the modifications `keys`
/// (fewer than `u64::MAX - 1` of them), every recorded version is below the
/// next one, which is one more than the number of modifications.
pub proof fn law_registry_well_formed(keys: Seq<Seq<u8>>)
    requires
        keys.len() < u64::MAX - 1,
    ensures
        (VersionTable { next: 1, versions: Map::empty() }).bumped_all(keys).well_formed(),
        (VersionTable { next: 1, versions: Map::empty() }).bumped_all(keys).next == 1 + keys.len(),
{
    let t = VersionTable { next: 1, versions: Map::empty() };
    assert(t.well_formed());
    lemma_bumped_all(t, keys);
}

proof fn lemma_bumped_all(t: VersionTable, keys: Seq<Seq<u8>>)
    requires
        t.well_formed(),
        t.next + keys.len() <= u64::MAX,
    ensures
        t.bumped_all(keys).next == t.next + keys.len(),
        t.bumped_all(keys).well_formed(),
        forall|k: Seq<u8>|
            #[trigger] keys.contains(k) ==> t.bumped_all(keys).versions.contains_key(k)
                && t.bumped_all(keys).versions[k] >= t.next,
        forall|k: Seq<u8>|
            !#[trigger] keys.contains(k) ==> t.bumped_all(keys).version_of(k) == t.version_of(k),
        forall|k: Seq<u8>| t.version_of(k) < t.next,
    decreases keys.len(),
{
    if keys.len() > 0 {
        let prefix = keys.drop_last();
        lemma_bumped_all(t, prefix);
        assert forall|k: Seq<u8>| #[trigger] keys.contains(k) implies t.bumped_all(keys).versions.contains_key(k)
            && t.bumped_all(keys).versions[k] >= t.next by {
            if k != keys.last() {
                let i = choose|i: int| 0 <= i < keys.len() && keys[i] == k;
                assert(prefix[i] == k);
                assert(prefix.contains(k));
            } else {
                assert(t.bumped_all(prefix).next == t.next + prefix.len());
            }
        }
        assert forall|k: Seq<u8>| !#[trigger] keys.contains(k) implies t.bumped_all(keys).version_of(k)
            == t.version_of(k) by {
            assert(k != keys.last());
            if prefix.contains(k) {
                let i = choose|i: int| 0 <= i < prefix.len() && prefix[i] == k;
                assert(keys[i] == k);
            }
        }
    }
}

} // verus!
