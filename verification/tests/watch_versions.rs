use feox_server::watch_registry::WatchRegistry;

#[test]
fn unknown_keys_have_version_zero() {
    let registry = WatchRegistry::new();
    assert_eq!(registry.get_key_version(b"k"), 0);
}

#[test]
fn each_modification_takes_the_next_version() {
    let mut registry = WatchRegistry::new();
    registry.notify_key_modified(b"a");
    registry.notify_key_modified(b"b");
    registry.notify_key_modified(b"a");
    assert_eq!(registry.get_key_version(b"a"), 3);
    assert_eq!(registry.get_key_version(b"b"), 2);
}

#[test]
fn modified_watched_key_fails_the_check() {
    let mut registry = WatchRegistry::new();
    registry.notify_key_modified(b"a");
    let watched = vec![(b"a".to_vec(), registry.get_key_version(b"a")), (b"z".to_vec(), 0)];
    assert!(registry.check_keys_unchanged(&watched));
    registry.notify_key_modified(b"other");
    assert!(registry.check_keys_unchanged(&watched));
    registry.notify_key_modified(b"a");
    assert!(!registry.check_keys_unchanged(&watched));
    assert!(registry.check_keys_unchanged(&[]));
}
