use feox_server::protocol::command::hash::{field_key, incremented_value, meta_key, HashOperations, MetadataTracker};

#[test]
fn tracker_accumulates_per_key() {
    let mut tracker = MetadataTracker::new(1000);
    tracker.add_update(b"H:a:meta".to_vec(), 2);
    tracker.add_update(b"H:b:meta".to_vec(), 1);
    tracker.add_update(b"H:a:meta".to_vec(), -1);
    let mut updates = tracker.take_updates(1050);
    updates.sort();
    assert_eq!(updates, vec![(b"H:a:meta".to_vec(), 1), (b"H:b:meta".to_vec(), 1)]);
    assert!(tracker.take_updates(1060).is_empty());
}

#[test]
fn flush_is_due_after_the_interval() {
    let mut tracker = MetadataTracker::new(1000);
    tracker.add_update(b"k".to_vec(), 1);
    assert!(!tracker.should_flush(1099));
    assert!(tracker.should_flush(1100));
    assert!(!tracker.should_flush(900));
    tracker.take_updates(1100);
    assert!(!tracker.should_flush(1150));
}

#[test]
fn flush_is_due_at_a_full_batch() {
    let mut tracker = MetadataTracker::new(0);
    for i in 0..999u32 {
        tracker.add_update(i.to_string().into_bytes(), 1);
    }
    assert!(!tracker.should_flush(0));
    tracker.add_update(b"last".to_vec(), 1);
    assert!(tracker.should_flush(0));
}

#[test]
fn store_keys_of_hashes() {
    assert_eq!(field_key(b"user", b"name"), b"H:user:f:name".to_vec());
    assert_eq!(meta_key(b"user"), b"H:user:meta".to_vec());
}

#[test]
fn field_counts_are_little_endian() {
    assert_eq!(HashOperations::parse_metadata(&5i64.to_le_bytes()), 5);
    assert_eq!(HashOperations::parse_metadata(&(-2i64).to_le_bytes()), -2);
    assert_eq!(HashOperations::parse_metadata(b"short"), 0);
    let mut longer = 7i64.to_le_bytes().to_vec();
    longer.push(9);
    assert_eq!(HashOperations::parse_metadata(&longer), 7);
}

#[test]
fn incrementing_stored_values() {
    assert_eq!(incremented_value(b"10", 5).unwrap(), 15);
    assert_eq!(incremented_value(b"-3", 1).unwrap(), -2);
    assert_eq!(incremented_value(b"9223372036854775807", 1).unwrap(), i64::MAX);
    assert_eq!(incremented_value(&[0xff, 0, 0, 0, 0, 0, 0, 0], 1).unwrap(), 256);
    assert_eq!(incremented_value(b"abc", 1).unwrap_err().message(), "hash value is not an integer");
    assert_eq!(incremented_value(&[0xff, 1], 1).unwrap_err().message(), "hash value is not an integer");
}
