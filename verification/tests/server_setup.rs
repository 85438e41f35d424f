use feox_server::server::{signature_is_blank, signature_readable, worker_threads};

#[test]
fn signature_is_read_only_from_a_long_enough_file() {
    assert!(!signature_readable(None, 8));
    assert!(!signature_readable(Some(7), 8));
    assert!(signature_readable(Some(8), 8));
    assert!(signature_readable(Some(4096), 8));
}

#[test]
fn blank_signature_is_all_zero_bytes() {
    assert!(signature_is_blank(&[0u8; 8]));
    assert!(!signature_is_blank(&[0, 0, 0, 1, 0, 0, 0, 0]));
    assert!(signature_is_blank(&[]));
}

#[test]
fn worker_threads_default_to_the_cpus() {
    assert_eq!(worker_threads(0, 6), 6);
    assert_eq!(worker_threads(3, 6), 3);
}
