//! Tests of the cross-process model: path resolution, the sidecar
//! counter encoding, and the lock/counter state machine.

use serial_test::file_lock::{
    count_path_for, derived_lock_path, encode_count, get_locks, interpret_count, resolve_path,
    FileLockError, FileLockState,
};

#[test]
fn test_file_with_path() {
    // An explicit path together with a single key resolves to that path.
    let paths = get_locks("/tmp", &vec!["test"], Some("/tmp/test")).unwrap();
    assert_eq!(paths, vec!["/tmp/test".to_string()]);
    let mut lock = FileLockState::on_lock_acquired(&None);
    assert!(lock.start_serial_poll());
    lock.end_serial();
}

#[test]
fn test_file_with_path_and_no_key() {
    // An explicit path with only the unnamed key resolves to that path.
    let paths = get_locks("/tmp", &vec![""], Some("/tmp/test")).unwrap();
    assert_eq!(paths, vec!["/tmp/test".to_string()]);
    let mut lock = FileLockState::on_lock_acquired(&None);
    assert!(lock.start_serial_poll());
    lock.end_serial();
}

#[test]
fn multiple_names_with_explicit_path_are_rejected() {
    let r = get_locks("/tmp", &vec!["a", "b"], Some("/tmp/test"));
    assert_eq!(r, Err(FileLockError::MultipleNamesWithPath));
    assert!(!FileLockError::MultipleNamesWithPath.message().is_empty());
}

#[test]
fn multiple_names_without_path_are_fine() {
    let paths = get_locks("/tmp", &vec!["a", "b"], None).unwrap();
    assert_eq!(
        paths,
        vec!["/tmp/serial-test-a".to_string(), "/tmp/serial-test-b".to_string()]
    );
}

#[test]
fn derived_paths() {
    assert_eq!(derived_lock_path("/tmp", "k"), "/tmp/serial-test-k");
    assert_eq!(resolve_path("/tmp", "k", None), "/tmp/serial-test-k");
    assert_eq!(resolve_path("/tmp", "k", Some("/elsewhere")), "/elsewhere");
    assert_eq!(count_path_for("/tmp/serial-test-k"), "/tmp/serial-test-k-count");
}

#[test]
fn count_encoding_is_four_bytes() {
    assert_eq!(encode_count(0), vec![0, 0, 0, 0]);
    assert_eq!(encode_count(1), vec![1, 0, 0, 0]);
    assert_eq!(encode_count(0x01020304), vec![4, 3, 2, 1]);
    assert_eq!(encode_count(u32::MAX), vec![255, 255, 255, 255]);
}

#[test]
fn count_round_trips_through_the_sidecar_bytes() {
    for c in [0u32, 1, 2, 41, 0x01020304, u32::MAX - 1, u32::MAX] {
        let written = encode_count(c);
        // Close and reopen: the reader sees exactly the bytes written.
        let reread = interpret_count(&Some(written));
        assert_eq!(reread, c);
    }
}

#[test]
fn missing_or_short_sidecar_reads_as_zero() {
    assert_eq!(interpret_count(&None), 0);
    assert_eq!(interpret_count(&Some(vec![])), 0);
    assert_eq!(interpret_count(&Some(vec![9])), 0);
    assert_eq!(interpret_count(&Some(vec![9, 9, 9])), 0);
    // Only the first four bytes count.
    assert_eq!(interpret_count(&Some(vec![5, 0, 0, 0, 77, 77])), 5);
}

#[test]
fn parallel_updates_persist_the_new_count() {
    let mut lock = FileLockState::on_lock_acquired(&None);
    assert_eq!(lock.count, 0);
    let bytes = lock.start_parallel();
    assert_eq!(bytes, encode_count(1));
    assert!(!lock.holds_lock);

    let mut lock2 = FileLockState::on_lock_acquired(&Some(bytes));
    assert_eq!(lock2.count, 1);
    let bytes2 = lock2.end_parallel();
    assert_eq!(bytes2, encode_count(0));
}

#[test]
fn serial_waits_for_parallel_participants() {
    // Process A holds the advisory lock for a serial section.
    let mut a = FileLockState::on_lock_acquired(&None);
    assert!(a.start_serial_poll());

    // A finishes; B takes the lock and joins the parallel participants,
    // persisting a count of one and dropping the lock again.
    a.end_serial();
    let mut b = FileLockState::on_lock_acquired(&None);
    let sidecar = b.start_parallel();
    assert_eq!(interpret_count(&Some(sidecar.clone())), 1);

    // B now attempts a serial section on the same path: the persisted
    // count from its own earlier parallel participation blocks it.
    let mut b_serial = FileLockState::on_lock_acquired(&Some(sidecar.clone()));
    assert!(!b_serial.start_serial_poll());
    b_serial.on_lock_released();

    // B ends its parallel participation, persisting a count of zero.
    let mut b_end = FileLockState::on_lock_acquired(&Some(sidecar));
    let sidecar = b_end.end_parallel();
    assert_eq!(interpret_count(&Some(sidecar.clone())), 0);

    // Polling again now admits the serial section.
    let mut b_serial2 = FileLockState::on_lock_acquired(&Some(sidecar));
    assert!(b_serial2.start_serial_poll());
    b_serial2.end_serial();
}

#[test]
fn observe_count_tracks_the_latest_read() {
    let mut lock = FileLockState::on_lock_acquired(&Some(encode_count(3)));
    assert_eq!(lock.count, 3);
    assert!(!lock.start_serial_poll());
    lock.on_lock_released();
    // Re-lock and observe the (changed) sidecar contents.
    let mut lock = FileLockState::on_lock_acquired(&Some(encode_count(2)));
    assert_eq!(lock.count, 2);
    lock.observe_count(&Some(encode_count(0)));
    assert!(lock.start_serial_poll());
    lock.end_serial();
}
