use pmmr_store::backend::PMMRBackend;
use pmmr_store::codec::encode_u64;
use pmmr_store::StoreError;

/// A 40-byte record for a sum width of 8: a 32-byte hash filled with
/// `tag`, then an 8-byte sum encoding.
fn record(tag: u8) -> Vec<u8> {
    let mut r = vec![tag; 32];
    r.extend_from_slice(&[0, 0, 0, 0, 0, 0, 0, tag]);
    r
}

fn five_record_backend() -> PMMRBackend {
    let mut backend = PMMRBackend::new(8, Vec::new(), Vec::new(), Vec::new()).unwrap();
    let recs = vec![record(1), record(2), record(3), record(4), record(5)];
    backend.append(1, recs).unwrap();
    backend
}

#[test]
fn fresh_open_of_missing_files() {
    let backend = PMMRBackend::new(8, Vec::new(), Vec::new(), Vec::new()).unwrap();
    assert_eq!(backend.buffer_index(), 0);
    assert_eq!(backend.rm_log_len(), 0);
    assert_eq!(backend.pruned_file_bytes(), Vec::<u8>::new());
    assert_eq!(backend.get(1), None);
}

#[test]
fn append_then_read_before_sync() {
    let backend = five_record_backend();
    assert_eq!(backend.get(3), Some(record(3)));
    assert_eq!(backend.data_size(), 5 * 40);
    assert_eq!(backend.buffer_index(), 0);
}

#[test]
fn sync_then_read() {
    let mut backend = five_record_backend();
    backend.sync();
    assert_eq!(backend.buffer_index(), 5);
    assert_eq!(backend.buffer_len(), 0);
    assert_eq!(backend.get(3), Some(record(3)));
}

#[test]
fn remove_and_get() {
    let mut backend = five_record_backend();
    backend.sync();
    backend.remove(vec![2, 4]).unwrap();
    assert_eq!(backend.get(2), None);
    assert_eq!(backend.get(4), None);
    assert_eq!(backend.get(3), Some(record(3)));
    let mut expected = encode_u64(2);
    expected.extend_from_slice(&encode_u64(4));
    assert_eq!(backend.rm_log_bytes(), &expected);
}

#[test]
fn compact_with_threshold_one() {
    let mut backend = five_record_backend();
    backend.sync();
    backend.remove(vec![2, 4]).unwrap();
    backend.check_compact(1).unwrap();
    assert_eq!(backend.data_size(), 3 * 40);
    let mut pruned = encode_u64(2);
    pruned.extend_from_slice(&encode_u64(4));
    assert_eq!(backend.pruned_file_bytes(), pruned);
    assert_eq!(backend.get(3), Some(record(3)));
    assert_eq!(backend.get(2), None);
    assert_eq!(backend.get(4), None);
    assert_eq!(backend.rm_log_len(), 0);
}

#[test]
fn recovery_after_restart() {
    let mut backend = five_record_backend();
    backend.sync();
    backend.remove(vec![2, 4]).unwrap();
    backend.check_compact(1).unwrap();
    let data = backend.data_file_bytes().clone();
    let rm_log = backend.rm_log_bytes().clone();
    let pruned = backend.pruned_file_bytes();
    let reopened = PMMRBackend::new(8, data, rm_log, pruned).unwrap();
    assert_eq!(reopened.buffer_index(), 3);
    assert_eq!(reopened.get(1), Some(record(1)));
    assert_eq!(reopened.get(3), Some(record(3)));
    assert_eq!(reopened.get(5), Some(record(5)));
    assert_eq!(reopened.get(2), None);
    assert_eq!(reopened.get(4), None);
    assert_eq!(reopened.rm_log_len(), 0);
}

#[test]
fn stability_across_compaction() {
    let mut backend = five_record_backend();
    backend.sync();
    backend.remove(vec![1, 5]).unwrap();
    let before2 = backend.get(2);
    let before3 = backend.get(3);
    let before4 = backend.get(4);
    backend.check_compact(1).unwrap();
    assert_eq!(backend.get(2), before2);
    assert_eq!(backend.get(3), before3);
    assert_eq!(backend.get(4), before4);
    assert_eq!(backend.get(2), Some(record(2)));
}

#[test]
fn append_off_frontier_is_refused() {
    let mut backend = five_record_backend();
    let err = backend.append(7, vec![record(6)]);
    assert_eq!(err, Err(StoreError::PositionMismatch));
    assert_eq!(backend.get(6), None);
    let err0 = backend.append(0, vec![record(6)]);
    assert_eq!(err0, Err(StoreError::PositionMismatch));
    backend.append(6, vec![record(6)]).unwrap();
    assert_eq!(backend.get(6), Some(record(6)));
}

#[test]
fn append_after_compaction_continues_at_frontier() {
    let mut backend = five_record_backend();
    backend.sync();
    backend.remove(vec![2]).unwrap();
    backend.check_compact(1).unwrap();
    // The frontier is untouched by compaction within one process run.
    backend.append(6, vec![record(6)]).unwrap();
    assert_eq!(backend.get(6), Some(record(6)));
    backend.sync();
    assert_eq!(backend.get(6), Some(record(6)));
    assert_eq!(backend.get(5), Some(record(5)));
}

#[test]
fn compact_below_threshold_is_a_noop() {
    let mut backend = five_record_backend();
    backend.sync();
    backend.remove(vec![2, 4]).unwrap();
    backend.check_compact(2).unwrap();
    assert_eq!(backend.data_size(), 5 * 40);
    assert_eq!(backend.rm_log_len(), 2);
    // Zero selects the default cap of ten thousand entries: also a no-op.
    backend.check_compact(0).unwrap();
    assert_eq!(backend.data_size(), 5 * 40);
    assert_eq!(backend.rm_log_len(), 2);
}

#[test]
fn removed_buffered_record_reads_as_absent() {
    let mut backend = five_record_backend();
    // No sync: position 2 is only in the buffer.
    backend.remove(vec![2]).unwrap();
    assert_eq!(backend.get(2), None);
    assert_eq!(backend.get(1), Some(record(1)));
    backend.sync();
    assert_eq!(backend.get(2), None);
}

#[test]
fn other_sum_width_addresses_by_record_len() {
    let mut backend = PMMRBackend::new(4, Vec::new(), Vec::new(), Vec::new()).unwrap();
    let mut r1 = vec![9u8; 32];
    r1.extend_from_slice(&[0, 0, 0, 9]);
    let mut r2 = vec![7u8; 32];
    r2.extend_from_slice(&[0, 0, 0, 7]);
    backend.append(1, vec![r1.clone(), r2.clone()]).unwrap();
    assert_eq!(backend.data_size(), 2 * 36);
    backend.sync();
    assert_eq!(backend.get(1), Some(r1));
    assert_eq!(backend.get(2), Some(r2));
}

#[test]
fn corrupt_data_file_is_refused() {
    // 41 bytes is not a whole number of 40-byte records.
    let data = vec![0u8; 41];
    let r = PMMRBackend::new(8, data, Vec::new(), Vec::new());
    assert_eq!(r.err(), Some(StoreError::Corruption));
}

#[test]
fn corrupt_rm_log_is_refused() {
    let r = PMMRBackend::new(8, Vec::new(), vec![1, 2, 3], Vec::new());
    assert_eq!(r.err(), Some(StoreError::Corruption));
}

#[test]
fn repeated_remove_changes_nothing() {
    let mut backend = five_record_backend();
    backend.sync();
    backend.remove(vec![3]).unwrap();
    let log_once = backend.rm_log_bytes().clone();
    backend.remove(vec![3]).unwrap();
    assert_eq!(backend.rm_log_bytes(), &log_once);
    assert_eq!(backend.rm_log_len(), 1);
}

#[test]
fn removal_log_absorbs_duplicates_as_a_set() {
    let mut backend = five_record_backend();
    backend.remove(vec![4, 2, 4]).unwrap();
    assert_eq!(backend.rm_log_len(), 2);
    let mut expected = encode_u64(4);
    expected.extend_from_slice(&encode_u64(2));
    assert_eq!(backend.rm_log_bytes(), &expected);
}

#[test]
fn compact_with_unaddressable_position_reports_corruption() {
    // A removal log listing positions the data file does not hold.
    let mut rm_log = encode_u64(1);
    rm_log.extend_from_slice(&encode_u64(2));
    let mut backend = PMMRBackend::new(8, Vec::new(), rm_log, Vec::new()).unwrap();
    assert_eq!(backend.rm_log_len(), 2);
    let r = backend.check_compact(1);
    assert_eq!(r, Err(StoreError::Corruption));
    // Nothing changed: the log still holds both positions.
    assert_eq!(backend.rm_log_len(), 2);
    assert_eq!(backend.data_size(), 0);
    assert_eq!(backend.pruned_file_bytes(), Vec::<u8>::new());
}
