use pmmr_store::append_file::AppendOnlyFile;
use pmmr_store::codec::{decode_u64, encode_u64};
use pmmr_store::ordered::{read_ordered_vec, write_vec};
use pmmr_store::prune_list::PruneList;
use pmmr_store::remove_log::RemoveLog;

#[test]
fn codec_is_big_endian_fixed_width() {
    assert_eq!(encode_u64(2), vec![0, 0, 0, 0, 0, 0, 0, 2]);
    assert_eq!(
        encode_u64(0x0102030405060708),
        vec![1, 2, 3, 4, 5, 6, 7, 8]
    );
    let bytes = encode_u64(u64::MAX - 5);
    assert_eq!(decode_u64(&bytes, 0), u64::MAX - 5);
}

#[test]
fn ordered_vec_round_trip() {
    let v = vec![3u64, 17, 900, u64::MAX];
    let bytes = write_vec(&v);
    assert_eq!(bytes.len(), 32);
    let back = read_ordered_vec(&bytes).unwrap();
    assert_eq!(back, v);
}

#[test]
fn ordered_vec_sorts_and_dedups() {
    let mut bytes = encode_u64(9);
    bytes.extend_from_slice(&encode_u64(4));
    bytes.extend_from_slice(&encode_u64(9));
    bytes.extend_from_slice(&encode_u64(1));
    let back = read_ordered_vec(&bytes).unwrap();
    assert_eq!(back, vec![1, 4, 9]);
}

#[test]
fn ordered_vec_rejects_partial_scalar() {
    let bytes = vec![0u8; 12];
    assert!(read_ordered_vec(&bytes).is_err());
}

#[test]
fn remove_log_is_a_set() {
    let mut log = RemoveLog::open(Vec::new()).unwrap();
    log.append(&vec![5, 3, 5, 9]);
    assert_eq!(log.len(), 3);
    assert!(log.includes(3));
    assert!(log.includes(5));
    assert!(log.includes(9));
    assert!(!log.includes(4));
    assert_eq!(log.removed, vec![3, 5, 9]);
}

#[test]
fn remove_log_append_is_idempotent() {
    let mut log = RemoveLog::open(Vec::new()).unwrap();
    log.append(&vec![7]);
    let file_once = log.file.clone();
    let removed_once = log.removed.clone();
    log.append(&vec![7]);
    assert_eq!(log.file, file_once);
    assert_eq!(log.removed, removed_once);
    assert_eq!(log.file, encode_u64(7));
}

#[test]
fn remove_log_truncate_empties_set_and_file() {
    let mut log = RemoveLog::open(Vec::new()).unwrap();
    log.append(&vec![1, 2]);
    log.truncate();
    assert_eq!(log.len(), 0);
    assert!(log.file.is_empty());
}

#[test]
fn prune_list_shift_counts_pruned_below() {
    let mut pl = PruneList::new(Vec::new());
    pl.add(2);
    pl.add(4);
    pl.add(2);
    assert_eq!(pl.pruned_nodes, vec![2, 4]);
    assert_eq!(pl.get_shift(1), Some(0));
    assert_eq!(pl.get_shift(2), None);
    assert_eq!(pl.get_shift(3), Some(1));
    assert_eq!(pl.get_shift(4), None);
    assert_eq!(pl.get_shift(5), Some(2));
    assert_eq!(pl.pruned_pos(4), Some(1));
    assert_eq!(pl.pruned_pos(3), None);
}

#[test]
fn save_prune_skips_listed_records() {
    let mut file = AppendOnlyFile::open(Vec::new());
    file.append(&vec![1, 1, 2, 2, 3, 3, 4, 4]);
    // Prune the records (width 2) at offsets 2 and 6.
    let pruned = file.save_prune(&vec![2, 6], 2);
    assert_eq!(pruned, vec![1, 1, 3, 3]);
}

#[test]
fn append_only_file_reads_nothing_before_sync() {
    let mut file = AppendOnlyFile::open(Vec::new());
    file.append(&vec![5, 6, 7, 8]);
    assert_eq!(file.read(0, 4), Vec::<u8>::new());
    assert_eq!(file.size(), 4);
    file.sync();
    assert_eq!(file.read(1, 2), vec![6, 7]);
}
