use toydb::error::Error;
use toydb::hybrid::Hybrid;
use toydb::log::{Bound, Range, Store};

fn fresh(sync: bool) -> Hybrid {
    Hybrid::open(Vec::new(), Vec::new(), sync).unwrap()
}

/// Reopens a store from the bytes its files would hold, simulating a
/// restart: uncommitted entries are gone, durable state is kept.
fn reopen(l: &Hybrid) -> Hybrid {
    Hybrid::open(l.log_file().clone(), l.meta_file().clone(), l.sync_mode()).unwrap()
}

#[test]
fn test_persistent() {
    let mut l = fresh(true);

    l.append(vec![0x01]).unwrap();
    l.append(vec![0x02]).unwrap();
    l.append(vec![0x03]).unwrap();
    l.append(vec![0x04]).unwrap();
    l.append(vec![0x05]).unwrap();
    l.commit(3).unwrap();

    let l = reopen(&l);

    assert_eq!(
        vec![vec![1], vec![2], vec![3]],
        l.scan(Range::from(Bound::Unbounded, Bound::Unbounded))
    );
    assert_eq!(l.committed(), 3);
}

#[test]
fn test_empty_hybrid() {
    let l = fresh(false);
    assert_eq!(l.len(), 0);
    assert!(l.is_empty());
    assert_eq!(l.committed(), 0);
    assert_eq!(l.size(), 0);
    assert_eq!(l.get(0).unwrap(), None);
    assert_eq!(l.get(1).unwrap(), None);
    assert!(l.log_file().is_empty());
    assert!(l.meta_file().is_empty());
}

#[test]
fn test_append_get_hybrid() {
    let mut l = fresh(false);
    for b in [1u8, 2, 3, 4, 5] {
        assert_eq!(l.append(vec![b]).unwrap(), b as u64);
    }
    // Before a commit every entry comes from the in-memory queue,
    for i in 1..=5u64 {
        assert_eq!(l.get(i).unwrap(), Some(vec![i as u8]));
    }
    // afterwards the committed prefix is read back from the record log.
    l.commit(3).unwrap();
    for i in 1..=5u64 {
        assert_eq!(l.get(i).unwrap(), Some(vec![i as u8]));
    }
    assert_eq!(l.get(0).unwrap(), None);
    assert_eq!(l.get(6).unwrap(), None);
}

#[test]
fn test_commit_hybrid() {
    let mut l = fresh(false);
    l.append(vec![0x01]).unwrap();
    l.append(vec![0x02]).unwrap();
    l.commit(2).unwrap();
    assert_eq!(l.committed(), 2);
    let log_before = l.log_file().clone();
    // No-op commit of the current boundary: the file does not change.
    l.commit(2).unwrap();
    assert_eq!(l.log_file(), &log_before);
    // Regression and beyond-the-end commits fail.
    assert!(matches!(l.commit(1).unwrap_err(), Error::Internal(_)));
    assert!(matches!(l.commit(3).unwrap_err(), Error::Internal(_)));
    assert_eq!(l.committed(), 2);
    // A later commit only appends to the log file.
    l.append(vec![0x03]).unwrap();
    l.commit(3).unwrap();
    assert_eq!(&l.log_file()[..log_before.len()], &log_before[..]);
}

#[test]
fn test_log_file_format() {
    // The log file is a sequence of 4-byte big-endian length prefixes,
    // each followed by its payload, and nothing else.
    let mut l = fresh(false);
    l.append(vec![0xAA, 0xBB]).unwrap();
    l.append(vec![0xCC]).unwrap();
    l.commit(2).unwrap();
    assert_eq!(
        l.log_file().as_slice(),
        &[0, 0, 0, 2, 0xAA, 0xBB, 0, 0, 0, 1, 0xCC]
    );
}

#[test]
fn test_size_hybrid() {
    let mut l = fresh(false);
    l.append(vec![1, 2, 3]).unwrap();
    l.append(vec![4, 5]).unwrap();
    l.append(vec![6]).unwrap();
    assert_eq!(l.size(), 0);
    // Committing k entries of B total payload bytes makes the size
    // exactly 4*k + B, however many uncommitted entries exist.
    l.commit(2).unwrap();
    assert_eq!(l.size(), 4 * 2 + 5);
    l.append(vec![7, 8, 9]).unwrap();
    assert_eq!(l.size(), 4 * 2 + 5);
    l.commit(4).unwrap();
    assert_eq!(l.size(), 4 * 4 + 9);
}

#[test]
fn test_truncate_hybrid() {
    let mut l = fresh(false);
    for b in [1u8, 2, 3, 4, 5] {
        l.append(vec![b]).unwrap();
    }
    l.commit(2).unwrap();
    assert_eq!(l.truncate(3).unwrap(), 3);
    assert_eq!(l.len(), 3);
    assert_eq!(l.get(3).unwrap(), Some(vec![3]));
    assert_eq!(l.get(4).unwrap(), None);
    // Truncating the committed prefix fails and leaves it untouched.
    assert!(matches!(l.truncate(1).unwrap_err(), Error::Internal(_)));
    assert_eq!(l.len(), 3);
    assert_eq!(l.committed(), 2);
    // Truncating exactly at the boundary drops the whole queue.
    assert_eq!(l.truncate(2).unwrap(), 2);
    assert_eq!(l.len(), 2);
}

#[test]
fn test_scan_bounds_hybrid() {
    let mut l = fresh(false);
    for b in [1u8, 2, 3, 4, 5] {
        l.append(vec![b]).unwrap();
    }
    // The scan spans committed and uncommitted entries transparently.
    l.commit(3).unwrap();
    let scan = |s: Bound, e: Bound| l.scan(Range::from(s, e));
    assert_eq!(
        scan(Bound::Included(2), Bound::Included(4)),
        vec![vec![2], vec![3], vec![4]]
    );
    assert_eq!(scan(Bound::Included(2), Bound::Excluded(4)), vec![vec![2], vec![3]]);
    assert_eq!(scan(Bound::Excluded(2), Bound::Included(4)), vec![vec![3], vec![4]]);
    assert_eq!(scan(Bound::Excluded(2), Bound::Excluded(4)), vec![vec![3]]);
    assert_eq!(
        scan(Bound::Unbounded, Bound::Unbounded),
        vec![vec![1], vec![2], vec![3], vec![4], vec![5]]
    );
    assert_eq!(scan(Bound::Included(0), Bound::Excluded(0)), Vec::<Vec<u8>>::new());
    assert_eq!(scan(Bound::Included(5), Bound::Included(2)), Vec::<Vec<u8>>::new());
}

#[test]
fn test_reopen_discards_uncommitted() {
    let mut l = fresh(false);
    for b in [1u8, 2, 3, 4, 5] {
        l.append(vec![b]).unwrap();
    }
    l.commit(2).unwrap();
    let l2 = reopen(&l);
    assert_eq!(l2.committed(), 2);
    assert_eq!(l2.len(), 2);
    assert_eq!(l2.get(1).unwrap(), Some(vec![1]));
    assert_eq!(l2.get(2).unwrap(), Some(vec![2]));
    // Entries appended but never committed are gone after the restart.
    assert_eq!(l2.get(3).unwrap(), None);
    assert_eq!(l2.size(), l.size());
}

#[test]
fn test_metadata_hybrid_persist() {
    let mut l = fresh(true);
    l.set_metadata(b"term", vec![0x07]).unwrap();
    l.set_metadata(b"vote", vec![0x02]).unwrap();
    l.set_metadata(b"term", vec![0x08]).unwrap();
    assert_eq!(l.get_metadata(b"term").unwrap(), Some(vec![0x08]));
    assert_eq!(l.get_metadata(b"vote").unwrap(), Some(vec![0x02]));
    assert_eq!(l.get_metadata(b"none").unwrap(), None);
    // The whole map survives a simulated restart byte-exactly.
    let l2 = reopen(&l);
    assert_eq!(l2.get_metadata(b"term").unwrap(), Some(vec![0x08]));
    assert_eq!(l2.get_metadata(b"vote").unwrap(), Some(vec![0x02]));
    assert_eq!(l2.get_metadata(b"none").unwrap(), None);
}

#[test]
fn test_open_corrupt_log() {
    // A log that ends inside a record is rejected on open.
    let short_prefix = vec![0, 0];
    assert!(matches!(
        Hybrid::open(short_prefix, Vec::new(), false).unwrap_err(),
        Error::Internal(_)
    ));
    let short_payload = vec![0, 0, 0, 5, 0xAA];
    assert!(matches!(
        Hybrid::open(short_payload, Vec::new(), false).unwrap_err(),
        Error::Internal(_)
    ));
}

#[test]
fn test_open_corrupt_metadata() {
    // An empty metadata file is a fresh, empty map; garbage is fatal.
    let l = Hybrid::open(Vec::new(), Vec::new(), false).unwrap();
    assert_eq!(l.get_metadata(b"k").unwrap(), None);
    let garbage = vec![0xFF; 3];
    assert!(matches!(
        Hybrid::open(Vec::new(), garbage, false).unwrap_err(),
        Error::Internal(_)
    ));
}

#[test]
fn test_sync_mode_is_kept() {
    let l = fresh(true);
    assert!(l.sync_mode());
    let l2 = reopen(&l);
    assert!(l2.sync_mode());
    let l3 = fresh(false);
    assert!(!l3.sync_mode());
}
