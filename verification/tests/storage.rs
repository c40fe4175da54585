use toydb::error::Error;
use toydb::log::{Bound, Range, Store};
use toydb::memory::Memory;

fn entry(bytes: &[u8]) -> Vec<u8> {
    bytes.to_vec()
}

#[test]
fn test_empty_memory() {
    let l = Memory::new();
    assert_eq!(l.len(), 0);
    assert!(l.is_empty());
    assert_eq!(l.committed(), 0);
    assert_eq!(l.size(), 0);
    assert_eq!(l.get(0).unwrap(), None);
    assert_eq!(l.get(1).unwrap(), None);
    let scanned = l.scan(Range::from(Bound::Unbounded, Bound::Unbounded));
    assert!(scanned.is_empty());
}

#[test]
fn test_append_get_memory() {
    let mut l = Memory::new();
    assert_eq!(l.append(entry(&[0x01])).unwrap(), 1);
    assert_eq!(l.append(entry(&[0x02])).unwrap(), 2);
    assert_eq!(l.append(entry(&[0x03])).unwrap(), 3);
    // get(i) returns the i-th appended entry before a commit,
    for i in 1..=3u64 {
        assert_eq!(l.get(i).unwrap(), Some(vec![i as u8]));
    }
    assert_eq!(l.get(0).unwrap(), None);
    assert_eq!(l.get(4).unwrap(), None);
    // and still after one.
    l.commit(2).unwrap();
    for i in 1..=3u64 {
        assert_eq!(l.get(i).unwrap(), Some(vec![i as u8]));
    }
    assert!(!l.is_empty());
}

#[test]
fn test_commit_memory() {
    let mut l = Memory::new();
    l.append(entry(&[0x01])).unwrap();
    l.append(entry(&[0x02])).unwrap();
    l.commit(2).unwrap();
    assert_eq!(l.committed(), 2);
    // Committing the committed index again is a no-op.
    l.commit(2).unwrap();
    assert_eq!(l.committed(), 2);
    // Committing below the boundary or beyond the end fails.
    let below = l.commit(1).unwrap_err();
    assert!(matches!(below, Error::Internal(_)));
    let beyond = l.commit(3).unwrap_err();
    assert!(matches!(beyond, Error::Internal(_)));
    assert_eq!(l.committed(), 2);
    assert_eq!(l.len(), 2);
}

#[test]
fn test_truncate_memory() {
    let mut l = Memory::new();
    for b in [1u8, 2, 3, 4, 5] {
        l.append(entry(&[b])).unwrap();
    }
    l.commit(2).unwrap();
    // Truncating at or above the boundary keeps exactly that many entries.
    assert_eq!(l.truncate(4).unwrap(), 4);
    assert_eq!(l.len(), 4);
    assert_eq!(l.get(4).unwrap(), Some(vec![4]));
    assert_eq!(l.get(5).unwrap(), None);
    // Truncating beyond the end is a no-op returning the length.
    assert_eq!(l.truncate(100).unwrap(), 4);
    // Truncating below the committed boundary fails and changes nothing.
    let err = l.truncate(1).unwrap_err();
    assert!(matches!(err, Error::Internal(_)));
    assert_eq!(l.len(), 4);
    assert_eq!(l.committed(), 2);
}

#[test]
fn test_scan_bounds_memory() {
    let mut l = Memory::new();
    for b in [1u8, 2, 3, 4, 5] {
        l.append(entry(&[b])).unwrap();
    }
    l.commit(3).unwrap();
    let scan = |s: Bound, e: Bound| l.scan(Range::from(s, e));
    // All four combinations of included and excluded bounds.
    assert_eq!(
        scan(Bound::Included(2), Bound::Included(4)),
        vec![vec![2], vec![3], vec![4]]
    );
    assert_eq!(scan(Bound::Included(2), Bound::Excluded(4)), vec![vec![2], vec![3]]);
    assert_eq!(scan(Bound::Excluded(2), Bound::Included(4)), vec![vec![3], vec![4]]);
    assert_eq!(scan(Bound::Excluded(2), Bound::Excluded(4)), vec![vec![3]]);
    // Unbounded ends clamp to the log.
    assert_eq!(
        scan(Bound::Unbounded, Bound::Unbounded),
        vec![vec![1], vec![2], vec![3], vec![4], vec![5]]
    );
    assert_eq!(scan(Bound::Included(4), Bound::Unbounded), vec![vec![4], vec![5]]);
    assert_eq!(scan(Bound::Unbounded, Bound::Included(2)), vec![vec![1], vec![2]]);
    // Index 0 on an included start collapses to 1; an excluded 0 end is empty.
    assert_eq!(
        scan(Bound::Included(0), Bound::Included(2)),
        vec![vec![1], vec![2]]
    );
    assert_eq!(scan(Bound::Unbounded, Bound::Excluded(0)), Vec::<Vec<u8>>::new());
    // An inverted or out-of-range window yields nothing.
    assert_eq!(scan(Bound::Included(4), Bound::Included(2)), Vec::<Vec<u8>>::new());
    assert_eq!(scan(Bound::Included(6), Bound::Included(9)), Vec::<Vec<u8>>::new());
    // The end is clamped to the length.
    assert_eq!(scan(Bound::Included(5), Bound::Included(9)), vec![vec![5]]);
}

#[test]
fn test_size_memory() {
    let mut l = Memory::new();
    l.append(entry(&[1, 2, 3])).unwrap();
    l.append(entry(&[4, 5])).unwrap();
    l.append(entry(&[6, 7, 8, 9])).unwrap();
    // Only committed entries count toward the size.
    assert_eq!(l.size(), 0);
    l.commit(2).unwrap();
    assert_eq!(l.size(), 5);
    l.commit(3).unwrap();
    assert_eq!(l.size(), 9);
}

#[test]
fn test_metadata_memory() {
    let mut l = Memory::new();
    assert_eq!(l.get_metadata(b"term").unwrap(), None);
    l.set_metadata(b"term", vec![0x07]).unwrap();
    assert_eq!(l.get_metadata(b"term").unwrap(), Some(vec![0x07]));
    // Setting a key again replaces its value exactly.
    l.set_metadata(b"term", vec![0x08, 0x09]).unwrap();
    assert_eq!(l.get_metadata(b"term").unwrap(), Some(vec![0x08, 0x09]));
    l.set_metadata(b"vote", vec![0x01]).unwrap();
    assert_eq!(l.get_metadata(b"vote").unwrap(), Some(vec![0x01]));
    assert_eq!(l.get_metadata(b"term").unwrap(), Some(vec![0x08, 0x09]));
    assert_eq!(l.get_metadata(b"other").unwrap(), None);
}

#[test]
fn test_error_kinds() {
    let mut l = Memory::new();
    let err = l.commit(1).unwrap_err();
    assert!(err.is_internal());
    let user = Error::Value("v".to_owned());
    assert!(!user.is_internal());
}
