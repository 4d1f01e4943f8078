use seglog::engine::Engine;

#[test]
fn write_batch_applies_later_entries_over_earlier_ones() {
    let mut e = Engine::new();
    e.write_batch(&vec![
        (b"k".to_vec(), b"v1".to_vec()),
        (b"other".to_vec(), b"x".to_vec()),
        (b"k".to_vec(), b"v2".to_vec()),
    ]);
    let page = e.scan_forward(b"", 10);
    assert_eq!(
        page,
        vec![
            (b"k".to_vec(), b"v2".to_vec()),
            (b"other".to_vec(), b"x".to_vec()),
        ]
    );
}

#[test]
fn delete_range_is_half_open() {
    let mut e = Engine::new();
    for k in [b"a", b"b", b"c"] {
        e.put(k, b"v");
    }
    e.delete_range(b"b", b"c");
    let keys: Vec<Vec<u8>> = e.scan_forward(b"", 10).into_iter().map(|(k, _)| k).collect();
    assert_eq!(keys, vec![b"a".to_vec(), b"c".to_vec()]);
}

#[test]
fn scans_are_inclusive_and_bounded() {
    let mut e = Engine::new();
    for k in [b"a", b"b", b"c", b"d"] {
        e.put(k, b"v");
    }
    assert_eq!(e.len(), 4);
    let fwd: Vec<Vec<u8>> = e.scan_forward(b"b", 2).into_iter().map(|(k, _)| k).collect();
    assert_eq!(fwd, vec![b"b".to_vec(), b"c".to_vec()]);
    let rev: Vec<Vec<u8>> = e.scan_reverse(b"c", 2).into_iter().map(|(k, _)| k).collect();
    assert_eq!(rev, vec![b"c".to_vec(), b"b".to_vec()]);
    let newest: Vec<Vec<u8>> = e.last_entries(3).into_iter().map(|(k, _)| k).collect();
    assert_eq!(newest, vec![b"d".to_vec(), b"c".to_vec(), b"b".to_vec()]);
}

#[test]
fn snapshot_is_independent_of_later_writes() {
    let mut e = Engine::new();
    e.put(b"a", b"1");
    let snap = e.snapshot();
    e.put(b"b", b"2");
    assert_eq!(snap.len(), 1);
    assert_eq!(e.len(), 2);
}
