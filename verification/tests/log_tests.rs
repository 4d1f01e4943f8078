use seglog::engine::Engine;
use seglog::error::LogError;
use seglog::keys::encode_key;
use seglog::log::CoreSegmentedLog;

fn open_empty() -> CoreSegmentedLog {
    CoreSegmentedLog::new(Engine::new(), None).unwrap()
}

#[test]
fn append_assigns_sequential_keys_from_one() {
    let mut log = open_empty();
    let k1 = log.append(b"a").unwrap();
    let k2 = log.append(b"b").unwrap();
    assert_eq!(k1, encode_key(1));
    assert_eq!(k2, encode_key(2));
    // the second key is numerically one above the first
    assert_eq!(
        i64::from_be_bytes(k2.as_slice().try_into().unwrap()),
        i64::from_be_bytes(k1.as_slice().try_into().unwrap()) + 1
    );
    let items = log.read_last(Some(2)).unwrap();
    assert_eq!(items.len(), 2);
    assert_eq!(items[0], (k1.clone(), b"a".to_vec()));
    assert_eq!(items[1], (k2.clone(), b"b".to_vec()));
    log.truncate_before(&k2).unwrap();
    assert_eq!(log.get_last_key().unwrap(), Some(k2));
}

#[test]
fn append_batch_yields_contiguous_keys() {
    let mut log = open_empty();
    let keys = log
        .append_batch(&vec![b"v1".to_vec(), b"v2".to_vec(), b"v3".to_vec()])
        .unwrap();
    assert_eq!(keys, vec![encode_key(1), encode_key(2), encode_key(3)]);
    // a later single append continues after the batch
    assert_eq!(log.append(b"v4").unwrap(), encode_key(4));
}

#[test]
fn empty_store_has_no_last_key_and_no_records() {
    let log = open_empty();
    assert_eq!(log.get_last_key().unwrap(), None);
    assert!(log.read_last(Some(5)).unwrap().is_empty());
    assert!(log.read_last(None).unwrap().is_empty());
}

#[test]
fn read_last_returns_newest_ascending_and_caps_at_size() {
    let mut log = open_empty();
    for i in 1..=5u8 {
        log.append(&[i]).unwrap();
    }
    let two = log.read_last(Some(2)).unwrap();
    assert_eq!(
        two,
        vec![
            (encode_key(4), vec![4u8]),
            (encode_key(5), vec![5u8]),
        ]
    );
    let all = log.read_last(Some(100)).unwrap();
    assert_eq!(all.len(), 5);
    assert_eq!(all[0].0, encode_key(1));
    assert_eq!(all[4].0, encode_key(5));
    // count defaults to one
    let one = log.read_last(None).unwrap();
    assert_eq!(one, vec![(encode_key(5), vec![5u8])]);
}

#[test]
fn truncate_removes_exactly_keys_below() {
    let mut log = open_empty();
    for i in 1..=5u8 {
        log.append(&[i]).unwrap();
    }
    log.truncate_before(&encode_key(3)).unwrap();
    let rest = log.read_last(Some(10)).unwrap();
    assert_eq!(
        rest,
        vec![
            (encode_key(3), vec![3u8]),
            (encode_key(4), vec![4u8]),
            (encode_key(5), vec![5u8]),
        ]
    );
    assert_eq!(log.read_last(Some(1)).unwrap(), vec![(encode_key(5), vec![5u8])]);
    // further appends continue the sequence and become the newest record
    assert_eq!(log.append(&[6]).unwrap(), encode_key(6));
    assert_eq!(log.read_last(Some(1)).unwrap(), vec![(encode_key(6), vec![6u8])]);
}

#[test]
fn last_key_unaffected_by_truncation_below_it() {
    let mut log = open_empty();
    for i in 1..=4u8 {
        log.append(&[i]).unwrap();
    }
    let before = log.get_last_key().unwrap();
    assert_eq!(before, Some(encode_key(4)));
    log.truncate_before(&encode_key(3)).unwrap();
    assert_eq!(log.get_last_key().unwrap(), before);
}

#[test]
fn reopening_continues_the_sequence() {
    // a store already holding records 1..=5 seeds the next append at 6
    let mut e = Engine::new();
    for i in 1..=5i64 {
        e.put(&encode_key(i), &[i as u8]);
    }
    let mut log = CoreSegmentedLog::new(e, None).unwrap();
    let k = log.append(b"next").unwrap();
    assert_eq!(k, encode_key(6));
}

#[test]
fn operations_fail_after_close_and_close_is_idempotent() {
    let mut log = open_empty();
    log.append(b"x").unwrap();
    log.close().unwrap();
    assert!(matches!(log.append(b"y"), Err(LogError::Closed)));
    assert!(matches!(log.put(b"k", b"v"), Err(LogError::Closed)));
    assert!(matches!(log.truncate_before(&encode_key(1)), Err(LogError::Closed)));
    assert!(matches!(log.read_last(None), Err(LogError::Closed)));
    assert!(matches!(log.get_last_key(), Err(LogError::Closed)));
    assert!(matches!(log.iterate_from(None, None), Err(LogError::Closed)));
    assert!(matches!(log.iterate_from_end(None, None), Err(LogError::Closed)));
    // a second close is a safe no-op
    assert!(log.close().is_ok());
}

#[test]
fn read_only_handle_refuses_writes_but_serves_reads() {
    let mut e = Engine::new();
    e.put(&encode_key(1), b"one");
    let mut log = CoreSegmentedLog::open_read_only(e, Some(false)).unwrap();
    assert!(matches!(log.append(b"x"), Err(LogError::Write(_))));
    assert!(matches!(log.put(b"k", b"v"), Err(LogError::Write(_))));
    assert_eq!(log.get_last_key().unwrap(), Some(encode_key(1)));
}

#[test]
fn catch_up_succeeds_only_on_secondary() {
    let secondary = CoreSegmentedLog::open_as_secondary(Engine::new(), None).unwrap();
    assert!(secondary.try_catch_up_with_primary().is_ok());
    let primary = open_empty();
    assert!(matches!(
        primary.try_catch_up_with_primary(),
        Err(LogError::CatchUp(_))
    ));
    let mut closed = open_empty();
    closed.close().unwrap();
    assert!(matches!(
        closed.try_catch_up_with_primary(),
        Err(LogError::Closed)
    ));
}

#[test]
fn put_overwrites_without_touching_the_allocator() {
    let mut log = open_empty();
    log.append(b"first").unwrap();
    // backfill below the allocator position
    log.put(&encode_key(1), b"patched").unwrap();
    assert_eq!(
        log.read_last(Some(1)).unwrap(),
        vec![(encode_key(1), b"patched".to_vec())]
    );
    // the allocator was not consulted: the next append still gets 2
    assert_eq!(log.append(b"second").unwrap(), encode_key(2));
}

#[test]
fn seeding_rejects_non_sequence_keys() {
    let mut e = Engine::new();
    e.put(b"not-a-sequence-key", b"v");
    assert!(matches!(
        CoreSegmentedLog::new(e, None),
        Err(LogError::Decode)
    ));
}

#[test]
fn empty_batch_reserves_nothing() {
    let mut log = open_empty();
    let keys = log.append_batch(&vec![]).unwrap();
    assert!(keys.is_empty());
    assert_eq!(log.append(b"first").unwrap(), encode_key(1));
}

#[test]
fn truncating_everything_does_not_reset_the_allocator() {
    let mut log = open_empty();
    for i in 1..=5u8 {
        log.append(&[i]).unwrap();
    }
    // a bound above every key removes all records
    log.truncate_before(&encode_key(100)).unwrap();
    assert_eq!(log.get_last_key().unwrap(), None);
    assert!(log.read_last(Some(10)).unwrap().is_empty());
    // the counter is process-local and keeps counting
    assert_eq!(log.append(&[6]).unwrap(), encode_key(6));
}
