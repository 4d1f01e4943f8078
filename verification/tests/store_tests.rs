use seglog::engine::Engine;
use seglog::error::LogError;
use seglog::store::CoreRocksDb;

#[test]
fn caller_supplied_keys_iterate_in_byte_order() {
    let mut db = CoreRocksDb::new(Engine::new(), None).unwrap();
    db.put(b"banana", b"2").unwrap();
    db.put(b"apple", b"1").unwrap();
    db.put(b"cherry", b"3").unwrap();
    let mut cur = db.iterate_from(None, None).unwrap();
    let mut seen = Vec::new();
    while let Some((k, v)) = cur.next() {
        seen.push((k, v));
    }
    assert_eq!(
        seen,
        vec![
            (b"apple".to_vec(), b"1".to_vec()),
            (b"banana".to_vec(), b"2".to_vec()),
            (b"cherry".to_vec(), b"3".to_vec()),
        ]
    );
}

#[test]
fn put_replaces_the_value_under_an_existing_key() {
    let mut db = CoreRocksDb::new(Engine::new(), None).unwrap();
    db.put(b"k", b"old").unwrap();
    db.put(b"k", b"new").unwrap();
    let mut cur = db.iterate_from(None, None).unwrap();
    assert_eq!(cur.next(), Some((b"k".to_vec(), b"new".to_vec())));
    assert_eq!(cur.next(), None);
}

#[test]
fn forward_iteration_from_a_start_key_is_inclusive() {
    let mut db = CoreRocksDb::new(Engine::new(), None).unwrap();
    for k in [b"a", b"b", b"c", b"d"] {
        db.put(k, b"v").unwrap();
    }
    let mut cur = db.iterate_from(Some(b"b"), Some(2)).unwrap();
    let mut keys = Vec::new();
    while let Some((k, _)) = cur.next() {
        keys.push(k);
    }
    assert_eq!(keys, vec![b"b".to_vec(), b"c".to_vec(), b"d".to_vec()]);
}

#[test]
fn reverse_iteration_walks_from_the_greatest_key() {
    let mut db = CoreRocksDb::new(Engine::new(), None).unwrap();
    for k in [b"a", b"b", b"c"] {
        db.put(k, b"v").unwrap();
    }
    let mut cur = db.iterate_from_end(None, None).unwrap();
    let mut keys = Vec::new();
    while let Some((k, _)) = cur.next() {
        keys.push(k);
    }
    assert_eq!(keys, vec![b"c".to_vec(), b"b".to_vec(), b"a".to_vec()]);
}

#[test]
fn secondary_store_refuses_writes_but_can_catch_up() {
    let mut db = CoreRocksDb::open_as_secondary(Engine::new(), None).unwrap();
    assert!(matches!(db.put(b"k", b"v"), Err(LogError::Write(_))));
    assert!(db.try_catch_up_with_primary().is_ok());
    let primary = CoreRocksDb::new(Engine::new(), None).unwrap();
    assert!(matches!(
        primary.try_catch_up_with_primary(),
        Err(LogError::CatchUp(_))
    ));
}

#[test]
fn closed_store_fails_every_operation() {
    let mut db = CoreRocksDb::new(Engine::new(), None).unwrap();
    db.put(b"k", b"v").unwrap();
    db.close().unwrap();
    assert!(matches!(db.put(b"k", b"v"), Err(LogError::Closed)));
    assert!(matches!(db.iterate_from(None, None), Err(LogError::Closed)));
    assert!(matches!(db.iterate_from_end(None, None), Err(LogError::Closed)));
    assert!(matches!(db.try_catch_up_with_primary(), Err(LogError::Closed)));
    assert!(db.close().is_ok());
}
