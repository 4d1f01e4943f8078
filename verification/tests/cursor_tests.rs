use seglog::engine::Engine;
use seglog::keys::encode_key;
use seglog::log::CoreSegmentedLog;

fn log_with(n: u8) -> CoreSegmentedLog {
    let mut log = CoreSegmentedLog::new(Engine::new(), None).unwrap();
    for i in 1..=n {
        log.append(&[i]).unwrap();
    }
    log
}

#[test]
fn forward_cursor_yields_all_records_in_ascending_order() {
    let log = log_with(10);
    let mut cur = log.iterate_from(None, Some(3)).unwrap();
    let mut seen = Vec::new();
    while let Some((k, v)) = cur.next() {
        seen.push((k, v));
    }
    assert!(!cur.has_next());
    assert_eq!(seen.len(), 10);
    for (i, (k, v)) in seen.iter().enumerate() {
        assert_eq!(*k, encode_key(i as i64 + 1));
        assert_eq!(*v, vec![i as u8 + 1]);
    }
}

#[test]
fn reverse_cursor_yields_all_records_in_descending_order() {
    let log = log_with(10);
    let mut cur = log.iterate_from_end(None, Some(3)).unwrap();
    let mut seen = Vec::new();
    while let Some((k, _)) = cur.next() {
        seen.push(k);
    }
    assert_eq!(seen.len(), 10);
    for (i, k) in seen.iter().enumerate() {
        assert_eq!(*k, encode_key(10 - i as i64));
    }
}

#[test]
fn next_batch_pages_concatenate_to_the_full_result() {
    let log = log_with(10);
    for batch_size in [1usize, 2, 3, 4, 7, 10, 50] {
        let mut cur = log.iterate_from(None, Some(batch_size)).unwrap();
        let mut all = Vec::new();
        loop {
            let page = cur.next_batch();
            if page.is_empty() {
                break;
            }
            assert!(page.len() <= batch_size);
            all.extend(page);
        }
        assert_eq!(all.len(), 10, "batch_size {}", batch_size);
        for (i, (k, v)) in all.iter().enumerate() {
            assert_eq!(*k, encode_key(i as i64 + 1));
            assert_eq!(*v, vec![i as u8 + 1]);
        }
    }
}

#[test]
fn forward_cursor_starts_at_given_key_inclusive() {
    let log = log_with(5);
    let mut cur = log.iterate_from(Some(&encode_key(3)), None).unwrap();
    let mut keys = Vec::new();
    while let Some((k, _)) = cur.next() {
        keys.push(k);
    }
    assert_eq!(keys, vec![encode_key(3), encode_key(4), encode_key(5)]);
}

#[test]
fn reverse_cursor_starts_at_given_key_inclusive() {
    let log = log_with(5);
    let mut cur = log.iterate_from_end(Some(&encode_key(3)), None).unwrap();
    let mut keys = Vec::new();
    while let Some((k, _)) = cur.next() {
        keys.push(k);
    }
    assert_eq!(keys, vec![encode_key(3), encode_key(2), encode_key(1)]);
}

#[test]
fn cursors_over_empty_store_are_immediately_exhausted() {
    let log = log_with(0);
    let mut fwd = log.iterate_from(None, None).unwrap();
    assert!(!fwd.has_next());
    assert_eq!(fwd.next(), None);
    assert!(fwd.next_batch().is_empty());
    let mut rev = log.iterate_from_end(None, None).unwrap();
    assert!(!rev.has_next());
    assert_eq!(rev.next(), None);
}

#[test]
fn mixing_next_and_next_batch_never_repeats_or_skips() {
    let log = log_with(7);
    let mut cur = log.iterate_from(None, Some(3)).unwrap();
    let mut keys = Vec::new();
    // take two single pairs, then drain by pages
    for _ in 0..2 {
        keys.push(cur.next().unwrap().0);
    }
    loop {
        let page = cur.next_batch();
        if page.is_empty() {
            break;
        }
        keys.extend(page.into_iter().map(|(k, _)| k));
    }
    let expected: Vec<Vec<u8>> = (1..=7).map(encode_key).collect();
    assert_eq!(keys, expected);
}

#[test]
fn closed_cursor_is_a_safe_no_op() {
    let log = log_with(3);
    let mut cur = log.iterate_from(None, None).unwrap();
    assert!(cur.has_next());
    cur.close();
    assert!(!cur.has_next());
    assert_eq!(cur.next(), None);
    assert!(cur.next_batch().is_empty());
    cur.close();
    assert_eq!(cur.next(), None);
}

#[test]
fn default_batch_size_handles_more_than_one_page() {
    // more records than the default page size of 1000
    let mut log = CoreSegmentedLog::new(Engine::new(), None).unwrap();
    let values: Vec<Vec<u8>> = (0..1500u32).map(|i| i.to_be_bytes().to_vec()).collect();
    log.append_batch(&values).unwrap();
    let mut cur = log.iterate_from(None, None).unwrap();
    let mut count = 0u32;
    while let Some((k, v)) = cur.next() {
        count += 1;
        assert_eq!(k, encode_key(count as i64));
        assert_eq!(v, (count - 1).to_be_bytes().to_vec());
    }
    assert_eq!(count, 1500);
}

#[test]
fn reverse_cursor_pages_concatenate_to_the_full_result() {
    let log = log_with(9);
    let mut cur = log.iterate_from_end(None, Some(4)).unwrap();
    let mut keys = Vec::new();
    loop {
        let page = cur.next_batch();
        if page.is_empty() {
            break;
        }
        keys.extend(page.into_iter().map(|(k, _)| k));
    }
    let expected: Vec<Vec<u8>> = (1..=9).rev().map(encode_key).collect();
    assert_eq!(keys, expected);
}
