use seglog::tuning::{
    log_primary_tuning, log_reader_tuning, store_primary_tuning, store_secondary_tuning,
};

#[test]
fn primary_log_profile_is_tuned_for_one_steady_append_stream() {
    let t = log_primary_tuning(None);
    assert!(t.create_if_missing);
    assert!(t.compression); // compression defaults to enabled
    assert_eq!(t.write_buffer_bytes, 8 * 1024 * 1024);
    assert_eq!(t.max_write_buffers, 2);
    assert_eq!(t.max_background_jobs, 1);
    assert_eq!(t.max_subcompactions, 1);
    assert!(!t.concurrent_memtable_writes);
    assert!(t.write_thread_adaptive_yield);
    assert_eq!(t.l0_compaction_trigger, 2);
    assert_eq!(t.l0_slowdown_trigger, 8);
    assert_eq!(t.l0_stop_trigger, 12);
}

#[test]
fn compression_choice_is_honoured() {
    assert!(log_primary_tuning(Some(true)).compression);
    assert!(!log_primary_tuning(Some(false)).compression);
    assert!(log_primary_tuning(None).compression);
}

#[test]
fn reader_profile_bounds_resident_memory() {
    let t = log_reader_tuning(None);
    assert!(!t.create_if_missing);
    assert_eq!(t.block_cache_bytes, 32 * 1024 * 1024);
    assert!(t.cache_index_and_filter_blocks);
    assert_eq!(t.max_open_files, 512);
    assert!(t.direct_reads);
}

#[test]
fn store_profiles_use_large_write_buffers() {
    let p = store_primary_tuning(None);
    assert_eq!(p.write_buffer_bytes, 256 * 1024 * 1024);
    assert_eq!(p.max_background_jobs, 2);
    assert_eq!(p.l0_compaction_trigger, 4);
    let s = store_secondary_tuning(Some(false));
    assert!(!s.create_if_missing);
    assert_eq!(s.max_open_files, -1);
    assert!(!s.compression);
}
