//! Selection of the tuning profile handed to the storage engine.
//!
//! The layer above only selects and forwards these parameters; the engine
//! owns their interpretation. The profiles mirror the distinct workloads:
//! a primary log tuned for one steady append stream on a small memory
//! footprint, readers tuned for a bounded resident set, and the generic
//! store tuned for bulk writes.

use vstd::prelude::*;

verus! {

/// The open mode of an engine handle.
#[derive(Debug, Clone, Copy, PartialEq, Eq, Structural)]
pub enum Mode {
    /// Creates the store if missing and accepts writes.
    Primary,
    /// Opens an existing store without write capability.
    ReadOnly,
    /// Trails a primary's durable state and re-syncs on demand.
    Secondary,
}

/// The tuning parameters forwarded to the engine at open time.
#[derive(Debug, Clone, Copy, PartialEq, Eq, Structural)]
pub struct Tuning {
    /// Create the store when the path holds none.
    pub create_if_missing: bool,
    /// Pair a fast per-level codec with a higher-ratio codec at the
    /// bottommost level; irreversible once baked into the on-disk data.
    pub compression: bool,
    /// Size of one in-memory write buffer, in bytes.
    pub write_buffer_bytes: u64,
    /// How many write buffers may exist at once.
    pub max_write_buffers: u32,
    /// Background maintenance job count.
    pub max_background_jobs: u32,
    /// Parallel subcompaction count.
    pub max_subcompactions: u32,
    /// Whether concurrent memtable writes are allowed.
    pub concurrent_memtable_writes: bool,
    /// Whether the write thread yields adaptively under contention.
    pub write_thread_adaptive_yield: bool,
    /// Level-0 file count that triggers compaction.
    pub l0_compaction_trigger: u32,
    /// Level-0 file count that slows writes.
    pub l0_slowdown_trigger: u32,
    /// Level-0 file count that stops writes.
    pub l0_stop_trigger: u32,
    /// Block-cache budget in bytes; zero keeps the engine default.
    pub block_cache_bytes: u64,
    /// Cache index and filter blocks inside the block cache, pinned.
    pub cache_index_and_filter_blocks: bool,
    /// Cap on simultaneously open files; -1 leaves it unbounded.
    pub max_open_files: i32,
    /// Bypass the OS page cache for reads.
    pub direct_reads: bool,
}

/// The profile of a primary segmented log: low memory footprint and
/// serialized writes for a single steady append stream.
pub open spec fn spec_log_primary_tuning(compression: bool) -> Tuning {
    Tuning {
        create_if_missing: true,
        compression: compression,
        write_buffer_bytes: 0x800000u64,
        max_write_buffers: 2,
        max_background_jobs: 1,
        max_subcompactions: 1,
        concurrent_memtable_writes: false,
        write_thread_adaptive_yield: true,
        l0_compaction_trigger: 2,
        l0_slowdown_trigger: 8,
        l0_stop_trigger: 12,
        block_cache_bytes: 0,
        cache_index_and_filter_blocks: false,
        max_open_files: -1i32,
        direct_reads: false,
    }
}

/// The profile of a log reader (read-only or secondary): a bounded block
/// cache and a capped open-file count to bound resident memory.
pub open spec fn spec_log_reader_tuning(compression: bool) -> Tuning {
    Tuning {
        create_if_missing: false,
        compression: compression,
        write_buffer_bytes: 0x800000u64,
        max_write_buffers: 2,
        max_background_jobs: 1,
        max_subcompactions: 1,
        concurrent_memtable_writes: false,
        write_thread_adaptive_yield: false,
        l0_compaction_trigger: 2,
        l0_slowdown_trigger: 8,
        l0_stop_trigger: 12,
        block_cache_bytes: 0x2000000u64,
        cache_index_and_filter_blocks: true,
        max_open_files: 512,
        direct_reads: true,
    }
}

/// The profile of a primary generic store: large write buffers for bulk
/// key-value workloads.
pub open spec fn spec_store_primary_tuning(compression: bool) -> Tuning {
    Tuning {
        create_if_missing: true,
        compression: compression,
        write_buffer_bytes: 0x10000000u64,
        max_write_buffers: 2,
        max_background_jobs: 2,
        max_subcompactions: 1,
        concurrent_memtable_writes: true,
        write_thread_adaptive_yield: false,
        l0_compaction_trigger: 4,
        l0_slowdown_trigger: 8,
        l0_stop_trigger: 12,
        block_cache_bytes: 0,
        cache_index_and_filter_blocks: false,
        max_open_files: -1i32,
        direct_reads: false,
    }
}

/// The profile of a secondary generic store: an unbounded file table so the
/// replica can trail the primary's whole file set.
pub open spec fn spec_store_secondary_tuning(compression: bool) -> Tuning {
    Tuning {
        create_if_missing: false,
        compression: compression,
        write_buffer_bytes: 0x10000000u64,
        max_write_buffers: 2,
        max_background_jobs: 2,
        max_subcompactions: 1,
        concurrent_memtable_writes: true,
        write_thread_adaptive_yield: false,
        l0_compaction_trigger: 4,
        l0_slowdown_trigger: 8,
        l0_stop_trigger: 12,
        block_cache_bytes: 0,
        cache_index_and_filter_blocks: false,
        max_open_files: -1i32,
        direct_reads: false,
    }
}

/// The compression choice a caller made, defaulting to enabled.
pub open spec fn compression_choice(c: Option<bool>) -> bool {
    match c {
        Some(b) => b,
        None => true,
    }
}

/// Resolve the caller's compression choice; unset means enabled.
pub fn resolve_compression(enable_compression: Option<bool>) -> (c: bool)
    ensures
        c == compression_choice(enable_compression),
{
    match enable_compression {
        Some(c) => c,
        None => true,
    }
}

/// Select the primary segmented-log profile.
pub fn log_primary_tuning(enable_compression: Option<bool>) -> (t: Tuning)
    ensures
        t == spec_log_primary_tuning(compression_choice(enable_compression)),
{
    let compression = resolve_compression(enable_compression);
    Tuning {
        create_if_missing: true,
        compression,
        write_buffer_bytes: 8u64 * 1024 * 1024,
        max_write_buffers: 2,
        max_background_jobs: 1,
        max_subcompactions: 1,
        concurrent_memtable_writes: false,
        write_thread_adaptive_yield: true,
        l0_compaction_trigger: 2,
        l0_slowdown_trigger: 8,
        l0_stop_trigger: 12,
        block_cache_bytes: 0,
        cache_index_and_filter_blocks: false,
        max_open_files: -1i32,
        direct_reads: false,
    }
}

/// Select the reader profile shared by read-only and secondary log handles.
pub fn log_reader_tuning(enable_compression: Option<bool>) -> (t: Tuning)
    ensures
        t == spec_log_reader_tuning(compression_choice(enable_compression)),
{
    let compression = resolve_compression(enable_compression);
    Tuning {
        create_if_missing: false,
        compression,
        write_buffer_bytes: 8u64 * 1024 * 1024,
        max_write_buffers: 2,
        max_background_jobs: 1,
        max_subcompactions: 1,
        concurrent_memtable_writes: false,
        write_thread_adaptive_yield: false,
        l0_compaction_trigger: 2,
        l0_slowdown_trigger: 8,
        l0_stop_trigger: 12,
        block_cache_bytes: 32u64 * 1024 * 1024,
        cache_index_and_filter_blocks: true,
        max_open_files: 512,
        direct_reads: true,
    }
}

/// Select the primary generic-store profile.
pub fn store_primary_tuning(enable_compression: Option<bool>) -> (t: Tuning)
    ensures
        t == spec_store_primary_tuning(compression_choice(enable_compression)),
{
    let compression = resolve_compression(enable_compression);
    Tuning {
        create_if_missing: true,
        compression,
        write_buffer_bytes: 256u64 * 1024 * 1024,
        max_write_buffers: 2,
        max_background_jobs: 2,
        max_subcompactions: 1,
        concurrent_memtable_writes: true,
        write_thread_adaptive_yield: false,
        l0_compaction_trigger: 4,
        l0_slowdown_trigger: 8,
        l0_stop_trigger: 12,
        block_cache_bytes: 0,
        cache_index_and_filter_blocks: false,
        max_open_files: -1i32,
        direct_reads: false,
    }
}

/// Select the secondary generic-store profile.
pub fn store_secondary_tuning(enable_compression: Option<bool>) -> (t: Tuning)
    ensures
        t == spec_store_secondary_tuning(compression_choice(enable_compression)),
{
    let compression = resolve_compression(enable_compression);
    Tuning {
        create_if_missing: false,
        compression,
        write_buffer_bytes: 256u64 * 1024 * 1024,
        max_write_buffers: 2,
        max_background_jobs: 2,
        max_subcompactions: 1,
        concurrent_memtable_writes: true,
        write_thread_adaptive_yield: false,
        l0_compaction_trigger: 4,
        l0_slowdown_trigger: 8,
        l0_stop_trigger: 12,
        block_cache_bytes: 0,
        cache_index_and_filter_blocks: false,
        max_open_files: -1i32,
        direct_reads: false,
    }
}

} // verus!
