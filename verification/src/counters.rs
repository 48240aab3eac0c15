//! Counters that several threads add to while they work on their files.

use std::sync::atomic::AtomicU64;
use std::sync::atomic::Ordering;
use vstd::prelude::*;

verus! {

/// Running totals, shared between threads. Each one is updated with an atomic
/// fetch-and-add, so the totals do not depend on the order of the updates. Other
/// threads may add at any moment: no function here promises a value.
pub struct PerformanceCounters {
    pub files_processed: AtomicU64,
    pub bytes_read: AtomicU64,
    pub bytes_written: AtomicU64,
    pub chunks_processed: AtomicU64,
}

/// The totals as they stood when they were read.
#[derive(Debug, Clone, Copy)]
pub struct PerformanceStats {
    pub files_processed: u64,
    pub bytes_read: u64,
    pub bytes_written: u64,
    pub chunks_processed: u64,
}

impl PerformanceCounters {
    /// Counters that all start at zero.
    pub fn new() -> (counters: Self) {
        PerformanceCounters {
            files_processed: AtomicU64::new(0),
            bytes_read: AtomicU64::new(0),
            bytes_written: AtomicU64::new(0),
            chunks_processed: AtomicU64::new(0),
        }
    }

    /// Counts one more file.
    pub fn add_file(&self) {
        self.files_processed.fetch_add(1, Ordering::Relaxed);
    }

    /// Adds `bytes` to the bytes read.
    pub fn add_bytes_read(&self, bytes: u64) {
        self.bytes_read.fetch_add(bytes, Ordering::Relaxed);
    }

    /// Adds `bytes` to the bytes written.
    pub fn add_bytes_written(&self, bytes: u64) {
        self.bytes_written.fetch_add(bytes, Ordering::Relaxed);
    }

    /// Adds `chunks` to the chunks handled.
    pub fn add_chunks(&self, chunks: u64) {
        self.chunks_processed.fetch_add(chunks, Ordering::Relaxed);
    }

    /// Reads the four totals, one after the other.
    pub fn get_stats(&self) -> (stats: PerformanceStats) {
        PerformanceStats {
            files_processed: self.files_processed.load(Ordering::Relaxed),
            bytes_read: self.bytes_read.load(Ordering::Relaxed),
            bytes_written: self.bytes_written.load(Ordering::Relaxed),
            chunks_processed: self.chunks_processed.load(Ordering::Relaxed),
        }
    }
}

impl Default for PerformanceCounters {
    fn default() -> (counters: Self) {
        PerformanceCounters::new()
    }
}

} // verus!
