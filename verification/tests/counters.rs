use linear_region_tools::counters::PerformanceCounters;
use linear_region_tools::{PerformanceStats, RegionError};

#[test]
fn counters_start_at_zero_and_add_up() {
    let counters = PerformanceCounters::new();
    let stats: PerformanceStats = counters.get_stats();
    assert_eq!(
        (stats.files_processed, stats.bytes_read, stats.bytes_written, stats.chunks_processed),
        (0, 0, 0, 0)
    );
    counters.add_file();
    counters.add_file();
    counters.add_bytes_read(100);
    counters.add_bytes_read(23);
    counters.add_bytes_written(7);
    counters.add_chunks(1024);
    let stats = counters.get_stats();
    assert_eq!(
        (stats.files_processed, stats.bytes_read, stats.bytes_written, stats.chunks_processed),
        (2, 123, 7, 1024)
    );
    let fresh = PerformanceCounters::default().get_stats();
    assert_eq!(fresh.files_processed, 0);
}

#[test]
fn counters_are_shared_through_references() {
    let counters = std::sync::Arc::new(PerformanceCounters::new());
    let other = counters.clone();
    for _ in 0..1000 {
        counters.add_chunks(1);
        other.add_bytes_read(2);
    }
    let stats = counters.get_stats();
    assert_eq!((stats.chunks_processed, stats.bytes_read), (1000, 2000));
}

#[test]
fn errors_can_be_told_apart() {
    let error = RegionError::InvalidChunkCount { expected: 5, found: 6 };
    assert!(matches!(error, RegionError::InvalidChunkCount { expected: 5, found: 6 }));
    assert!(format!("{:?}", RegionError::InvalidFormat).contains("InvalidFormat"));
}
