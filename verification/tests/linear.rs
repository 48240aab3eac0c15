use linear_region_tools::error::RegionError;
use linear_region_tools::linear::{
    decompress_with_retry, frame_linear_file, read_linear_region, region_fits_stream,
    region_from_table, region_to_table, truncate_level, verify_linear_file,
    write_linear_region, ChunkMeta, LinearHeader,
};
use linear_region_tools::region::{Chunk, Region};
use linear_region_tools::LINEAR_SIGNATURE;

fn sample_region() -> Region {
    let mut region = Region::new(2, -3);
    region.set_chunk(0, Chunk::new(vec![1, 2, 3], 64, -96), 10);
    region.set_chunk(40, Chunk::new(vec![4; 5000], 72, -95), 30);
    region.set_chunk(1023, Chunk::new(vec![5], 95, -65), 20);
    region.set_timestamp(7, 999);
    region.mtime = 1_600_000_000;
    region
}

#[test]
fn header_layout() {
    let header = LinearHeader::new(0x0102, -3, 0x0304, 0x0506_0708);
    let bytes = header.to_bytes();
    assert_eq!(&bytes[0..8], &LINEAR_SIGNATURE.to_be_bytes());
    assert_eq!(bytes[8], 1);
    assert_eq!(&bytes[9..17], &[0, 0, 0, 0, 0, 0, 1, 2]);
    assert_eq!(bytes[17], 0xfd);
    assert_eq!(&bytes[18..20], &[3, 4]);
    assert_eq!(&bytes[20..24], &[5, 6, 7, 8]);
    let back = LinearHeader::from_bytes(&bytes).unwrap();
    assert_eq!(back.signature, LINEAR_SIGNATURE);
    assert_eq!(back.version, 1);
    assert_eq!(back.newest_timestamp, 0x0102);
    assert_eq!(back.compression_level, -3);
    assert_eq!(back.chunk_count, 0x0304);
    assert_eq!(back.compressed_size, 0x0506_0708);
}

#[test]
fn short_header_is_an_invalid_format() {
    assert!(matches!(LinearHeader::from_bytes(&[0u8; 23]), Err(RegionError::InvalidFormat)));
}

#[test]
fn chunk_meta_layout() {
    let meta = ChunkMeta { size: 0x0102_0304, timestamp: 0x0a0b_0c0d };
    assert_eq!(meta.to_bytes(), [1, 2, 3, 4, 0x0a, 0x0b, 0x0c, 0x0d]);
    let back = ChunkMeta::from_bytes(&meta.to_bytes());
    assert_eq!(back.size, 0x0102_0304);
    assert_eq!(back.timestamp, 0x0a0b_0c0d);
}

#[test]
fn level_keeps_its_low_byte() {
    assert_eq!(truncate_level(6), 6);
    assert_eq!(truncate_level(-1), -1);
    assert_eq!(truncate_level(127), 127);
    assert_eq!(truncate_level(128), -128);
    assert_eq!(truncate_level(300), 44);
    assert_eq!(truncate_level(-129), 127);
    assert_eq!(truncate_level(i32::MIN), 0);
    assert_eq!(truncate_level(i32::MAX), -1);
}

#[test]
fn empty_region_round_trips() {
    let mut region = Region::new(0, 0);
    region.mtime = 5;
    let file = write_linear_region(&region, 6).unwrap();
    let header = LinearHeader::from_bytes(&file).unwrap();
    assert_eq!(header.chunk_count, 0);
    assert_eq!(header.newest_timestamp, 0);
    assert_eq!(header.version, 1);
    assert_eq!(header.compressed_size as usize, file.len() - 40);
    assert_eq!(&file[24..32], &[0u8; 8]);
    assert_eq!(&file[file.len() - 8..], &LINEAR_SIGNATURE.to_be_bytes());
    let back = read_linear_region(&file, 0, 0, 5).unwrap();
    assert_eq!(back.chunk_count(), 0);
    for i in 0..1024 {
        assert_eq!(back.timestamp(i), 0);
    }
}

#[test]
fn sparse_region_round_trips() {
    let region = sample_region();
    let file = write_linear_region(&region, 3).unwrap();
    let header = LinearHeader::from_bytes(&file).unwrap();
    assert_eq!(header.chunk_count, 3);
    assert_eq!(header.newest_timestamp, 30);
    assert_eq!(header.compression_level, 3);
    assert!(verify_linear_file(&file));
    let back = read_linear_region(&file, 2, -3, region.mtime).unwrap();
    assert_eq!(back.chunk_count(), 3);
    assert_eq!(back.get_chunk(0).unwrap().as_slice(), &[1, 2, 3]);
    assert_eq!(back.get_chunk(40).unwrap().as_slice(), &vec![4u8; 5000][..]);
    assert_eq!(back.get_chunk(1023).unwrap().as_slice(), &[5]);
    assert_eq!((back.get_chunk(40).unwrap().x, back.get_chunk(40).unwrap().z), (72, -95));
    assert_eq!(back.timestamp(0), 10);
    assert_eq!(back.timestamp(40), 30);
    assert_eq!(back.timestamp(1023), 20);
    assert_eq!(back.timestamp(7), 999);
    assert_eq!(back.mtime, 1_600_000_000);
}

#[test]
fn dense_region_round_trips() {
    let mut region = Region::new(0, 0);
    for i in 0..1024usize {
        let payload = vec![(i % 251) as u8; 1 + i % 17];
        region.set_chunk(i, Chunk::new(payload, (i % 32) as i32, (i / 32) as i32), i as u32 + 1);
    }
    let file = write_linear_region(&region, 1).unwrap();
    assert_eq!(LinearHeader::from_bytes(&file).unwrap().chunk_count, 1024);
    assert_eq!(LinearHeader::from_bytes(&file).unwrap().newest_timestamp, 1024);
    let back = read_linear_region(&file, 0, 0, 0).unwrap();
    assert_eq!(back.chunk_count(), 1024);
    for i in 0..1024usize {
        assert_eq!(back.get_chunk(i).unwrap().as_slice(), &vec![(i % 251) as u8; 1 + i % 17][..]);
        assert_eq!(back.timestamp(i), i as u32 + 1);
    }
}

#[test]
fn reader_accepts_version_two() {
    let mut file = write_linear_region(&sample_region(), 6).unwrap();
    file[8] = 2;
    assert!(verify_linear_file(&file));
    assert_eq!(read_linear_region(&file, 2, -3, 0).unwrap().chunk_count(), 3);
    file[8] = 3;
    assert!(!verify_linear_file(&file));
    assert!(matches!(
        read_linear_region(&file, 2, -3, 0),
        Err(RegionError::UnsupportedVersion { version: 3 })
    ));
}

#[test]
fn corrupt_leading_signature_is_reported() {
    let mut file = write_linear_region(&sample_region(), 6).unwrap();
    file[0] ^= 0xff;
    assert!(!verify_linear_file(&file));
    match read_linear_region(&file, 2, -3, 0) {
        Err(RegionError::InvalidSignature { expected, found }) => {
            assert_eq!(expected, 0xC3FF13183CCA9D9A);
            assert_eq!(found, 0x3CFF13183CCA9D9A);
        }
        _ => panic!("expected an invalid signature"),
    }
}

#[test]
fn corrupt_trailing_signature_is_reported() {
    let mut file = write_linear_region(&sample_region(), 6).unwrap();
    let last = file.len() - 1;
    file[last] = 0;
    assert!(!verify_linear_file(&file));
    match read_linear_region(&file, 2, -3, 0) {
        Err(RegionError::InvalidSignature { expected, found }) => {
            assert_eq!(expected, 0xC3FF13183CCA9D9A);
            assert_eq!(found, 0xC3FF13183CCA9D00);
        }
        _ => panic!("expected an invalid signature"),
    }
}

#[test]
fn chunk_count_must_match_the_table() {
    let mut table = vec![0u8; 8192];
    for i in 0..6 {
        table[8 * i + 3] = 1;
        table.push(i as u8);
    }
    let frame = zstd::bulk::compress(&table, 3).unwrap();
    let header = LinearHeader::new(0, 3, 5, frame.len() as u32);
    let file = frame_linear_file(&header, &frame);
    match read_linear_region(&file, 0, 0, 0) {
        Err(RegionError::InvalidChunkCount { expected, found }) => {
            assert_eq!(expected, 5);
            assert_eq!(found, 6);
        }
        _ => panic!("expected an invalid chunk count"),
    }
    match region_from_table(&table, 5, 0, 0, 0) {
        Err(RegionError::InvalidChunkCount { expected, found }) => {
            assert_eq!((expected, found), (5, 6));
        }
        _ => panic!("expected an invalid chunk count"),
    }
    assert_eq!(region_from_table(&table, 6, 0, 0, 0).unwrap().chunk_count(), 6);
}

#[test]
fn payloads_must_fill_the_frame_exactly() {
    let mut table = vec![0u8; 8192];
    table[3] = 4;
    table.extend_from_slice(&[1, 2, 3]);
    assert!(matches!(region_from_table(&table, 1, 0, 0, 0), Err(RegionError::InvalidFormat)));
    table.extend_from_slice(&[4, 5]);
    assert!(matches!(region_from_table(&table, 1, 0, 0, 0), Err(RegionError::InvalidFormat)));
    assert!(matches!(
        region_from_table(&table[..8191], 0, 0, 0, 0),
        Err(RegionError::InvalidFormat)
    ));
}

#[test]
fn short_files_are_invalid() {
    assert!(matches!(read_linear_region(&[0u8; 31], 0, 0, 0), Err(RegionError::InvalidFormat)));
    assert!(!verify_linear_file(&[0u8; 31]));
    let mut file = Vec::new();
    file.extend_from_slice(&LinearHeader::new(0, 0, 0, 0).to_bytes());
    file.extend_from_slice(&LINEAR_SIGNATURE.to_be_bytes());
    assert!(verify_linear_file(&file));
    assert!(matches!(read_linear_region(&file, 0, 0, 0), Err(RegionError::InvalidFormat)));
}

#[test]
fn garbage_frame_fails_every_strategy() {
    let header = LinearHeader::new(0, 0, 0, 4);
    let file = frame_linear_file(&header, &[1, 2, 3, 4]);
    match read_linear_region(&file, 0, 0, 0) {
        Err(RegionError::DecompressionFailed { reason }) => {
            assert!(reason.starts_with("Streaming"));
        }
        _ => panic!("expected a failed decompression"),
    }
    assert!(matches!(
        decompress_with_retry(&[9, 9, 9], &header),
        Err(RegionError::DecompressionFailed { .. })
    ));
}

#[test]
fn frame_without_content_size_is_read_by_the_streaming_decoder() {
    let region = sample_region();
    let (table, _, count) = region_to_table(&region);
    let mut encoder = zstd::stream::Encoder::new(Vec::new(), 3).unwrap();
    std::io::Write::write_all(&mut encoder, &table).unwrap();
    let frame = encoder.finish().unwrap();
    let header = LinearHeader::new(30, 3, count, frame.len() as u32);
    assert_eq!(decompress_with_retry(&frame, &header).unwrap(), table);
    let file = frame_linear_file(&header, &frame);
    assert_eq!(read_linear_region(&file, 2, -3, 0).unwrap().chunk_count(), 3);
}

#[test]
fn table_lists_sizes_and_timestamps_then_payloads() {
    let (table, newest, count) = region_to_table(&sample_region());
    assert_eq!(table.len(), 8192 + 3 + 5000 + 1);
    assert_eq!(&table[0..8], &[0, 0, 0, 3, 0, 0, 0, 10]);
    assert_eq!(&table[56..64], &[0, 0, 0, 0, 0, 0, 3, 0xe7]);
    assert_eq!(&table[320..328], &[0, 0, 0x13, 0x88, 0, 0, 0, 30]);
    assert_eq!(&table[8192..8195], &[1, 2, 3]);
    assert_eq!(table[8192 + 3 + 5000], 5);
    assert_eq!(newest, 30);
    assert_eq!(count, 3);
}

#[test]
fn newest_timestamp_counts_present_chunks_only() {
    let mut region = Region::new(0, 0);
    region.set_chunk(3, Chunk::new(vec![1], 3, 0), 50);
    region.set_timestamp(4, 70);
    let (_, newest, _) = region_to_table(&region);
    assert_eq!(newest, 50);
}

#[test]
fn empty_payload_reads_back_as_absent() {
    let mut region = Region::new(0, 0);
    region.set_chunk(3, Chunk::new(Vec::new(), 3, 0), 50);
    let file = write_linear_region(&region, 6).unwrap();
    assert!(matches!(
        read_linear_region(&file, 0, 0, 0),
        Err(RegionError::InvalidChunkCount { expected: 1, found: 0 })
    ));
}

#[test]
fn stream_of_a_region_beyond_the_coordinate_range_is_an_invalid_format() {
    let file = write_linear_region(&sample_region(), 3).unwrap();
    assert!(read_linear_region(&file, 0x3FF_FFFF, -0x400_0000, 0).is_ok());
    assert!(matches!(
        read_linear_region(&file, 0x400_0000, 0, 0),
        Err(RegionError::InvalidFormat)
    ));
    assert!(matches!(
        read_linear_region(&file, 0, i32::MIN, 0),
        Err(RegionError::InvalidFormat)
    ));
}

#[test]
fn small_payloads_fit_the_stream() {
    assert!(region_fits_stream(&Region::new(0, 0)));
    assert!(region_fits_stream(&sample_region()));
}
