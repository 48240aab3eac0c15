use linear_region_tools::anvil::{
    encode_run, external_chunks_needed, read_anvil_region, region_to_anvil_bytes,
    write_anvil_region, ChunkDataHeader, ChunkLocation, ExternalChunk,
};
use linear_region_tools::error::RegionError;
use linear_region_tools::region::{Chunk, Region};

fn noise(len: usize, seed: u64) -> Vec<u8> {
    let mut state = seed | 1;
    let mut out = Vec::with_capacity(len);
    for _ in 0..len {
        state ^= state << 13;
        state ^= state >> 7;
        state ^= state << 17;
        out.push((state >> 24) as u8);
    }
    out
}

#[test]
fn empty_region_writes_two_zero_tables() {
    let region = Region::new(0, 0);
    let (file, files) = write_anvil_region(&region, 6).unwrap();
    assert_eq!(file.len(), 8192);
    assert!(file.iter().all(|b| *b == 0));
    assert!(files.is_empty());
    let back = read_anvil_region(&file, &files, 0, 0, region.mtime).unwrap();
    assert_eq!(back.chunk_count(), 0);
    for i in 0..1024 {
        assert_eq!(back.timestamp(i), 0);
    }
}

#[test]
fn single_chunk_round_trip() {
    let mut region = Region::new(0, 0);
    region.set_chunk(0, Chunk::new(vec![0x0A, 0x00, 0x00, 0x00], 0, 0), 1_700_000_000);
    let (file, files) = write_anvil_region(&region, 6).unwrap();
    assert_eq!(file.len(), 3 * 4096);
    assert_eq!(&file[0..4], &[0, 0, 2, 1]);
    assert_eq!(&file[4096..4100], &1_700_000_000u32.to_be_bytes());
    let stored = u32::from_be_bytes([file[8192], file[8193], file[8194], file[8195]]) as usize;
    assert_eq!(file[8196], 2);
    let mut decoder = flate2::read::ZlibDecoder::new(&file[8197..8197 + stored - 1]);
    let mut payload = Vec::new();
    std::io::Read::read_to_end(&mut decoder, &mut payload).unwrap();
    assert_eq!(payload, vec![0x0A, 0x00, 0x00, 0x00]);
    assert!(file[8197 + stored - 1..].iter().all(|b| *b == 0));
    let back = read_anvil_region(&file, &files, 0, 0, 77).unwrap();
    assert_eq!(back.chunk_count(), 1);
    assert_eq!(back.get_chunk(0).unwrap().as_slice(), &[0x0A, 0x00, 0x00, 0x00]);
    assert_eq!(back.timestamp(0), 1_700_000_000);
    assert_eq!(back.mtime, 77);
}

#[test]
fn chunk_coordinates_follow_the_slot() {
    let mut region = Region::new(-2, 3);
    region.set_chunk(33, Chunk::new(vec![1, 2, 3], 0, 0), 5);
    let (file, files) = write_anvil_region(&region, 1).unwrap();
    let back = read_anvil_region(&file, &files, -2, 3, 0).unwrap();
    let chunk = back.get_chunk(33).unwrap();
    assert_eq!((chunk.x, chunk.z), (-2 * 32 + 1, 3 * 32 + 1));
    assert_eq!(back.region_x, -2);
    assert_eq!(back.region_z, 3);
}

#[test]
fn absent_slot_loses_its_timestamp() {
    let mut region = Region::new(0, 0);
    region.set_timestamp(9, 1234);
    region.set_chunk(10, Chunk::new(vec![9; 100], 10, 0), 4321);
    let (file, files) = write_anvil_region(&region, 6).unwrap();
    assert_eq!(&file[4096 + 36..4096 + 40], &1234u32.to_be_bytes());
    let back = read_anvil_region(&file, &files, 0, 0, 0).unwrap();
    assert_eq!(back.timestamp(9), 0);
    assert_eq!(back.timestamp(10), 4321);
}

#[test]
fn run_of_exactly_one_sector() {
    let run = encode_run(&vec![7u8; 4091]);
    assert_eq!(run.len(), 4096);
    assert_eq!(&run[0..5], &[0, 0, 0x0f, 0xfc, 2]);
    assert!(run[5..].iter().all(|b| *b == 7));
    let run = encode_run(&vec![7u8; 4092]);
    assert_eq!(run.len(), 2 * 4096);
    assert!(run[5 + 4092..].iter().all(|b| *b == 0));
}

#[test]
fn run_of_exactly_255_sectors() {
    let run = encode_run(&vec![7u8; 255 * 4096 - 5]);
    assert_eq!(run.len(), 255 * 4096);
    assert_eq!(run[4], 2);
    assert_eq!(u32::from_be_bytes([run[0], run[1], run[2], run[3]]), 255 * 4096 - 4);
}

#[test]
fn run_of_256_sectors_leaves_a_placeholder() {
    let run = encode_run(&vec![7u8; 255 * 4096 - 4]);
    assert_eq!(run.len(), 4096);
    assert_eq!(&run[0..5], &[0, 0, 0, 1, 130]);
    assert!(run[5..].iter().all(|b| *b == 0));
}

#[test]
fn overflowing_chunk_goes_to_its_own_file() {
    let payload = noise(1_100_000, 42);
    let mut region = Region::new(1, -1);
    region.set_chunk(5, Chunk::new(payload.clone(), 37, -32), 99);
    region.set_chunk(6, Chunk::new(vec![1, 2, 3, 4], 38, -32), 100);
    let (file, files) = write_anvil_region(&region, 6).unwrap();
    assert_eq!(files.len(), 1);
    assert_eq!((files[0].x, files[0].z), (37, -32));
    assert!(files[0].data.len() > 255 * 4096 - 5);
    assert_eq!(file.len(), 4 * 4096);
    assert_eq!(&file[20..24], &[0, 0, 2, 1]);
    assert_eq!(&file[24..28], &[0, 0, 3, 1]);
    assert_eq!(&file[8192..8197], &[0, 0, 0, 1, 130]);
    assert!(file[8197..3 * 4096].iter().all(|b| *b == 0));
    assert_eq!(external_chunks_needed(&file, 1, -1), vec![(37, -32)]);
    let back = read_anvil_region(&file, &files, 1, -1, 0).unwrap();
    assert_eq!(back.chunk_count(), 2);
    assert_eq!(back.get_chunk(5).unwrap().as_slice(), payload.as_slice());
    assert_eq!(back.get_chunk(6).unwrap().as_slice(), &[1, 2, 3, 4]);
}

#[test]
fn overflow_without_files_is_an_invalid_format() {
    let mut region = Region::new(0, 0);
    region.set_chunk(0, Chunk::new(noise(1_100_000, 7), 0, 0), 1);
    assert!(matches!(region_to_anvil_bytes(&region, 6), Err(RegionError::InvalidFormat)));
}

#[test]
fn missing_external_file_is_an_io_error() {
    let mut region = Region::new(0, 0);
    region.set_chunk(0, Chunk::new(noise(1_100_000, 7), 0, 0), 1);
    let (file, _) = write_anvil_region(&region, 6).unwrap();
    let none: Vec<ExternalChunk> = Vec::new();
    assert!(matches!(read_anvil_region(&file, &none, 0, 0, 0), Err(RegionError::Io(_))));
}

#[test]
fn bytes_without_files_equal_the_main_file() {
    let mut region = Region::new(0, 0);
    region.set_chunk(1, Chunk::new(vec![5; 10_000], 1, 0), 3);
    region.set_chunk(1023, Chunk::new(vec![6; 10], 31, 31), 4);
    let (file, _) = write_anvil_region(&region, 6).unwrap();
    assert_eq!(region_to_anvil_bytes(&region, 6).unwrap(), file);
}

#[test]
fn short_file_is_an_invalid_format() {
    let files: Vec<ExternalChunk> = Vec::new();
    assert!(matches!(
        read_anvil_region(&vec![0u8; 8191], &files, 0, 0, 0),
        Err(RegionError::InvalidFormat)
    ));
}

#[test]
fn entry_beyond_the_file_is_passed_over() {
    let mut file = vec![0u8; 8192];
    file[0..4].copy_from_slice(&[0, 0, 2, 1]);
    let files: Vec<ExternalChunk> = Vec::new();
    let region = read_anvil_region(&file, &files, 0, 0, 0).unwrap();
    assert_eq!(region.chunk_count(), 0);
}

#[test]
fn unknown_compression_code_is_an_invalid_format() {
    let mut file = vec![0u8; 3 * 4096];
    file[0..4].copy_from_slice(&[0, 0, 2, 1]);
    file[8192..8197].copy_from_slice(&[0, 0, 0, 1, 3]);
    let files: Vec<ExternalChunk> = Vec::new();
    assert!(matches!(
        read_anvil_region(&file, &files, 0, 0, 0),
        Err(RegionError::InvalidFormat)
    ));
}

#[test]
fn corrupt_stream_is_an_io_error() {
    let mut file = vec![0u8; 3 * 4096];
    file[0..4].copy_from_slice(&[0, 0, 2, 1]);
    file[8192..8200].copy_from_slice(&[0, 0, 0, 4, 2, 1, 2, 3]);
    let files: Vec<ExternalChunk> = Vec::new();
    assert!(matches!(read_anvil_region(&file, &files, 0, 0, 0), Err(RegionError::Io(_))));
}

#[test]
fn stored_length_beyond_the_run_is_cut() {
    let mut region = Region::new(0, 0);
    region.set_chunk(0, Chunk::new(vec![3; 50], 0, 0), 1);
    let (mut file, files) = write_anvil_region(&region, 6).unwrap();
    file[8192..8196].copy_from_slice(&0xffff_ffffu32.to_be_bytes());
    let back = read_anvil_region(&file, &files, 0, 0, 0).unwrap();
    assert_eq!(back.get_chunk(0).unwrap().as_slice(), &[3u8; 50][..]);
}

#[test]
fn stream_that_fills_its_run_reads_back() {
    let mut seed = 1u64;
    loop {
        let payload = noise(4000 + (seed as usize % 200), seed);
        let mut region = Region::new(0, 0);
        region.set_chunk(0, Chunk::new(payload.clone(), 0, 0), 1);
        let (file, files) = write_anvil_region(&region, 6).unwrap();
        let stored = u32::from_be_bytes([file[8192], file[8193], file[8194], file[8195]]);
        let back = read_anvil_region(&file, &files, 0, 0, 0).unwrap();
        assert_eq!(back.get_chunk(0).unwrap().as_slice(), payload.as_slice());
        if stored as usize + 4 == 4096 || seed > 400 {
            break;
        }
        seed += 1;
    }
}

#[test]
fn location_entry_keeps_three_offset_bytes() {
    let location = ChunkLocation::new(0x0102_0304, 9);
    assert_eq!(location.to_bytes(), [2, 3, 4, 9]);
    assert_eq!(location.get_offset(), 0x0002_0304);
    assert!(!location.is_empty());
    assert!(ChunkLocation::new(0, 0).is_empty());
    assert!(!ChunkLocation::new(0, 1).is_empty());
    let read = ChunkLocation::from_bytes(&[0, 1, 0, 7, 99]);
    assert_eq!(read.get_offset(), 256);
    assert_eq!(read.sector_count, 7);
}

#[test]
fn chunk_header_is_five_big_endian_bytes() {
    let header = ChunkDataHeader::new(0x0102_0304, 2);
    assert_eq!(header.to_bytes(), [1, 2, 3, 4, 2]);
    let read = ChunkDataHeader::from_bytes(&[0, 0, 1, 0, 130]);
    assert_eq!(read.length, 256);
    assert_eq!(read.compression_type, 130);
}

#[test]
fn bytes_behind_the_stream_are_not_read() {
    let mut region = Region::new(0, 0);
    region.set_chunk(0, Chunk::new(noise(3000, 5), 0, 0), 1);
    let (mut file, files) = write_anvil_region(&region, 6).unwrap();
    let stored = u32::from_be_bytes([file[8192], file[8193], file[8194], file[8195]]) as usize;
    let mut seed = 17u8;
    for byte in file[8197 + stored - 1..].iter_mut() {
        seed = seed.wrapping_mul(31).wrapping_add(7);
        *byte = seed | 1;
    }
    file[8192..8196].copy_from_slice(&0x00ff_ffffu32.to_be_bytes());
    let back = read_anvil_region(&file, &files, 0, 0, 0).unwrap();
    assert_eq!(back.get_chunk(0).unwrap().as_slice(), noise(3000, 5).as_slice());
}

#[test]
fn compression_level_changes_the_stream_not_the_payload() {
    let payload = vec![42u8; 20_000];
    for level in [0u32, 1, 6, 9, 10] {
        let mut region = Region::new(0, 0);
        region.set_chunk(0, Chunk::new(payload.clone(), 0, 0), 1);
        let (file, files) = write_anvil_region(&region, level).unwrap();
        if level == 0 {
            assert!(file.len() > 8192 + 20_000);
        } else {
            assert_eq!(file.len(), 3 * 4096);
        }
        let back = read_anvil_region(&file, &files, 0, 0, 0).unwrap();
        assert_eq!(back.get_chunk(0).unwrap().as_slice(), payload.as_slice());
    }
}

#[test]
fn level_beyond_ten_is_a_compression_failure() {
    let mut region = Region::new(0, 0);
    region.set_chunk(0, Chunk::new(vec![1, 2, 3], 0, 0), 1);
    match write_anvil_region(&region, 11) {
        Err(RegionError::CompressionFailed { reason }) => {
            assert_eq!(reason, "zlib has no such compression level")
        }
        _ => panic!("a level above ten must be refused"),
    }
    assert!(matches!(
        region_to_anvil_bytes(&region, u32::MAX),
        Err(RegionError::CompressionFailed { .. })
    ));
    assert!(write_anvil_region(&region, 10).is_ok());
    assert!(write_anvil_region(&Region::new(0, 0), 11).is_err());
}

#[test]
fn region_beyond_the_coordinate_range_is_an_invalid_format() {
    let files: Vec<ExternalChunk> = Vec::new();
    let file = vec![0u8; 8192];
    assert!(matches!(
        read_anvil_region(&file, &files, 0x400_0000, 0, 0),
        Err(RegionError::InvalidFormat)
    ));
    assert!(matches!(
        read_anvil_region(&file, &files, 0, -0x400_0001, 0),
        Err(RegionError::InvalidFormat)
    ));
    assert!(read_anvil_region(&file, &files, 0x3FF_FFFF, -0x400_0000, 0).is_ok());
    assert!(external_chunks_needed(&file, i32::MAX, 0).is_empty());
    assert!(matches!(
        write_anvil_region(&Region::new(i32::MIN, 0), 6),
        Err(RegionError::InvalidFormat)
    ));
    assert_eq!(region_to_anvil_bytes(&Region::new(i32::MAX, 0), 6).unwrap().len(), 8192);
}

#[test]
fn outermost_region_round_trips() {
    let mut region = Region::new(0x3FF_FFFF, -0x400_0000);
    let (x, z) = (0x3FF_FFFF * 32 + 31, -0x400_0000 * 32);
    assert_eq!((x, z), (i32::MAX, i32::MIN));
    region.set_chunk(31, Chunk::new(vec![9, 9, 9], x, z), 12);
    let (file, files) = write_anvil_region(&region, 6).unwrap();
    let back = read_anvil_region(&file, &files, 0x3FF_FFFF, -0x400_0000, 0).unwrap();
    let chunk = back.get_chunk(31).unwrap();
    assert_eq!((chunk.x, chunk.z), (i32::MAX, i32::MIN));
    assert_eq!(chunk.as_slice(), &[9, 9, 9]);
}
