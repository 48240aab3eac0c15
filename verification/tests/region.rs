use linear_region_tools::region::{
    chunk_position, coord_in_range, local_index, Chunk, Region,
};

#[test]
fn new_region_is_empty() {
    let region = Region::new(4, -7);
    assert_eq!(region.chunk_count(), 0);
    assert_eq!((region.region_x, region.region_z), (4, -7));
    assert!(region.get_chunk(0).is_none());
    assert_eq!(region.timestamp(1023), 0);
}

#[test]
fn set_get_and_remove() {
    let mut region = Region::new(0, 0);
    region.set_chunk(17, Chunk::new(vec![1, 2], 17, 0), 8);
    assert_eq!(region.chunk_count(), 1);
    assert_eq!(region.get_chunk(17).unwrap().as_slice(), &[1, 2]);
    assert_eq!(region.get_chunk(17).unwrap().size(), 2);
    assert_eq!(region.timestamp(17), 8);
    region.set_chunk(17, Chunk::from_slice(&[3], 17, 0), 9);
    assert_eq!(region.chunk_count(), 1);
    assert_eq!(region.get_chunk(17).unwrap().as_slice(), &[3]);
    region.remove_chunk(17);
    assert_eq!(region.chunk_count(), 0);
    assert_eq!(region.timestamp(17), 0);
    assert!(region.get_chunk(5000).is_none());
}

#[test]
fn coordinates_map_to_slots() {
    assert_eq!(local_index(0, 0), 0);
    assert_eq!(local_index(33, 2), 65);
    assert_eq!(local_index(-1, -1), 1023);
    assert_eq!(local_index(i32::MIN, i32::MAX), 31 * 32);
    let mut region = Region::new(-1, -1);
    region.set_chunk_at(-1, -32, Chunk::new(vec![7], -1, -32), 2);
    assert_eq!(region.get_chunk(31).unwrap().as_slice(), &[7]);
    assert_eq!(region.get_chunk_at(-33, -64).unwrap().as_slice(), &[7]);
    assert!(region.get_chunk_at(0, 1).is_none());
    assert_eq!(chunk_position(-1, -1, 31), (-1, -32));
    assert_eq!(chunk_position(3, 2, 1023), (127, 95));
}

#[test]
fn clone_keeps_payload_and_coordinates() {
    let chunk = Chunk::new(vec![1, 2, 3], -5, 6);
    let copy = chunk.clone();
    assert_eq!(copy.as_slice(), &[1, 2, 3]);
    assert_eq!((copy.x, copy.z), (-5, 6));
}

#[test]
fn region_coordinates_have_twenty_seven_bits() {
    assert!(coord_in_range(0));
    assert!(coord_in_range(-0x400_0000));
    assert!(coord_in_range(0x3FF_FFFF));
    assert!(!coord_in_range(0x400_0000));
    assert!(!coord_in_range(-0x400_0001));
    assert!(!coord_in_range(i32::MAX));
    assert!(!coord_in_range(i32::MIN));
}

#[test]
fn chunk_outside_the_slots_breaks_the_region() {
    let mut region = Region::new(0, 0);
    assert!(region.is_well_formed());
    region.set_chunk(1023, Chunk::new(vec![1], 31, 31), 1);
    assert!(region.is_well_formed());
    region.chunks.insert(1024, Chunk::new(vec![2], 0, 0));
    assert!(!region.is_well_formed());
    region.chunks.remove(&1024);
    assert!(region.is_well_formed());
}
