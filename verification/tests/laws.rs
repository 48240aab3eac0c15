use linear_region_tools::anvil::{read_anvil_region, write_anvil_region};
use linear_region_tools::linear::{read_linear_region, write_linear_region};
use linear_region_tools::nbt::Value;
use linear_region_tools::region::{Chunk, Region};
use linear_region_tools::repair::fix_region;
use linear_region_tools::uuids::UuidSource;

fn noise(len: usize, seed: u64) -> Vec<u8> {
    let mut state = seed | 1;
    let mut out = Vec::with_capacity(len);
    for _ in 0..len {
        state ^= state << 13;
        state ^= state >> 7;
        state ^= state << 17;
        out.push((state >> 24) as u8);
    }
    out
}

fn sample(region_x: i32, region_z: i32) -> Region {
    let mut region = Region::new(region_x, region_z);
    for (slot, len) in [(0usize, 1usize), (1, 4091), (31, 70_000), (32, 5), (500, 12_345), (1023, 9)] {
        let x = region_x * 32 + (slot % 32) as i32;
        let z = region_z * 32 + (slot / 32) as i32;
        region.set_chunk(slot, Chunk::new(noise(len, slot as u64 + 3), x, z), 1000 + slot as u32);
    }
    region.mtime = 1_650_000_000;
    region
}

fn same_chunks(a: &Region, b: &Region) {
    assert_eq!(a.chunk_count(), b.chunk_count());
    assert_eq!((a.region_x, a.region_z, a.mtime), (b.region_x, b.region_z, b.mtime));
    for slot in 0..1024 {
        match (a.get_chunk(slot), b.get_chunk(slot)) {
            (Some(p), Some(q)) => {
                assert_eq!(p.as_slice(), q.as_slice());
                assert_eq!((p.x, p.z), (q.x, q.z));
                assert_eq!(a.timestamp(slot), b.timestamp(slot));
            }
            (None, None) => {}
            _ => panic!("slot {slot} differs"),
        }
    }
}

fn same_timestamps(a: &Region, b: &Region) {
    for slot in 0..1024 {
        assert_eq!(a.timestamp(slot), b.timestamp(slot));
    }
}

#[test]
fn sector_file_reads_the_same_after_a_rewrite() {
    let (file, files) = write_anvil_region(&sample(3, -4), 6).unwrap();
    let first = read_anvil_region(&file, &files, 3, -4, 7).unwrap();
    let (again, files_again) = write_anvil_region(&first, 9).unwrap();
    let second = read_anvil_region(&again, &files_again, 3, -4, 7).unwrap();
    same_chunks(&first, &second);
    same_timestamps(&first, &second);
}

#[test]
fn stream_file_reads_the_same_after_a_rewrite() {
    let mut region = sample(-1, 0);
    region.set_timestamp(77, 4242);
    let file = write_linear_region(&region, 3).unwrap();
    let first = read_linear_region(&file, -1, 0, 7).unwrap();
    assert_eq!(first.timestamp(77), 4242);
    let again = write_linear_region(&first, 19).unwrap();
    let second = read_linear_region(&again, -1, 0, 7).unwrap();
    same_chunks(&first, &second);
    same_timestamps(&first, &second);
}

#[test]
fn sector_to_stream_and_back() {
    let (file, files) = write_anvil_region(&sample(0, 0), 6).unwrap();
    let first = read_anvil_region(&file, &files, 0, 0, 7).unwrap();
    let stream = write_linear_region(&first, 6).unwrap();
    let middle = read_linear_region(&stream, 0, 0, 7).unwrap();
    same_chunks(&first, &middle);
    same_timestamps(&first, &middle);
    let (back, back_files) = write_anvil_region(&middle, 6).unwrap();
    let last = read_anvil_region(&back, &back_files, 0, 0, 7).unwrap();
    same_chunks(&first, &last);
    same_timestamps(&first, &last);
}

#[test]
fn stream_to_sector_and_back_keeps_the_chunks() {
    let mut region = sample(5, 5);
    region.set_timestamp(100, 31337);
    region.set_chunk(7, Chunk::new(noise(1_100_000, 99), 5 * 32 + 7, 5 * 32), 55);
    let stream = write_linear_region(&region, 3).unwrap();
    let first = read_linear_region(&stream, 5, 5, 7).unwrap();
    let (file, files) = write_anvil_region(&first, 6).unwrap();
    assert_eq!(files.len(), 1);
    let middle = read_anvil_region(&file, &files, 5, 5, 7).unwrap();
    same_chunks(&first, &middle);
    assert_eq!(first.timestamp(100), 31337);
    assert_eq!(middle.timestamp(100), 0);
    let back = write_linear_region(&middle, 3).unwrap();
    let last = read_linear_region(&back, 5, 5, 7).unwrap();
    same_chunks(&first, &last);
    same_timestamps(&middle, &last);
}

#[test]
fn readers_give_every_chunk_the_coordinates_of_its_slot() {
    let mut region = Region::new(-3, 2);
    region.set_chunk(33, Chunk::new(vec![1], 999, 999), 1);
    region.set_chunk(1000, Chunk::new(vec![2], 0, 0), 1);
    let stream = write_linear_region(&region, 3).unwrap();
    let (file, files) = write_anvil_region(&region, 3).unwrap();
    for read in [
        read_linear_region(&stream, -3, 2, 0).unwrap(),
        read_anvil_region(&file, &files, -3, 2, 0).unwrap(),
    ] {
        for slot in [33usize, 1000] {
            let chunk = read.get_chunk(slot).unwrap();
            assert_eq!(chunk.x, -3 * 32 + (slot % 32) as i32);
            assert_eq!(chunk.z, 2 * 32 + (slot / 32) as i32);
        }
    }
}

fn coded(value: &Value) -> fastnbt::Value {
    match value {
        Value::Byte(v) => fastnbt::Value::Byte(*v),
        Value::Short(v) => fastnbt::Value::Short(*v),
        Value::Int(v) => fastnbt::Value::Int(*v),
        Value::Long(v) => fastnbt::Value::Long(*v),
        Value::Float(v) => fastnbt::Value::Float(f32::from_bits(*v)),
        Value::Double(v) => fastnbt::Value::Double(f64::from_bits(*v)),
        Value::String(v) => fastnbt::Value::String(v.clone()),
        Value::ByteArray(v) => fastnbt::Value::ByteArray(fastnbt::ByteArray::new(v.clone())),
        Value::IntArray(v) => fastnbt::Value::IntArray(fastnbt::IntArray::new(v.clone())),
        Value::LongArray(v) => fastnbt::Value::LongArray(fastnbt::LongArray::new(v.clone())),
        Value::List(v) => fastnbt::Value::List(v.iter().map(coded).collect()),
        Value::Compound(v) => {
            fastnbt::Value::Compound(v.iter().map(|(k, v)| (k.clone(), coded(v))).collect())
        }
    }
}

fn entity(id: &str, passengers: Vec<Value>) -> Value {
    Value::Compound(vec![
        ("UUID".to_string(), Value::String(id.to_string())),
        ("Passengers".to_string(), Value::List(passengers)),
    ])
}

fn chunk_of(entities: Vec<Value>) -> Vec<u8> {
    fastnbt::to_bytes(&coded(&Value::Compound(vec![(
        "Entities".to_string(),
        Value::List(entities),
    )])))
    .unwrap()
}

fn collect_ids(value: &Value, into: &mut Vec<String>) {
    match value {
        Value::Compound(entries) => {
            for (key, value) in entries {
                match (key.as_str(), value) {
                    ("UUID", Value::String(id)) => into.push(id.clone()),
                    _ => collect_ids(value, into),
                }
            }
        }
        Value::List(items) => {
            for item in items {
                collect_ids(item, into);
            }
        }
        _ => {}
    }
}

fn repaired_region() -> Region {
    let mut region = Region::new(0, 0);
    region.set_chunk(
        3,
        Chunk::new(chunk_of(vec![entity("a", vec![entity("a", vec![]), entity("b", vec![])])]), 3, 0),
        1,
    );
    region.set_chunk(4, Chunk::new(chunk_of(vec![entity("c", vec![]), entity("b", vec![])]), 4, 0), 1);
    region.set_chunk(9, Chunk::new(chunk_of(vec![entity("a", vec![entity("c", vec![])])]), 9, 0), 1);
    let mut source = UuidSource::new();
    let (stats, repaired) = fix_region(&region, &mut source).unwrap();
    assert_eq!(stats.uuids_regenerated, 4);
    assert_eq!(stats.chunks_fixed, 3);
    for (slot, tree) in repaired {
        let bytes = fastnbt::to_bytes(&coded(&tree)).unwrap();
        region.set_chunk(slot, Chunk::new(bytes, slot as i32, 0), 1);
    }
    region
}

#[test]
fn no_two_entities_of_a_repaired_region_share_an_identifier() {
    let region = repaired_region();
    let mut ids = Vec::new();
    for slot in [3usize, 4, 9] {
        collect_ids(&region.get_chunk(slot).unwrap().parse_nbt().unwrap(), &mut ids);
    }
    assert_eq!(ids.len(), 7);
    let mut unique = ids.clone();
    unique.sort();
    unique.dedup();
    assert_eq!(unique.len(), 7);
    for kept in ["a", "b", "c"] {
        assert!(ids.iter().any(|id| id == kept));
    }
}

#[test]
fn repaired_region_is_not_repaired_again() {
    let region = repaired_region();
    let mut source = UuidSource::new();
    let (stats, repaired) = fix_region(&region, &mut source).unwrap();
    assert!(repaired.is_empty());
    assert_eq!(stats.files_processed, 1);
    assert_eq!(stats.chunks_fixed, 0);
    assert_eq!(stats.entities_fixed, 0);
    assert_eq!(stats.uuids_regenerated, 0);
    assert!(!stats.any_repair());
}
