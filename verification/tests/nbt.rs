use linear_region_tools::nbt::{parse_nbt, NbtError, Value};
use linear_region_tools::region::Chunk;

fn entry(key: &str, value: Value) -> (String, Value) {
    (key.to_string(), value)
}

fn sorted(value: Value) -> Value {
    match value {
        Value::List(items) => Value::List(items.into_iter().map(sorted).collect()),
        Value::Compound(entries) => {
            let mut entries: Vec<(String, Value)> =
                entries.into_iter().map(|(k, v)| (k, sorted(v))).collect();
            entries.sort_by(|a, b| a.0.cmp(&b.0));
            Value::Compound(entries)
        }
        other => other,
    }
}

fn same(a: &Value, b: &Value) -> bool {
    match (a, b) {
        (Value::Byte(x), Value::Byte(y)) => x == y,
        (Value::Short(x), Value::Short(y)) => x == y,
        (Value::Int(x), Value::Int(y)) => x == y,
        (Value::Long(x), Value::Long(y)) => x == y,
        (Value::Float(x), Value::Float(y)) => x == y,
        (Value::Double(x), Value::Double(y)) => x == y,
        (Value::String(x), Value::String(y)) => x == y,
        (Value::ByteArray(x), Value::ByteArray(y)) => x == y,
        (Value::IntArray(x), Value::IntArray(y)) => x == y,
        (Value::LongArray(x), Value::LongArray(y)) => x == y,
        (Value::List(x), Value::List(y)) => {
            x.len() == y.len() && x.iter().zip(y.iter()).all(|(p, q)| same(p, q))
        }
        (Value::Compound(x), Value::Compound(y)) => {
            x.len() == y.len()
                && x.iter().zip(y.iter()).all(|(p, q)| p.0 == q.0 && same(&p.1, &q.1))
        }
        _ => false,
    }
}

fn sample() -> Value {
    Value::Compound(vec![
        entry("b", Value::Byte(-3)),
        entry("s", Value::Short(300)),
        entry("i", Value::Int(-70000)),
        entry("l", Value::Long(1 << 40)),
        entry("f", Value::Float(1.5f32.to_bits())),
        entry("d", Value::Double((-2.25f64).to_bits())),
        entry("str", Value::String("hello".to_string())),
        entry("ba", Value::ByteArray(vec![1, -1])),
        entry("ia", Value::IntArray(vec![1, -2, 3])),
        entry("la", Value::LongArray(vec![i64::MIN, 9])),
        entry("list", Value::List(vec![Value::Int(1), Value::Int(2)])),
        entry("nested", Value::Compound(vec![entry("k", Value::List(Vec::new()))])),
    ])
}

fn coded(value: &Value) -> fastnbt::Value {
    match value {
        Value::Byte(v) => fastnbt::Value::Byte(*v),
        Value::Short(v) => fastnbt::Value::Short(*v),
        Value::Int(v) => fastnbt::Value::Int(*v),
        Value::Long(v) => fastnbt::Value::Long(*v),
        Value::Float(v) => fastnbt::Value::Float(f32::from_bits(*v)),
        Value::Double(v) => fastnbt::Value::Double(f64::from_bits(*v)),
        Value::String(v) => fastnbt::Value::String(v.clone()),
        Value::ByteArray(v) => fastnbt::Value::ByteArray(fastnbt::ByteArray::new(v.clone())),
        Value::IntArray(v) => fastnbt::Value::IntArray(fastnbt::IntArray::new(v.clone())),
        Value::LongArray(v) => fastnbt::Value::LongArray(fastnbt::LongArray::new(v.clone())),
        Value::List(v) => fastnbt::Value::List(v.iter().map(coded).collect()),
        Value::Compound(v) => {
            fastnbt::Value::Compound(v.iter().map(|(k, v)| (k.clone(), coded(v))).collect())
        }
    }
}

#[test]
fn every_kind_of_value_parses() {
    let bytes = fastnbt::to_bytes(&coded(&sample())).unwrap();
    let back = parse_nbt(&bytes).unwrap();
    assert!(same(&sorted(back), &sorted(sample())));
}

#[test]
fn known_bytes_parse() {
    let bytes = [0x0a, 0, 0, 0x03, 0, 1, b'x', 0, 0, 0, 7, 0];
    let value = parse_nbt(&bytes).unwrap();
    assert!(same(&value, &Value::Compound(vec![entry("x", Value::Int(7))])));
}

#[test]
fn double_is_held_by_its_bits() {
    let bytes = [0x0a, 0, 0, 0x06, 0, 1, b'd', 0x40, 0x59, 0, 0, 0, 0, 0, 0, 0];
    let value = parse_nbt(&bytes).unwrap();
    assert!(same(&value, &Value::Compound(vec![entry("d", Value::Double(100.0f64.to_bits()))])));
}

#[test]
fn garbage_does_not_parse() {
    assert!(matches!(parse_nbt(&[0xff, 1, 2]), Err(NbtError::Parse(_))));
    assert!(matches!(parse_nbt(&[]), Err(NbtError::Parse(_))));
}

#[test]
fn chunk_payload_parses() {
    let chunk = Chunk::new(fastnbt::to_bytes(&coded(&sample())).unwrap(), 3, -4);
    assert!(same(&sorted(chunk.parse_nbt().unwrap()), &sorted(sample())));
}

#[test]
fn key_that_stands_twice_is_read_once() {
    let bytes = [
        0x0a, 0, 0, 0x03, 0, 1, b'x', 0, 0, 0, 1, 0x03, 0, 1, b'y', 0, 0, 0, 5, 0x03, 0, 1, b'x', 0,
        0, 0, 2, 0,
    ];
    let value = sorted(parse_nbt(&bytes).unwrap());
    assert!(same(
        &value,
        &Value::Compound(vec![entry("x", Value::Int(2)), entry("y", Value::Int(5))])
    ));
}

#[test]
fn payload_parses_alike_every_time() {
    let bytes = fastnbt::to_bytes(&coded(&sample())).unwrap();
    let first = sorted(parse_nbt(&bytes).unwrap());
    for _ in 0..5 {
        assert!(same(&first, &sorted(parse_nbt(&bytes).unwrap())));
    }
    assert!(parse_nbt(&bytes[..bytes.len() - 1]).is_err());
    assert!(parse_nbt(&bytes[..bytes.len() - 1]).is_err());
}
