use linear_region_tools::enchant::{
    fix_enchantment_levels, fix_item_enchantments, fix_items_enchantments,
};
use linear_region_tools::entity::{
    fix_entities, fix_entity, fix_entity_position, fix_entity_uuid, should_delete_entity,
};
use linear_region_tools::nbt::{parse_nbt, NbtError, Value};
use linear_region_tools::region::{Chunk, Region};
use linear_region_tools::repair::{fix_chunk, fix_chunk_tree, fix_region, remove_exploit_entities};
use linear_region_tools::stats::{add_clipped, FixStats};
use linear_region_tools::uuids::{UuidSet, UuidSource};

fn entry(key: &str, value: Value) -> (String, Value) {
    (key.to_string(), value)
}

fn compound(entries: Vec<(&str, Value)>) -> Value {
    Value::Compound(entries.into_iter().map(|(k, v)| entry(k, v)).collect())
}

fn text(s: &str) -> Value {
    Value::String(s.to_string())
}

fn double(x: f64) -> Value {
    Value::Double(x.to_bits())
}

fn get<'a>(value: &'a Value, key: &str) -> &'a Value {
    match value {
        Value::Compound(entries) => &entries.iter().find(|e| e.0 == key).unwrap().1,
        _ => panic!("no compound"),
    }
}

fn has(value: &Value, key: &str) -> bool {
    match value {
        Value::Compound(entries) => entries.iter().any(|e| e.0 == key),
        _ => false,
    }
}

fn items(value: &Value) -> &Vec<Value> {
    match value {
        Value::List(items) => items,
        _ => panic!("no list"),
    }
}

fn same(a: &Value, b: &Value) -> bool {
    match (a, b) {
        (Value::Byte(x), Value::Byte(y)) => x == y,
        (Value::Short(x), Value::Short(y)) => x == y,
        (Value::Int(x), Value::Int(y)) => x == y,
        (Value::Long(x), Value::Long(y)) => x == y,
        (Value::Float(x), Value::Float(y)) => x == y,
        (Value::Double(x), Value::Double(y)) => x == y,
        (Value::String(x), Value::String(y)) => x == y,
        (Value::ByteArray(x), Value::ByteArray(y)) => x == y,
        (Value::IntArray(x), Value::IntArray(y)) => x == y,
        (Value::LongArray(x), Value::LongArray(y)) => x == y,
        (Value::List(x), Value::List(y)) => {
            x.len() == y.len() && x.iter().zip(y.iter()).all(|(p, q)| same(p, q))
        }
        (Value::Compound(x), Value::Compound(y)) => {
            x.len() == y.len()
                && x.iter().zip(y.iter()).all(|(p, q)| p.0 == q.0 && same(&p.1, &q.1))
        }
        _ => false,
    }
}

fn copy(value: &Value) -> Value {
    match value {
        Value::Byte(v) => Value::Byte(*v),
        Value::Short(v) => Value::Short(*v),
        Value::Int(v) => Value::Int(*v),
        Value::Long(v) => Value::Long(*v),
        Value::Float(v) => Value::Float(*v),
        Value::Double(v) => Value::Double(*v),
        Value::String(v) => Value::String(v.clone()),
        Value::ByteArray(v) => Value::ByteArray(v.clone()),
        Value::IntArray(v) => Value::IntArray(v.clone()),
        Value::LongArray(v) => Value::LongArray(v.clone()),
        Value::List(v) => Value::List(v.iter().map(copy).collect()),
        Value::Compound(v) => Value::Compound(v.iter().map(|(k, v)| (k.clone(), copy(v))).collect()),
    }
}

fn coded(value: &Value) -> fastnbt::Value {
    match value {
        Value::Byte(v) => fastnbt::Value::Byte(*v),
        Value::Short(v) => fastnbt::Value::Short(*v),
        Value::Int(v) => fastnbt::Value::Int(*v),
        Value::Long(v) => fastnbt::Value::Long(*v),
        Value::Float(v) => fastnbt::Value::Float(f32::from_bits(*v)),
        Value::Double(v) => fastnbt::Value::Double(f64::from_bits(*v)),
        Value::String(v) => fastnbt::Value::String(v.clone()),
        Value::ByteArray(v) => fastnbt::Value::ByteArray(fastnbt::ByteArray::new(v.clone())),
        Value::IntArray(v) => fastnbt::Value::IntArray(fastnbt::IntArray::new(v.clone())),
        Value::LongArray(v) => fastnbt::Value::LongArray(fastnbt::LongArray::new(v.clone())),
        Value::List(v) => fastnbt::Value::List(v.iter().map(coded).collect()),
        Value::Compound(v) => {
            fastnbt::Value::Compound(v.iter().map(|(k, v)| (k.clone(), coded(v))).collect())
        }
    }
}

fn payload(value: &Value) -> Vec<u8> {
    fastnbt::to_bytes(&coded(value)).unwrap()
}

fn exploit_item() -> Value {
    compound(vec![
        ("id", text("minecraft:stick")),
        ("components", compound(vec![("minecraft:custom_data", compound(vec![]))])),
    ])
}

fn plain_item() -> Value {
    compound(vec![("id", text("minecraft:stick")), ("components", compound(vec![]))])
}

#[test]
fn levels_of_zero_are_raised_to_one() {
    let mut levels = vec![
        entry("a", Value::Int(0)),
        entry("b", Value::Short(0)),
        entry("c", Value::Byte(0)),
        entry("d", Value::Int(3)),
        entry("e", Value::Long(0)),
        entry("f", Value::Short(-1)),
        entry("g", text("0")),
    ];
    assert_eq!(fix_enchantment_levels(&mut levels), 3);
    let fixed = Value::Compound(levels);
    assert!(same(
        &fixed,
        &compound(vec![
            ("a", Value::Int(1)),
            ("b", Value::Short(1)),
            ("c", Value::Byte(1)),
            ("d", Value::Int(3)),
            ("e", Value::Long(0)),
            ("f", Value::Short(-1)),
            ("g", text("0")),
        ])
    ));
}

#[test]
fn new_layout_keeps_levels_under_levels() {
    let mut item = compound(vec![(
        "components",
        compound(vec![(
            "minecraft:enchantments",
            compound(vec![
                ("levels", compound(vec![("sharp", Value::Int(0)), ("dull", Value::Int(2))])),
                ("show", Value::Byte(0)),
            ]),
        )]),
    )]);
    let stats = fix_item_enchantments(&mut item);
    assert_eq!(stats.enchantments_fixed, 1);
    let component = get(get(&item, "components"), "minecraft:enchantments");
    assert!(same(
        get(component, "levels"),
        &compound(vec![("sharp", Value::Int(1)), ("dull", Value::Int(2))])
    ));
    assert!(same(get(component, "show"), &Value::Byte(0)));
}

#[test]
fn old_layout_keeps_levels_in_the_component() {
    let mut item = compound(vec![(
        "components",
        compound(vec![(
            "minecraft:enchantments",
            compound(vec![("sharp", Value::Short(0)), ("levels", Value::Int(0))]),
        )]),
    )]);
    let stats = fix_item_enchantments(&mut item);
    assert_eq!(stats.enchantments_fixed, 2);
    assert!(same(
        get(get(&item, "components"), "minecraft:enchantments"),
        &compound(vec![("sharp", Value::Short(1)), ("levels", Value::Int(1))])
    ));
}

#[test]
fn custom_data_loses_its_marker_and_has_its_list_repaired() {
    let mut item = compound(vec![(
        "components",
        compound(vec![(
            "minecraft:custom_data",
            compound(vec![
                ("keep", Value::Int(0)),
                ("VV|Protocol1_20_3To1_20_5", compound(vec![])),
                (
                    "Enchantments",
                    Value::List(vec![
                        compound(vec![("id", text("a")), ("lvl", Value::Short(0))]),
                        compound(vec![("id", text("b")), ("lvl", Value::Short(4))]),
                        compound(vec![("id", text("c")), ("lvl", Value::Int(0))]),
                        Value::Short(0),
                    ]),
                ),
            ]),
        )]),
    )]);
    let stats = fix_item_enchantments(&mut item);
    assert_eq!(stats.enchantments_fixed, 2);
    let data = get(get(&item, "components"), "minecraft:custom_data");
    assert!(!has(data, "VV|Protocol1_20_3To1_20_5"));
    assert!(same(get(data, "keep"), &Value::Int(0)));
    assert!(same(
        get(data, "Enchantments"),
        &Value::List(vec![
            compound(vec![("id", text("a")), ("lvl", Value::Short(1))]),
            compound(vec![("id", text("b")), ("lvl", Value::Short(4))]),
            compound(vec![("id", text("c")), ("lvl", Value::Int(0))]),
            Value::Short(0),
        ])
    ));
}

#[test]
fn legacy_list_of_the_item_is_repaired() {
    let mut item = compound(vec![
        ("Enchantments", Value::List(vec![compound(vec![("lvl", Value::Short(0))])])),
        ("Count", Value::Byte(0)),
    ]);
    let stats = fix_item_enchantments(&mut item);
    assert_eq!(stats.enchantments_fixed, 1);
    assert!(same(
        &item,
        &compound(vec![
            ("Enchantments", Value::List(vec![compound(vec![("lvl", Value::Short(1))])])),
            ("Count", Value::Byte(0)),
        ])
    ));
    let mut other = Value::Int(0);
    assert_eq!(fix_item_enchantments(&mut other).enchantments_fixed, 0);
    assert!(same(&other, &Value::Int(0)));
}

fn zero_item() -> Value {
    compound(vec![("Enchantments", Value::List(vec![compound(vec![("lvl", Value::Short(0))])]))])
}

fn one_item() -> Value {
    compound(vec![("Enchantments", Value::List(vec![compound(vec![("lvl", Value::Short(1))])]))])
}

#[test]
fn equipment_is_repaired_in_its_six_slots() {
    let mut equipment = compound(vec![
        ("head", zero_item()),
        ("saddle", zero_item()),
        ("offhand", zero_item()),
        ("feet", Value::Int(0)),
    ]);
    let stats = fix_items_enchantments(&mut equipment);
    assert_eq!(stats.enchantments_fixed, 2);
    assert!(same(
        &equipment,
        &compound(vec![
            ("head", one_item()),
            ("saddle", zero_item()),
            ("offhand", one_item()),
            ("feet", Value::Int(0)),
        ])
    ));
    let mut list = Value::List(vec![zero_item(), one_item(), zero_item()]);
    assert_eq!(fix_items_enchantments(&mut list).enchantments_fixed, 2);
    assert!(same(&list, &Value::List(vec![one_item(), one_item(), one_item()])));
}

#[test]
fn entities_with_custom_data_are_marked() {
    assert!(should_delete_entity(&compound(vec![(
        "equipment",
        compound(vec![("anything", exploit_item())])
    )])));
    assert!(should_delete_entity(&compound(vec![(
        "ArmorItems",
        Value::List(vec![plain_item(), exploit_item()])
    )])));
    assert!(should_delete_entity(&compound(vec![(
        "HandItems",
        Value::List(vec![exploit_item()])
    )])));
    assert!(!should_delete_entity(&compound(vec![
        ("equipment", compound(vec![("head", plain_item())])),
        ("ArmorItems", Value::List(vec![plain_item()])),
        ("Item", exploit_item()),
        ("HandItems", compound(vec![("x", exploit_item())])),
    ])));
    assert!(!should_delete_entity(&Value::List(vec![exploit_item()])));
}

#[test]
fn marked_entities_are_taken_out() {
    let keep = |n: i32| compound(vec![("n", Value::Int(n))]);
    let drop = || compound(vec![("HandItems", Value::List(vec![exploit_item()]))]);
    let mut list = vec![drop(), keep(1), drop(), drop(), keep(2), keep(3), drop()];
    assert_eq!(remove_exploit_entities(&mut list), 4);
    assert!(same(&Value::List(list), &Value::List(vec![keep(1), keep(2), keep(3)])));
    let mut none: Vec<Value> = Vec::new();
    assert_eq!(remove_exploit_entities(&mut none), 0);
}

#[test]
fn duplicate_identifier_is_regenerated() {
    let shared = "00000000-0000-0000-0000-000000000001";
    let mut root = compound(vec![(
        "Entities",
        Value::List(vec![compound(vec![("UUID", text(shared))]), compound(vec![("UUID", text(shared))])]),
    )]);
    let mut used = UuidSet::new();
    let mut source = UuidSource::new();
    let stats = fix_chunk_tree(&mut root, 0, 0, &mut used, &mut source);
    assert_eq!(stats.uuids_regenerated, 1);
    assert_eq!(stats.entities_fixed, 1);
    let entities = items(get(&root, "Entities"));
    let first = match get(&entities[0], "UUID") {
        Value::String(s) => s.clone(),
        _ => panic!("no string"),
    };
    let second = match get(&entities[1], "UUID") {
        Value::String(s) => s.clone(),
        _ => panic!("no string"),
    };
    assert_eq!(first, shared);
    assert_ne!(first, second);
    assert_eq!(uuid::Uuid::parse_str(&second).unwrap().get_version_num(), 4);
    assert!(used.contains(&first) && used.contains(&second));
}

#[test]
fn identifier_in_lanes_stays_in_lanes() {
    let mut used = UuidSet::new();
    let mut source = UuidSource::new();
    let mut first = Value::IntArray(vec![0, 0, 0, 1]);
    let mut second = text("00000000-0000-0000-0000-000000000001");
    let mut third = Value::IntArray(vec![0, 0, 0, 1]);
    assert_eq!(fix_entity_uuid(&mut first, &mut used, &mut source).uuids_regenerated, 0);
    assert_eq!(fix_entity_uuid(&mut second, &mut used, &mut source).uuids_regenerated, 1);
    assert_eq!(fix_entity_uuid(&mut third, &mut used, &mut source).uuids_regenerated, 1);
    assert!(same(&first, &Value::IntArray(vec![0, 0, 0, 1])));
    assert!(matches!(&second, Value::String(s) if s.len() == 36 && s != "00000000-0000-0000-0000-000000000001"));
    match &third {
        Value::IntArray(lanes) => {
            assert_eq!(lanes.len(), 4);
            assert_eq!((lanes[1] >> 12) & 0xf, 4);
        }
        _ => panic!("no lanes"),
    }
    let mut odd = Value::IntArray(vec![1, 2, 3]);
    assert_eq!(fix_entity_uuid(&mut odd, &mut used, &mut source).uuids_regenerated, 0);
    let mut number = Value::Long(5);
    assert_eq!(fix_entity_uuid(&mut number, &mut used, &mut source).uuids_regenerated, 0);
    assert_eq!(used.items.len(), 3);
}

#[test]
fn position_outside_the_chunk_moves_to_its_middle() {
    let mut pos = Value::List(vec![double(100.0), double(64.0), double(-50.0)]);
    let stats = fix_entity_position(&mut pos, 3, -2);
    assert_eq!(stats.positions_fixed, 1);
    assert!(same(&pos, &Value::List(vec![double(56.0), double(64.0), double(-24.0)])));
}

#[test]
fn position_inside_the_chunk_stays() {
    let mut pos = Value::List(vec![double(48.0), double(-1e9), double(-16.000001), double(7.0)]);
    let stats = fix_entity_position(&mut pos, 3, -2);
    assert_eq!(stats.positions_fixed, 0);
    assert!(same(
        &pos,
        &Value::List(vec![double(48.0), double(-1e9), double(-16.000001), double(7.0)])
    ));
    let mut edge = Value::List(vec![double(64.0), double(0.0), double(-32.0)]);
    assert_eq!(fix_entity_position(&mut edge, 3, -2).positions_fixed, 1);
    assert!(same(&edge, &Value::List(vec![double(56.0), double(0.0), double(-32.0)])));
    let mut short = Value::List(vec![double(1e9), double(0.0)]);
    assert_eq!(fix_entity_position(&mut short, 0, 0).positions_fixed, 0);
    let mut other = Value::List(vec![Value::Int(999), double(0.0), Value::Float(0)]);
    assert_eq!(fix_entity_position(&mut other, 0, 0).positions_fixed, 0);
    let mut nan = Value::List(vec![double(f64::NAN), double(0.0), double(f64::INFINITY)]);
    assert_eq!(fix_entity_position(&mut nan, 0, 0).positions_fixed, 1);
    assert!(same(&nan, &Value::List(vec![double(8.0), double(0.0), double(8.0)])));
    let mut lone = Value::List(vec![double(3.0), double(f64::NAN), double(-f64::NAN)]);
    assert_eq!(fix_entity_position(&mut lone, 0, 2).positions_fixed, 1);
    assert!(same(&lone, &Value::List(vec![double(3.0), double(f64::NAN), double(40.0)])));
}

fn rider(uuid: &str, x: f64) -> Value {
    compound(vec![
        ("UUID", text(uuid)),
        ("Pos", Value::List(vec![double(x), double(0.0), double(1.0)])),
    ])
}

#[test]
fn passengers_are_repaired_with_their_vehicle() {
    let mut entity = compound(vec![
        ("Passengers", Value::List(vec![rider("b", 1.0), rider("a", 99.0)])),
        ("UUID", text("a")),
        ("Item", zero_item()),
        ("Pos", Value::List(vec![double(2.0), double(0.0), double(3.0)])),
    ]);
    let mut used = UuidSet::new();
    let mut source = UuidSource::new();
    let stats = fix_entity(&mut entity, 0, 0, &mut used, &mut source);
    assert_eq!(stats.enchantments_fixed, 1);
    assert_eq!(stats.uuids_regenerated, 1);
    assert_eq!(stats.positions_fixed, 1);
    assert_eq!(stats.entities_fixed, 2);
    assert!(same(get(&entity, "UUID"), &text("a")));
    assert!(same(get(&entity, "Item"), &one_item()));
    let riders = items(get(&entity, "Passengers"));
    assert!(same(&riders[0], &rider("b", 1.0)));
    assert!(!same(get(&riders[1], "UUID"), &text("a")));
    assert!(same(
        get(&riders[1], "Pos"),
        &Value::List(vec![double(8.0), double(0.0), double(1.0)])
    ));
    let mut scalar = Value::Int(1);
    let none = fix_entity(&mut scalar, 0, 0, &mut used, &mut source);
    assert_eq!((none.entities_fixed, none.uuids_regenerated), (0, 0));
}

#[test]
fn entities_see_the_identifiers_of_those_before_them() {
    let mut list = vec![rider("x", 1.0), rider("y", 1.0), rider("x", 1.0), rider("y", 1.0)];
    let mut used = UuidSet::new();
    let mut source = UuidSource::new();
    let stats = fix_entities(&mut list, 0, 0, &mut used, &mut source);
    assert_eq!(stats.uuids_regenerated, 2);
    assert_eq!(stats.entities_fixed, 2);
    assert!(same(&list[0], &rider("x", 1.0)));
    assert!(same(&list[1], &rider("y", 1.0)));
    assert_eq!(used.items.len(), 4);
}

fn troubled_chunk() -> Value {
    compound(vec![
        ("DataVersion", Value::Int(3700)),
        (
            "Entities",
            Value::List(vec![
                compound(vec![("HandItems", Value::List(vec![exploit_item()])), ("UUID", text("gone"))]),
                compound(vec![
                    ("UUID", Value::IntArray(vec![1, 2, 3, 4])),
                    ("equipment", compound(vec![("mainhand", zero_item())])),
                    ("Pos", Value::List(vec![double(1000.0), double(5.0), double(33.0)])),
                ]),
            ]),
        ),
        ("entities", Value::List(vec![compound(vec![("UUID", Value::IntArray(vec![1, 2, 3, 4]))])])),
        ("Other", Value::List(vec![zero_item()])),
    ])
}

#[test]
fn chunk_tree_is_repaired_in_both_lists() {
    let mut root = troubled_chunk();
    let mut used = UuidSet::new();
    let mut source = UuidSource::new();
    let stats = fix_chunk_tree(&mut root, 1, 2, &mut used, &mut source);
    assert_eq!(stats.entities_fixed, 3);
    assert_eq!(stats.enchantments_fixed, 1);
    assert_eq!(stats.uuids_regenerated, 1);
    assert_eq!(stats.positions_fixed, 1);
    assert_eq!((stats.files_processed, stats.chunks_fixed), (0, 0));
    assert!(same(get(&root, "DataVersion"), &Value::Int(3700)));
    assert!(same(get(&root, "Other"), &Value::List(vec![zero_item()])));
    let upper = items(get(&root, "Entities"));
    assert_eq!(upper.len(), 1);
    assert!(same(get(&upper[0], "UUID"), &Value::IntArray(vec![1, 2, 3, 4])));
    assert!(same(get(&upper[0], "equipment"), &compound(vec![("mainhand", one_item())])));
    assert!(same(
        get(&upper[0], "Pos"),
        &Value::List(vec![double(24.0), double(5.0), double(33.0)])
    ));
    let lower = items(get(&root, "entities"));
    assert!(!same(get(&lower[0], "UUID"), &Value::IntArray(vec![1, 2, 3, 4])));
    assert!(!used.contains(&"gone".to_string()));
}

#[test]
fn second_repair_changes_nothing() {
    let mut root = troubled_chunk();
    let mut used = UuidSet::new();
    let mut source = UuidSource::new();
    fix_chunk_tree(&mut root, 1, 2, &mut used, &mut source);
    let once = copy(&root);
    let mut used = UuidSet::new();
    let stats = fix_chunk_tree(&mut root, 1, 2, &mut used, &mut source);
    assert!(same(&root, &once));
    assert_eq!(stats.entities_fixed, 0);
    assert_eq!(stats.enchantments_fixed, 0);
    assert_eq!(stats.uuids_regenerated, 0);
    assert_eq!(stats.positions_fixed, 0);
}

#[test]
fn root_that_is_no_compound_stays() {
    let mut root = Value::List(vec![compound(vec![("UUID", text("a"))])]);
    let mut used = UuidSet::new();
    let mut source = UuidSource::new();
    let stats = fix_chunk_tree(&mut root, 0, 0, &mut used, &mut source);
    assert_eq!(stats.entities_fixed, 0);
    assert!(used.items.is_empty());
}

#[test]
fn chunk_payload_is_parsed_and_repaired() {
    let chunk = Chunk::new(payload(&troubled_chunk()), 1, 2);
    let mut used = UuidSet::new();
    let mut source = UuidSource::new();
    let (stats, tree) = fix_chunk(&chunk, &mut used, &mut source).unwrap();
    assert_eq!(stats.entities_fixed, 3);
    let tree = tree.unwrap();
    assert_eq!(items(get(&tree, "Entities")).len(), 1);
    let sound = Chunk::new(payload(&compound(vec![("Entities", Value::List(vec![]))])), 1, 2);
    let (stats, tree) = fix_chunk(&sound, &mut used, &mut source).unwrap();
    assert_eq!(stats.entities_fixed, 0);
    assert!(tree.is_none());
    let broken = Chunk::new(vec![1, 2, 3], 0, 0);
    assert!(matches!(fix_chunk(&broken, &mut used, &mut source), Err(NbtError::Parse(_))));
}

#[test]
fn region_shares_its_identifiers_between_chunks() {
    let entity = |id: &str| compound(vec![("UUID", text(id))]);
    let chunk = |ids: Vec<&str>| {
        payload(&compound(vec![("Entities", Value::List(ids.into_iter().map(entity).collect()))]))
    };
    let mut region = Region::new(0, 0);
    region.set_chunk(5, Chunk::new(chunk(vec!["a", "b"]), 5, 0), 1);
    region.set_chunk(2, Chunk::new(chunk(vec!["c"]), 2, 0), 1);
    region.set_chunk(9, Chunk::new(chunk(vec!["a", "c", "d"]), 9, 0), 1);
    let mut source = UuidSource::new();
    let (stats, repaired) = fix_region(&region, &mut source).unwrap();
    assert_eq!(stats.files_processed, 1);
    assert_eq!(stats.chunks_fixed, 1);
    assert_eq!(stats.uuids_regenerated, 2);
    assert_eq!(stats.entities_fixed, 2);
    assert_eq!(repaired.len(), 1);
    assert_eq!(repaired[0].0, 9);
    let entities = items(get(&repaired[0].1, "Entities"));
    assert!(!same(&entities[0], &entity("a")));
    assert!(!same(&entities[1], &entity("c")));
    assert!(same(&entities[2], &entity("d")));
    region.set_chunk(7, Chunk::new(vec![0xff], 7, 0), 1);
    assert!(matches!(fix_region(&region, &mut source), Err(NbtError::Parse(_))));
}

#[test]
fn repaired_payload_parses_to_the_repaired_tree() {
    let mut root = troubled_chunk();
    let mut used = UuidSet::new();
    let mut source = UuidSource::new();
    fix_chunk_tree(&mut root, 1, 2, &mut used, &mut source);
    let back = parse_nbt(&payload(&root)).unwrap();
    assert_eq!(items(get(&back, "Entities")).len(), 1);
    assert!(same(get(&back, "DataVersion"), &Value::Int(3700)));
}

#[test]
fn counters_add_up_and_stop_at_the_top() {
    let mut total = FixStats::new();
    let mut part = FixStats::default();
    part.entities_fixed = 2;
    part.enchantments_fixed = 3;
    part.files_processed = 1;
    total.merge(&part);
    total.merge(&part);
    assert_eq!(
        (total.entities_fixed, total.enchantments_fixed, total.files_processed),
        (4, 6, 2)
    );
    assert!(total.any_repair());
    assert!(!FixStats::new().any_repair());
    assert_eq!(add_clipped(usize::MAX, 1), usize::MAX);
    assert_eq!(add_clipped(usize::MAX - 1, 1), usize::MAX);
    assert_eq!(add_clipped(3, 4), 7);
}

#[test]
fn region_without_chunks_is_repaired_without_a_parse() {
    let region = Region::new(0, 0);
    let mut source = UuidSource::new();
    let (stats, repaired) = fix_region(&region, &mut source).unwrap();
    assert_eq!(stats.files_processed, 1);
    assert_eq!(stats.chunks_fixed, 0);
    assert!(repaired.is_empty());
}

#[test]
fn broken_payload_leaves_the_seen_identifiers_alone() {
    let mut used = UuidSet::new();
    used.insert("a".to_string());
    let mut source = UuidSource::new();
    let broken = Chunk::new(vec![0x0a, 0, 0, 0x03], 0, 0);
    assert!(matches!(fix_chunk(&broken, &mut used, &mut source), Err(NbtError::Parse(_))));
    assert_eq!(used.items.len(), 1);
}
