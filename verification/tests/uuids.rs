use linear_region_tools::uuids::{pack_lanes, unpack_lanes, uuid_text, UuidSet, UuidSource};

#[test]
fn text_is_hyphenated_lowercase_hex() {
    assert_eq!(uuid_text(0), "00000000-0000-0000-0000-000000000000");
    assert_eq!(uuid_text(1), "00000000-0000-0000-0000-000000000001");
    assert_eq!(
        uuid_text(0x0123456789abcdef_fedcba9876543210),
        "01234567-89ab-cdef-fedc-ba9876543210"
    );
    assert_eq!(uuid_text(u128::MAX), "ffffffff-ffff-ffff-ffff-ffffffffffff");
}

#[test]
fn lanes_pack_most_significant_first() {
    assert_eq!(pack_lanes(&vec![1, 2, 3, 4]), (1u128 << 96) | (2 << 64) | (3 << 32) | 4);
    assert_eq!(pack_lanes(&vec![0, -1, 0, 0]), 0xffff_ffffu128 << 64);
    assert_eq!(pack_lanes(&vec![-1, -1, -1, -1]), u128::MAX);
    assert_eq!(pack_lanes(&vec![i32::MIN, 0, 0, i32::MAX]), (0x8000_0000u128 << 96) | 0x7fff_ffff);
}

#[test]
fn lanes_unpack_what_was_packed() {
    for lanes in [vec![1, 2, 3, 4], vec![-1, 0, i32::MIN, i32::MAX], vec![0, 0, 0, 0]] {
        let mut back = vec![9, 9, 9, 9];
        unpack_lanes(pack_lanes(&lanes), &mut back);
        assert_eq!(back, lanes);
    }
    let mut lanes = vec![0, 0, 0, 0];
    unpack_lanes(0x0123456789abcdef_fedcba9876543210, &mut lanes);
    assert_eq!(lanes, vec![0x01234567, 0x89abcdefu32 as i32, 0xfedcba98u32 as i32, 0x76543210]);
}

#[test]
fn set_remembers_what_was_inserted() {
    let mut set = UuidSet::new();
    assert!(!set.contains(&"a".to_string()));
    set.insert("a".to_string());
    set.insert("b".to_string());
    set.insert("a".to_string());
    assert!(set.contains(&"a".to_string()));
    assert!(set.contains(&"b".to_string()));
    assert!(!set.contains(&"c".to_string()));
    assert_eq!(set.items.len(), 2);
}

#[test]
fn drawn_identifiers_are_random_version_four() {
    let mut source = UuidSource::new();
    let a = source.draw();
    let b = source.draw();
    assert_ne!(a, b);
    for id in [a, b] {
        assert_eq!((id >> 76) & 0xf, 4);
        assert_eq!((id >> 62) & 0x3, 2);
        assert_eq!(uuid::Uuid::parse_str(&uuid_text(id)).unwrap().as_u128(), id);
    }
}
