use linear_region_tools::error::RegionError;
use linear_region_tools::region::Region;

#[test]
fn parses_plain_coordinates() {
    assert_eq!(Region::parse_filename("r.0.0.mca").unwrap(), (0, 0));
}

#[test]
fn parses_negative_coordinates() {
    assert_eq!(Region::parse_filename("r.-1.-1.mca").unwrap(), (-1, -1));
}

#[test]
fn rejects_an_empty_coordinate() {
    assert!(matches!(Region::parse_filename("r..5.mca"), Err(RegionError::InvalidFormat)));
}

#[test]
fn coordinates_are_the_second_and_third_part() {
    assert_eq!(Region::parse_filename("r.12.-34.linear").unwrap(), (12, -34));
    assert_eq!(Region::parse_filename("a.b.1.2").is_err(), true);
    assert_eq!(Region::parse_filename(".1.2").unwrap(), (1, 2));
    assert_eq!(Region::parse_filename("r.1.2").unwrap(), (1, 2));
    assert_eq!(Region::parse_filename("r.+7.007.x.y").unwrap(), (7, 7));
}

#[test]
fn too_few_parts_or_bad_numbers_fail() {
    for name in ["", "r", "r.1", "r.1.", "r.1.x", "r.-.1", "r.+.1", "r.1 .2", "r.1.2a.mca"] {
        assert!(matches!(Region::parse_filename(name), Err(RegionError::InvalidFormat)));
    }
}

#[test]
fn coordinates_must_fit_32_bits() {
    assert_eq!(
        Region::parse_filename("r.2147483647.-2147483648.mca").unwrap(),
        (i32::MAX, i32::MIN)
    );
    assert!(Region::parse_filename("r.2147483648.0.mca").is_err());
    assert!(Region::parse_filename("r.0.-2147483649.mca").is_err());
    assert!(Region::parse_filename("r.99999999999999999999999.0.mca").is_err());
    assert_eq!(Region::parse_filename("r.000000000000000000000001.0.mca").unwrap(), (1, 0));
}
