use linear_region_tools::double::{double_at_least, double_below, double_from_whole};

fn samples() -> Vec<f64> {
    let mut values = vec![
        0.0,
        -0.0,
        0.5,
        -0.5,
        1.0,
        -1.0,
        15.999999999999998,
        16.0,
        16.000000000000004,
        -16.0,
        -15.999999999999998,
        47.99,
        48.0,
        63.99999999999999,
        64.0,
        100.0,
        -50.0,
        1e-300,
        -1e-300,
        5e-324,
        -5e-324,
        2.2250738585072014e-308,
        1e300,
        -1e300,
        4503599627370496.0,
        -4503599627370496.0,
        9007199254740993.0,
        1099511627776.0,
        -1099511627776.0,
        1099511627775.5,
        f64::MAX,
        f64::MIN,
        f64::INFINITY,
        f64::NEG_INFINITY,
        f64::NAN,
        -f64::NAN,
    ];
    let mut state = 0x9e3779b97f4a7c15u64;
    for _ in 0..2000 {
        state ^= state << 13;
        state ^= state >> 7;
        state ^= state << 17;
        values.push(f64::from_bits(state));
        values.push(((state % 4000) as f64 - 2000.0) / 8.0);
    }
    values
}

fn bounds() -> Vec<i64> {
    vec![
        0,
        1,
        -1,
        16,
        -16,
        48,
        64,
        -32,
        -48,
        1000,
        -1000,
        1 << 31,
        -(1 << 31),
        (1 << 35) + 16,
        -(1 << 35),
        1 << 40,
        -(1 << 40),
    ]
}

#[test]
fn below_agrees_with_the_hardware() {
    for value in samples() {
        for bound in bounds() {
            assert_eq!(
                double_below(value.to_bits(), bound),
                value < bound as f64,
                "{value} < {bound}"
            );
        }
    }
}

#[test]
fn at_least_agrees_with_the_hardware() {
    for value in samples() {
        for bound in bounds() {
            assert_eq!(
                double_at_least(value.to_bits(), bound),
                value >= bound as f64,
                "{value} >= {bound}"
            );
        }
    }
}

#[test]
fn whole_numbers_have_the_bits_of_their_double() {
    for n in [0i64, 1, -1, 2, 3, 8, 56, -24, 255, 256, 1000003, -1000003, 1 << 31, 1 << 40] {
        assert_eq!(double_from_whole(n), (n as f64).to_bits(), "{n}");
        if n != 0 {
            assert_eq!(double_from_whole(-n), ((-n) as f64).to_bits(), "-{n}");
        }
    }
    for n in -5000i64..5000 {
        if n != 0 {
            assert_eq!(double_from_whole(n), (n as f64).to_bits(), "{n}");
        }
    }
    assert_eq!(double_from_whole(0), 0);
    assert_eq!(double_from_whole((1 << 40) - 1), (((1i64 << 40) - 1) as f64).to_bits());
    assert_eq!(double_from_whole(-(1 << 40)), (-((1i64 << 40) as f64)).to_bits());
}

#[test]
fn no_number_is_neither_below_nor_at_least() {
    let bits = f64::NAN.to_bits();
    assert!(!double_below(bits, 0));
    assert!(!double_at_least(bits, 0));
    assert!(double_below(f64::NEG_INFINITY.to_bits(), -(1 << 40)));
    assert!(double_at_least(f64::INFINITY.to_bits(), 1 << 40));
}
