use ayysee::number::Number;

fn num(x: f64) -> Number {
    Number::from_bits(x.to_bits())
}

fn samples() -> Vec<f64> {
    vec![
        0.0,
        -0.0,
        0.25,
        0.4999999999999999,
        0.5,
        0.75,
        1.0,
        1.5,
        2.5,
        -0.5,
        -1.5,
        -2.5,
        3.0,
        127.0,
        1e9,
        2147483646.5,
        2147483647.0,
        2147483647.5,
        2147483648.0,
        -2147483648.0,
        -2147483648.5,
        -2147483649.0,
        4294967296.0,
        1e300,
        -1e300,
        5e-324,
        f64::MIN_POSITIVE,
        f64::INFINITY,
        f64::NEG_INFINITY,
        f64::NAN,
        -f64::NAN,
    ]
}

#[test]
fn from_i64_matches_the_machine() {
    let values: Vec<i64> = vec![
        0,
        1,
        -1,
        2,
        3,
        -3,
        127,
        -128,
        65535,
        1 << 52,
        (1 << 53) - 1,
        1 << 53,
        (1 << 53) + 1,
        (1 << 53) + 2,
        (1 << 53) + 3,
        (1 << 54) + 2,
        (1 << 54) + 6,
        -((1 << 53) + 1),
        -((1 << 53) + 3),
        0x7fff_ffff_ffff_fbff,
        0x7fff_ffff_ffff_fc00,
        0x7fff_ffff_ffff_fdff,
        0x7fff_ffff_ffff_fe00,
        i64::MAX,
        i64::MAX - 1,
        i64::MIN,
        i64::MIN + 1,
        123456789012345678,
        -987654321098765432,
    ];
    for x in values {
        assert_eq!(Number::from_i64(x).to_bits(), (x as f64).to_bits(), "{}", x);
    }
}

#[test]
fn from_i64_rounds_ties_to_even() {
    // 2^53 + 1 lies halfway between 2^53 and 2^53 + 2: the even significand wins
    assert_eq!(Number::from_i64((1 << 53) + 1).to_bits(), 9007199254740992.0f64.to_bits());
    assert_eq!(Number::from_i64((1 << 53) + 3).to_bits(), 9007199254740996.0f64.to_bits());
    assert_eq!(Number::from_i64(1).to_bits(), 0x3ff0_0000_0000_0000);
    assert_eq!(Number::from_i64(-1).to_bits(), 0xbff0_0000_0000_0000);
}

#[test]
fn from_index_matches_the_machine() {
    let values: Vec<usize> = vec![0, 1, 2, 7, 128, 1 << 20, usize::MAX, usize::MAX - 1, (1 << 53) + 1];
    for x in values {
        assert_eq!(Number::from_index(x).to_bits(), (x as f64).to_bits(), "{}", x);
    }
}

#[test]
fn from_bool_is_one_or_zero() {
    assert_eq!(Number::from_bool(true).to_bits(), 1.0f64.to_bits());
    assert_eq!(Number::from_bool(false).to_bits(), 0.0f64.to_bits());
}

#[test]
fn round_matches_the_machine() {
    for x in samples() {
        assert_eq!(num(x).round(), x.round() as i32, "{}", x);
    }
}

#[test]
fn truncate_matches_the_machine() {
    for x in samples() {
        assert_eq!(num(x).truncate(), x as i32, "{}", x);
    }
}

#[test]
fn comparisons_match_the_machine() {
    for a in samples() {
        assert_eq!(num(a).is_nan(), a.is_nan(), "{}", a);
        assert_eq!(num(a).is_zero(), a == 0.0, "{}", a);
        assert_eq!(num(a).abs().to_bits(), a.abs().to_bits(), "{}", a);
        assert_eq!(num(a).is_negative(), a.is_sign_negative(), "{}", a);
        for b in samples() {
            assert_eq!(num(a).eq_number(&num(b)), a == b, "{} == {}", a, b);
            assert_eq!(num(a).lt_number(&num(b)), a < b, "{} < {}", a, b);
            assert_eq!(num(a).le_number(&num(b)), a <= b, "{} <= {}", a, b);
        }
    }
}

#[test]
fn same_number_is_equality_of_keys() {
    // every NaN is one key, and the two zeros are one key
    assert!(num(f64::NAN).same_number(&num(-f64::NAN)));
    assert!(num(0.0).same_number(&num(-0.0)));
    assert!(num(1.5).same_number(&num(1.5)));
    assert!(!num(1.5).same_number(&num(2.5)));
    assert!(!num(f64::NAN).same_number(&num(1.0)));
    assert!(!num(1.0).same_number(&num(f64::NAN)));
}
