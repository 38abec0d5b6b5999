use sirun::num::{fmt_decimal, fmt_u64, parse_decimal, Decimal};

#[test]
fn parse_plain_integer() {
    assert_eq!(parse_decimal(b"42"), Some(Decimal { mantissa: 42, scale: 0 }));
}

#[test]
fn parse_fraction() {
    assert_eq!(parse_decimal(b"42.5"), Some(Decimal { mantissa: 425, scale: 1 }));
}

#[test]
fn parse_negative() {
    assert_eq!(parse_decimal(b"-0.001"), Some(Decimal { mantissa: -1, scale: 3 }));
}

#[test]
fn parse_rejects_garbage() {
    assert_eq!(parse_decimal(b"notanumber"), None);
    assert_eq!(parse_decimal(b""), None);
    assert_eq!(parse_decimal(b"."), None);
    assert_eq!(parse_decimal(b".5"), None);
    assert_eq!(parse_decimal(b"5."), None);
    assert_eq!(parse_decimal(b"1.2.3"), None);
    assert_eq!(parse_decimal(b"-"), None);
}

#[test]
fn parse_rejects_overflow() {
    assert_eq!(parse_decimal(b"99999999999999999999"), None);
    assert_eq!(parse_decimal(b"9223372036854775807"), Some(Decimal {
        mantissa: i64::MAX,
        scale: 0,
    }));
    assert_eq!(parse_decimal(b"9223372036854775808"), None);
    assert_eq!(parse_decimal(b"-9223372036854775808"), Some(Decimal {
        mantissa: i64::MIN,
        scale: 0,
    }));
}

#[test]
fn parse_accepts_leading_zeros() {
    assert_eq!(parse_decimal(b"007"), Some(Decimal { mantissa: 7, scale: 0 }));
}

#[test]
fn fmt_pads_small_mantissas() {
    assert_eq!(fmt_decimal(Decimal { mantissa: 5, scale: 3 }), b"0.005");
    assert_eq!(fmt_decimal(Decimal { mantissa: -5, scale: 1 }), b"-0.5");
    assert_eq!(fmt_decimal(Decimal { mantissa: 425, scale: 1 }), b"42.5");
    assert_eq!(fmt_decimal(Decimal { mantissa: 500000, scale: 4 }), b"50.0000");
    assert_eq!(fmt_decimal(Decimal { mantissa: 0, scale: 0 }), b"0");
}

#[test]
fn fmt_u64_digits() {
    assert_eq!(fmt_u64(0), b"0");
    assert_eq!(fmt_u64(1500), b"1500");
    assert_eq!(fmt_u64(u64::MAX), b"18446744073709551615");
}

#[test]
fn round_trip_holds_on_samples() {
    let samples = [
        Decimal { mantissa: 0, scale: 0 },
        Decimal { mantissa: 425, scale: 1 },
        Decimal { mantissa: -31415, scale: 4 },
        Decimal { mantissa: i64::MAX, scale: 2 },
        Decimal { mantissa: i64::MIN, scale: 7 },
    ];
    for d in samples {
        assert_eq!(parse_decimal(&fmt_decimal(d)), Some(d));
    }
}
