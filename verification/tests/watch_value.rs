use rtt_debug_tool::watch_value::{format_integer, parse_integer};

fn parse_i8(s: &str) -> Option<i128> {
    parse_integer(s, true, i8::MIN as i128, i8::MAX as i128)
}

fn parse_u8(s: &str) -> Option<i128> {
    parse_integer(s, false, 0, u8::MAX as i128)
}

#[test]
fn integers_format_in_decimal() {
    assert_eq!(format_integer(0), "0");
    assert_eq!(format_integer(42), "42");
    assert_eq!(format_integer(-42), "-42");
    assert_eq!(format_integer(1234567890), "1234567890");
    assert_eq!(format_integer(u64::MAX as i128), u64::MAX.to_string());
    assert_eq!(format_integer(i64::MIN as i128), i64::MIN.to_string());
}

#[test]
fn integers_parse_like_std() {
    let inputs = [
        "0", "42", "+5", "-5", "-", "+", "", "12a", "256", "255", "-128", "-129", "127", "128", "007", " 1",
        "1 ", "--1", "+-1", "٣",
    ];
    for s in inputs.iter() {
        assert_eq!(parse_i8(s), s.parse::<i8>().ok().map(|v| v as i128), "i8 {:?}", s);
        assert_eq!(parse_u8(s), s.parse::<u8>().ok().map(|v| v as i128), "u8 {:?}", s);
    }
    let big = ["18446744073709551615", "18446744073709551616", "99999999999999999999999999", "-9223372036854775808"];
    for s in big.iter() {
        assert_eq!(
            parse_integer(s, false, 0, u64::MAX as i128),
            s.parse::<u64>().ok().map(|v| v as i128),
            "u64 {:?}",
            s
        );
        assert_eq!(
            parse_integer(s, true, i64::MIN as i128, i64::MAX as i128),
            s.parse::<i64>().ok().map(|v| v as i128),
            "i64 {:?}",
            s
        );
    }
}

#[test]
fn integer_roundtrip() {
    for v in [-128i128, -1, 0, 1, 127] {
        assert_eq!(parse_i8(&format_integer(v)), Some(v));
    }
    for v in [0i128, 7, 255] {
        assert_eq!(parse_u8(&format_integer(v)), Some(v));
    }
}
