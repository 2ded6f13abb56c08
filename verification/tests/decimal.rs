use mcmu::decimal::{parse_bounded_u32, parse_u16, push_decimal};

#[test]
fn parses_ports() {
    assert_eq!(parse_u16(b"0"), Some(0));
    assert_eq!(parse_u16(b"19132"), Some(19132));
    assert_eq!(parse_u16(b"65535"), Some(65535));
    assert_eq!(parse_u16(b"65536"), None);
    assert_eq!(parse_u16(b"+7"), Some(7));
    assert_eq!(parse_u16(b"+"), None);
    assert_eq!(parse_u16(b"-1"), None);
    assert_eq!(parse_u16(b""), None);
    assert_eq!(parse_u16(b"12a"), None);
    assert_eq!(parse_u16(b" 1"), None);
    assert_eq!(parse_u16(b"99999999999999999999"), None);
}

#[test]
fn parses_like_std() {
    for text in ["0", "1", "+1", "-1", "", "+", "007", "65535", "65536", "1x", "++1"] {
        assert_eq!(parse_u16(text.as_bytes()), text.parse::<u16>().ok(), "{}", text);
        assert_eq!(
            parse_bounded_u32(text.as_bytes(), u32::MAX),
            text.parse::<u32>().ok(),
            "{}",
            text
        );
    }
    assert_eq!(parse_bounded_u32(b"4294967295", u32::MAX), Some(u32::MAX));
    assert_eq!(parse_bounded_u32(b"4294967296", u32::MAX), None);
}

#[test]
fn writes_decimal_like_to_string() {
    for n in [0u16, 5, 10, 99, 100, 19132, 65535] {
        let mut out = b"x".to_vec();
        push_decimal(&mut out, n);
        assert_eq!(out, format!("x{}", n).into_bytes());
    }
}
