use mini_redis::numeric::{parse_i64, parse_isize, render_i64, render_u64};

#[test]
fn parses_like_from_str() {
    for s in ["0", "+5", "-5", "007", "9223372036854775807", "-9223372036854775808", "", "+", "-", "1a", " 1", "9223372036854775808", "+-1"] {
        assert_eq!(parse_i64(s.as_bytes()), s.parse::<i64>().ok(), "{s:?}");
        assert_eq!(parse_isize(s.as_bytes()), s.parse::<isize>().ok(), "{s:?}");
    }
}

#[test]
fn renders_like_display() {
    for n in [0u64, 9, 10, 123, u64::MAX] {
        assert_eq!(render_u64(n), n.to_string().into_bytes());
    }
    for i in [0i64, -1, 42, i64::MIN, i64::MAX] {
        assert_eq!(render_i64(i), i.to_string().into_bytes());
    }
}
