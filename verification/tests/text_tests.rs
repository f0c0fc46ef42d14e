use asr_server::text::{decimal_string, format_start_time, seconds_string};

#[test]
fn decimal_string_matches_to_string() {
    for n in [0u64, 1, 9, 10, 11, 99, 100, 12345, u64::MAX] {
        assert_eq!(decimal_string(n as u128), n.to_string());
    }
}

#[test]
fn seconds_string_examples() {
    assert_eq!(seconds_string(1500), "1.5");
    assert_eq!(seconds_string(250), "0.25");
    assert_eq!(seconds_string(2000), "2");
    assert_eq!(seconds_string(0), "0");
    assert_eq!(seconds_string(-1), "-0.001");
    assert_eq!(seconds_string(1234), "1.234");
    assert_eq!(seconds_string(1050), "1.05");
}

#[test]
fn seconds_string_matches_float_printing() {
    let mut values: Vec<i64> = Vec::new();
    for ms in -3000i64..3000 {
        values.push(ms);
    }
    for k in 0..60 {
        let base: i64 = 1i64 << k;
        values.push(base);
        values.push(base - 1);
        values.push(base + 7);
        values.push(-base);
    }
    values.push(123_456_789);
    values.push(4_503_599_627_370_495);
    for ms in values {
        if ms.unsigned_abs() <= (1u64 << 52) {
            assert_eq!(seconds_string(ms as i128), (ms as f64 / 1000.0).to_string(), "ms = {}", ms);
        }
    }
}

#[test]
fn start_time_matches_format() {
    let cases = [(1u32, 2u32, 2024i32, 3u32, 4u32, 5u32), (12, 31, 999, 23, 59, 59), (7, 14, 12345, 0, 0, 0), (1, 1, -1, 1, 1, 1), (10, 10, -12345, 10, 10, 10), (100, 5, 0, 5, 100, 9)];
    for (mo, d, y, h, mi, s) in cases {
        let expected = format!("{:02}/{:02}/{:04} {:02}:{:02}:{:02}", mo, d, y, h, mi, s);
        assert_eq!(format_start_time(mo, d, y, h, mi, s), expected);
    }
    assert_eq!(format_start_time(3, 9, 2024, 8, 5, 0), "03/09/2024 08:05:00");
}
