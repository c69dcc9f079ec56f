use dubai::duration::Duration;
use dubai::numbers::{decimal_string, parse_uint_str, IntErrorKind};
use dubai::timestamp::form_timestamp_from_timing;

fn std_kind(s: &str, max: u64) -> Result<u64, String> {
    let r: Result<u64, String> = if max == u16::MAX as u64 {
        s.parse::<u16>().map(|v| v as u64).map_err(|e| format!("{:?}", e.kind()))
    } else if max == u32::MAX as u64 {
        s.parse::<u32>().map(|v| v as u64).map_err(|e| format!("{:?}", e.kind()))
    } else {
        s.parse::<u64>().map_err(|e| format!("{:?}", e.kind()))
    };
    r
}

#[test]
fn uint_parsing_matches_std() {
    let inputs = [
        "", "+", "-", "0", "+0", "-0", "7", "+42", "0042", "12a", "a12", " 12", "12 ", "12\n",
        "65535", "65536", "4294967295", "4294967296", "18446744073709551615",
        "18446744073709551616", "99999999999999999999x", "1_000", "١٢",
    ];
    for max in [u16::MAX as u64, u32::MAX as u64, u64::MAX] {
        for s in inputs {
            let ours = parse_uint_str(s, max).map_err(|k| format!("{:?}", k));
            assert_eq!(ours, std_kind(s, max), "input {:?} max {}", s, max);
        }
    }
}

#[test]
fn int_error_messages_match_std() {
    assert_eq!(IntErrorKind::Empty.message(), "".parse::<u32>().unwrap_err().to_string());
    assert_eq!(IntErrorKind::InvalidDigit.message(), "x".parse::<u32>().unwrap_err().to_string());
    assert_eq!(IntErrorKind::PosOverflow.message(), "99999999999".parse::<u32>().unwrap_err().to_string());
}

#[test]
fn decimal_matches_to_string() {
    for n in [0u64, 1, 9, 10, 99, 100, 12345, u64::MAX] {
        assert_eq!(decimal_string(n), n.to_string());
    }
}

#[test]
fn decimal_reads_back() {
    for n in [0u64, 5, 10, 65535, 4294967295] {
        assert_eq!(parse_uint_str(&decimal_string(n), u32::MAX as u64), Ok(n));
    }
}

#[test]
fn duration_new_carries_nanoseconds() {
    let d = Duration::new(1, 2_500_000_000);
    assert_eq!(d.as_secs(), 3);
    assert_eq!(d.subsec_nanos(), 500_000_000);
    assert_eq!(d.subsec_millis(), 500);
    let std_d = std::time::Duration::new(1, 2_500_000_000);
    assert_eq!(d.as_secs(), std_d.as_secs());
    assert_eq!(d.subsec_nanos(), std_d.subsec_nanos());
}

#[test]
fn duration_sub_borrows() {
    let a = Duration::new(5, 100);
    let b = Duration::new(2, 200);
    let d = a.sub(&b);
    assert_eq!(d.as_secs(), 2);
    assert_eq!(d.subsec_nanos(), 999_999_900);
    assert!(a.ge(&b));
    assert!(!b.ge(&a));
    assert!(Duration::zero().is_zero());
    assert!(!a.is_zero());
}

fn reference_timestamp(d: &std::time::Duration) -> String {
    let s = d.as_secs();
    format!("{:02}:{:02}:{:02},{:03}", s / 3600, (s % 3600) / 60, s % 60, d.subsec_millis())
}

#[test]
fn timestamp_text_matches_format() {
    for (s, n) in [(0u64, 0u32), (5, 0), (61, 7_000_000), (3600, 999_999_999), (3725, 123_456_789), (360000, 5)] {
        let ours = form_timestamp_from_timing(&Duration::new(s, n));
        assert_eq!(ours, reference_timestamp(&std::time::Duration::new(s, n)));
    }
}

#[test]
fn timestamp_text_is_zero_padded() {
    assert_eq!(form_timestamp_from_timing(&Duration::new(5, 0)), "00:00:05,000");
    assert_eq!(form_timestamp_from_timing(&Duration::new(3723, 400_000_000)), "01:02:03,400");
    assert_eq!(form_timestamp_from_timing(&Duration::new(3725, 123_999_999)), "01:02:05,123");
    assert_eq!(form_timestamp_from_timing(&Duration::new(360000, 0)), "100:00:00,000");
}
