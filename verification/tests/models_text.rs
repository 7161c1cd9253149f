use zbx_events::models::{EventId, Severity, Status, Timestamp};
use zbx_events::repository::{frame_length, group_names};
use zbx_events::text::{is_blank, parse_i32, parse_i64, parse_u64, split_on, str_eq};

#[test]
fn severity_numbers_round_trip() {
    let all = [
        Severity::NotClassifier,
        Severity::Information,
        Severity::Warning,
        Severity::Average,
        Severity::High,
        Severity::Disaster,
    ];
    for (n, s) in all.iter().enumerate() {
        assert_eq!(s.to_number(), n as i32);
        assert_eq!(Severity::from_number(n as i32), Some(*s));
    }
    assert_eq!(Severity::from_number(-1), None);
    assert_eq!(Severity::from_number(6), None);
    assert_eq!(Severity::from_number(i32::MAX), None);
}

#[test]
fn labels_read_back() {
    for s in [Status::Resolved, Status::Ongoing] {
        assert_eq!(Status::try_from(s.label()), Ok(s));
    }
    for s in [
        Severity::Warning,
        Severity::Information,
        Severity::Average,
        Severity::High,
        Severity::Disaster,
        Severity::NotClassifier,
    ] {
        assert_eq!(Severity::try_from(s.label()), Ok(s));
    }
    assert_eq!(Status::Resolved.label(), "RESOLVED");
    assert_eq!(Severity::NotClassifier.label(), "notClassifier");
    assert_eq!(Status::try_from("resolved"), Err(()));
    assert_eq!(Severity::try_from("Warning"), Err(()));
    assert_eq!(Severity::try_from(""), Err(()));
}

#[test]
fn severity_into_string_is_its_label() {
    assert_eq!(String::from(Severity::NotClassifier), "notClassifier");
    let s: String = Severity::Disaster.into();
    assert_eq!(s, "disaster");
}

#[test]
fn timestamp_and_event_id_deref_to_their_value() {
    assert_eq!(*Timestamp::new(17), 17);
    assert_eq!(*EventId::new(-3) + 1, -2);
}

#[test]
fn timestamp_and_event_id_hold_their_value() {
    let mut t = Timestamp::new(5);
    assert_eq!(t.get(), 5);
    t.set(-7);
    assert_eq!(t.get(), -7);
    let mut e = EventId::new(1);
    e.set(99);
    assert_eq!(e.get(), 99);
}

#[test]
fn integers_parse_like_from_str() {
    for s in ["0", "42", "-42", "+42", "007", "9223372036854775807", "-9223372036854775808", "", "-", "+", "4 2", " 1", "1e3", "-+1", "9223372036854775808", "١٢"] {
        assert_eq!(parse_i64(s), s.parse::<i64>().ok(), "i64 {s:?}");
        assert_eq!(parse_i32(s), s.parse::<i32>().ok(), "i32 {s:?}");
        assert_eq!(parse_u64(s), s.parse::<u64>().ok(), "u64 {s:?}");
    }
    assert_eq!(parse_i32("2147483648"), None);
    assert_eq!(parse_i32("-2147483648"), Some(i32::MIN));
    assert_eq!(parse_u64("-0"), None);
    assert_eq!(parse_u64("18446744073709551615"), Some(u64::MAX));
}

#[test]
fn blank_and_equal_texts() {
    assert!(is_blank(""));
    assert!(is_blank(" \t\r\n\u{a0}\u{3000}"));
    assert!(!is_blank(" x "));
    assert!(str_eq("abc", "abc"));
    assert!(!str_eq("abc", "abd"));
    assert!(!str_eq("ab", "abc"));
}

#[test]
fn splitting_matches_str_split() {
    for s in ["", ",", "a", "a,b", "a,,b", "a,", ",a", "grupo uno,grupo-2,ñandú"] {
        let expected: Vec<String> = s.split(',').map(|p| p.to_string()).collect();
        assert_eq!(split_on(s, ','), expected);
        assert_eq!(group_names(s), expected);
        assert_eq!(split_on(s, ',').join(","), s);
    }
}

#[test]
fn frame_length_is_big_endian() {
    assert_eq!(frame_length([0, 0, 0, 0]), 0);
    assert_eq!(frame_length([0, 0, 1, 2]), 258);
    assert_eq!(frame_length([0x12, 0x34, 0x56, 0x78]), 0x1234_5678);
    assert_eq!(frame_length([255, 255, 255, 255]), u32::MAX);
    assert_eq!(frame_length([1, 0, 0, 0]), u32::from_be_bytes([1, 0, 0, 0]));
}
