use exif_sort::datetime::{DateTimeError, PhotoDate};

fn key(dt: &str, ss: &str) -> PhotoDate {
    PhotoDate::from_fields(Some(dt), Some(ss)).unwrap()
}

#[test]
fn parses_all_fields() {
    let k = key("2023-06-01 10:20:30", "50");
    assert_eq!(k.year, 2023);
    assert_eq!(k.month, 6);
    assert_eq!(k.day, 1);
    assert_eq!(k.hour, 10);
    assert_eq!(k.minute, 20);
    assert_eq!(k.second, 30);
    assert_eq!(k.millis, 50);
}

#[test]
fn quoted_subsec_equals_unquoted() {
    assert_eq!(key("2023-06-01 10:00:00", "\"123\""), key("2023-06-01 10:00:00", "123"));
    assert_eq!(key("2023-06-01 10:00:00", "\"123\"").millis, 123);
}

#[test]
fn subsec_over_sixteen_bits_is_rejected() {
    assert_eq!(
        PhotoDate::from_fields(Some("2023-06-01 10:00:00"), Some("65536")),
        Err(DateTimeError::ParseMillisError)
    );
    assert_eq!(key("2023-06-01 10:00:00", "65535").millis, 65535);
}

#[test]
fn subsec_not_a_number_is_rejected() {
    for bad in ["", "\"\"", "12a", "-1", "+", " 12"] {
        assert_eq!(
            PhotoDate::from_fields(Some("2023-06-01 10:00:00"), Some(bad)),
            Err(DateTimeError::ParseMillisError),
            "{bad:?}"
        );
    }
    assert_eq!(key("2023-06-01 10:00:00", "+7").millis, 7);
    assert_eq!(key("2023-06-01 10:00:00", "007").millis, 7);
}

#[test]
fn missing_fields_are_reported_in_order() {
    assert_eq!(PhotoDate::from_fields(None, Some("1")), Err(DateTimeError::NoDateTime));
    assert_eq!(PhotoDate::from_fields(None, None), Err(DateTimeError::NoDateTime));
    assert_eq!(
        PhotoDate::from_fields(Some("2023-06-01 10:00:00"), None),
        Err(DateTimeError::NoMilliseconds)
    );
}

#[test]
fn malformed_date_time_is_rejected() {
    for bad in [
        "2023:06:01 10:00:00",
        "2023-6-01 10:00:00",
        "2023-06-01T10:00:00",
        "2023-06-01 10:00",
        "+2023-06-01 10:00:00",
        "2023-06-01 10:00:00 ",
    ] {
        assert_eq!(
            PhotoDate::from_fields(Some(bad), Some("1")),
            Err(DateTimeError::ParseDateTimeError),
            "{bad:?}"
        );
    }
}

#[test]
fn impossible_calendar_instant_is_rejected() {
    for bad in ["2023-02-30 10:00:00", "2023-13-01 10:00:00", "2023-06-01 24:00:00", "2023-06-01 10:60:00"] {
        assert_eq!(
            PhotoDate::from_fields(Some(bad), Some("1")),
            Err(DateTimeError::ParseDateTimeError),
            "{bad:?}"
        );
    }
    assert!(PhotoDate::from_fields(Some("2024-02-29 23:59:59"), Some("1")).is_ok());
}

#[test]
fn date_time_error_comes_before_millis_error() {
    assert_eq!(
        PhotoDate::from_fields(Some("bad"), Some("bad")),
        Err(DateTimeError::ParseDateTimeError)
    );
}

#[test]
fn parse_takes_the_calendar_verdict() {
    assert_eq!(
        PhotoDate::parse("2023-06-01 10:00:00", "5", false),
        Err(DateTimeError::ParseDateTimeError)
    );
    assert_eq!(PhotoDate::parse("2023-06-01 10:00:00", "5", true).unwrap().millis, 5);
}

#[test]
fn earlier_instant_gives_earlier_key() {
    let pairs = [
        (("2023-06-01 10:00:00", "50"), ("2023-06-01 10:00:00", "51")),
        (("2023-06-01 10:00:00", "999"), ("2023-06-01 10:00:01", "0")),
        (("2022-12-31 23:59:59", "999"), ("2023-01-01 00:00:00", "0")),
        (("2023-06-01 09:59:59", "0"), ("2023-06-01 10:00:00", "0")),
    ];
    for ((d1, s1), (d2, s2)) in pairs {
        let a = key(d1, s1);
        let b = key(d2, s2);
        assert!(a.is_before(&b));
        assert!(!b.is_before(&a));
        assert!(a < b);
    }
    let a = key("2023-06-01 10:00:00", "50");
    assert!(!a.is_before(&a));
}

#[test]
fn folder_name_is_the_date() {
    assert_eq!(key("2023-06-01 10:00:00", "50").folder_name(), "2023_06_01");
    assert_eq!(key("0099-12-31 23:59:59", "0").folder_name(), "0099_12_31");
}

#[test]
fn folder_name_ignores_time_of_day() {
    let a = key("2023-06-01 00:00:00", "0");
    let b = key("2023-06-01 23:59:59", "999");
    assert_eq!(a.folder_name(), b.folder_name());
    let c = key("2023-06-02 00:00:00", "0");
    assert_ne!(a.folder_name(), c.folder_name());
}
